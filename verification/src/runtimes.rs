//! Node runtimes: the catalog grouped from the dist index, the SHASUMS256
//! check a download must pass, and the shape a system `node --version` must
//! have to count.

pub mod archive;
pub mod install;

use vstd::prelude::*;
use crate::decimal::{dec_digits, decimal_chars};
use crate::hexdigits::{eq_ignore_ascii_case, eq_ignore_ascii_case_exec, hex_encode, hex_lower};
use crate::sessions::codec::{cviews, split_nl, split_nl_exec};
use crate::text::{chars_of, concat_chars, is_ws, is_ws_char, string_of, trim, trim_exec, ws_count, ws_count_exec};

verus! {

/* ------------------------------ wire types ------------------------------ */

/// One installable major line.
#[derive(Debug)]
pub struct NodeRuntimeMeta {
    /// `node-22`.
    pub id: String,
    pub major: u64,
    /// Full version of the newest release in the line.
    pub version: String,
    pub codename: Option<String>,
    pub lts: bool,
}

/// One installed runtime.
#[derive(Debug)]
pub struct InstalledRuntimeInfo {
    /// Directory name under `<root>/runtimes/`.
    pub name: String,
    pub installed_at: String,
    pub version: String,
}

/* ----------------------------- system node ----------------------------- */

pub open spec fn count_char(s: Seq<char>, c: char) -> nat
    decreases s.len(),
{
    if s.len() == 0 {
        0
    } else {
        count_char(s.drop_last(), c) + if s.last() == c {
            1nat
        } else {
            0nat
        }
    }
}

/// The version a system `node --version` reports, when it has the shape
/// `vMAJOR.MINOR.PATCH` (three dot-separated parts of digits and dots);
/// shims and wrappers print other things.
pub open spec fn system_node_spec(text: Seq<char>) -> Option<Seq<char>> {
    let t = trim(text);
    if t.len() > 0 && t[0] == 'v' {
        let v = t.skip(1);
        if count_char(v, '.') == 2 && forall|i: int| 0 <= i < v.len() ==> ('0' <= #[trigger] v[i] && v[i] <= '9')
            || v[i] == '.' {
            Some(v)
        } else {
            None
        }
    } else {
        None
    }
}

/// Parses what a system `node --version` printed.
pub fn parse_system_node_version(text: &str) -> (r: Option<String>)
    ensures
        crate::sessions::codec::opt_view(r) == system_node_spec(text@),
{
    let t = trim_exec(&chars_of(text));
    if t.len() == 0 || t[0] != 'v' {
        return None;
    }
    let v = crate::text::slice_range(&t, 1, t.len());
    assert(v@ =~= t@.skip(1));
    let mut dots: usize = 0;
    let mut ok = true;
    let mut i: usize = 0;
    while i < v.len()
        invariant
            i <= v.len(),
            dots == count_char(v@.take(i as int), '.'),
            dots <= i,
            ok == forall|j: int| 0 <= j < i ==> ('0' <= #[trigger] v@[j] && v@[j] <= '9') || v@[j] == '.',
        decreases v.len() - i,
    {
        assert(v@.take(i + 1).drop_last() =~= v@.take(i as int));
        let c = v[i];
        if c == '.' {
            dots = dots + 1;
        }
        if !(('0' <= c && c <= '9') || c == '.') {
            ok = false;
        }
        i += 1;
    }
    assert(v@.take(i as int) =~= v@);
    if ok && dots == 2 {
        Some(string_of(&v))
    } else {
        None
    }
}

/* ------------------------------ SHASUMS256 ------------------------------ */

/// How many leading characters are not whitespace.
pub open spec fn word_len(s: Seq<char>) -> nat
    decreases s.len(),
{
    if s.len() > 0 && !is_ws(s[0]) {
        1 + word_len(s.drop_first())
    } else {
        0
    }
}

/// The first whitespace-separated word of `s`, and what follows it.
pub open spec fn next_word(s: Seq<char>) -> (Seq<char>, Seq<char>) {
    let r = s.skip(ws_count(s) as int);
    (r.take(word_len(r) as int), r.skip(word_len(r) as int))
}

/// The first two words of a line, when it has two.
pub open spec fn two_words(line: Seq<char>) -> Option<(Seq<char>, Seq<char>)> {
    let (a, rest) = next_word(line);
    let (b, _) = next_word(rest);
    if a.len() > 0 && b.len() > 0 {
        Some((a, b))
    } else {
        None
    }
}

pub open spec fn star_count(s: Seq<char>) -> nat
    decreases s.len(),
{
    if s.len() > 0 && s[0] == '*' {
        1 + star_count(s.drop_first())
    } else {
        0
    }
}

/// `(filename, hash)` of every listing line `<hash> <filename>` (a `*`
/// binary marker before the filename is dropped), in order.
pub open spec fn shasum_entries(lines: Seq<Seq<char>>) -> Seq<(Seq<char>, Seq<char>)>
    decreases lines.len(),
{
    if lines.len() == 0 {
        Seq::empty()
    } else {
        shasum_entries(lines.drop_last()) + match two_words(lines.last()) {
            Some((h, f)) => seq![(f.skip(star_count(f) as int), h)],
            None => Seq::empty(),
        }
    }
}

/// The hash listed for a filename; a later line for the same file wins.
pub open spec fn shasum_of(entries: Seq<(Seq<char>, Seq<char>)>, name: Seq<char>) -> Option<Seq<char>>
    decreases entries.len(),
{
    if entries.len() == 0 {
        None
    } else if entries.last().0 == name {
        Some(entries.last().1)
    } else {
        shasum_of(entries.drop_last(), name)
    }
}

pub open spec fn entries_view(v: Seq<(String, String)>) -> Seq<(Seq<char>, Seq<char>)> {
    v.map_values(|p: (String, String)| (p.0@, p.1@))
}

fn word_len_exec(s: &[char], from: usize) -> (n: usize)
    requires
        from <= s.len(),
    ensures
        n == word_len(s@.skip(from as int)),
        from + n <= s.len(),
{
    let mut i = from;
    while i < s.len() && !is_ws_char(s[i])
        invariant
            from <= i <= s.len(),
            word_len(s@.skip(from as int)) == (i - from) + word_len(s@.skip(i as int)),
        decreases s.len() - i,
    {
        assert(s@.skip(i as int).drop_first() =~= s@.skip(i + 1));
        i += 1;
    }
    i - from
}

proof fn lemma_word_bound(s: Seq<char>)
    ensures
        word_len(s) <= s.len(),
    decreases s.len(),
{
    if s.len() > 0 && !is_ws(s[0]) {
        lemma_word_bound(s.drop_first());
    }
}

/// The first two words of a line.
fn two_words_exec(line: &[char]) -> (r: Option<(Vec<char>, Vec<char>)>)
    ensures
        match r {
            Some((a, b)) => two_words(line@) == Some((a@, b@)),
            None => two_words(line@).is_none(),
        },
{
    let s0 = ws_count_exec(line);
    proof {
        crate::text::lemma_ws_count_bound(line@);
    }
    let w1 = word_len_exec(line, s0);
    let a = crate::text::slice_range(line, s0, s0 + w1);
    let r1 = crate::text::slice_range(line, s0 + w1, line.len());
    assert(a@ =~= line@.skip(ws_count(line@) as int).take(w1 as int));
    assert(r1@ =~= line@.skip(ws_count(line@) as int).skip(w1 as int));
    let s1 = ws_count_exec(&r1);
    proof {
        crate::text::lemma_ws_count_bound(r1@);
    }
    let w2 = word_len_exec(&r1, s1);
    let b = crate::text::slice_range(&r1, s1, s1 + w2);
    assert(b@ =~= r1@.skip(ws_count(r1@) as int).take(w2 as int));
    if a.len() > 0 && b.len() > 0 {
        Some((a, b))
    } else {
        None
    }
}

fn star_count_exec(s: &[char]) -> (n: usize)
    ensures
        n == star_count(s@),
        n <= s.len(),
{
    let mut i: usize = 0;
    assert(s@.skip(0) =~= s@);
    while i < s.len() && s[i] == '*'
        invariant
            i <= s.len(),
            star_count(s@) == i + star_count(s@.skip(i as int)),
        decreases s.len() - i,
    {
        assert(s@.skip(i as int).drop_first() =~= s@.skip(i + 1));
        i += 1;
    }
    assert(s@.skip(0) =~= s@);
    i
}

/// The `(filename, hash)` entries of a SHASUMS256 listing, in order. Lines
/// without two words are skipped.
pub fn parse_shasums(text: &str) -> (r: Vec<(String, String)>)
    ensures
        entries_view(r@) == shasum_entries(split_nl(text@)),
{
    let pieces = split_nl_exec(&chars_of(text));
    let ghost pv = cviews(pieces@);
    let mut out: Vec<(String, String)> = Vec::new();
    let mut k: usize = 0;
    while k < pieces.len()
        invariant
            k <= pieces.len(),
            pv == cviews(pieces@),
            pv.len() == pieces.len(),
            entries_view(out@) == shasum_entries(pv.take(k as int)),
        decreases pieces.len() - k,
    {
        assert(pv.take(k + 1).drop_last() =~= pv.take(k as int));
        assert(pv[k as int] == pieces@[k as int]@);
        let ghost before = out@;
        match two_words_exec(&pieces[k]) {
            Some((h, f)) => {
                let n = star_count_exec(&f);
                let name = crate::text::slice_range(&f, n, f.len());
                assert(name@ =~= f@.skip(n as int));
                out.push((string_of(&name), string_of(&h)));
                assert(entries_view(out@) =~= entries_view(before) + seq![(name@, h@)]);
            },
            None => {
                assert(entries_view(out@) =~= entries_view(before) + Seq::<(Seq<char>, Seq<char>)>::empty());
            },
        }
        k += 1;
    }
    assert(pv.take(k as int) =~= pv);
    out
}

/// The hash listed for a filename (the last line for it wins).
pub fn shasum_for(entries: &Vec<(String, String)>, name: &str) -> (r: Option<String>)
    ensures
        crate::sessions::codec::opt_view(r) == shasum_of(entries_view(entries@), name@),
{
    let ghost ev = entries_view(entries@);
    let n = name.to_owned();
    let mut k = entries.len();
    assert(ev.take(k as int) =~= ev);
    while k > 0
        invariant
            k <= entries.len(),
            ev == entries_view(entries@),
            ev.len() == entries.len(),
            n@ == name@,
            shasum_of(ev, name@) == shasum_of(ev.take(k as int), name@),
        decreases k,
    {
        assert(ev.take(k as int).drop_last() =~= ev.take(k - 1));
        assert(ev.take(k as int).last() == (entries@[k - 1].0@, entries@[k - 1].1@));
        if entries[k - 1].0 == n {
            return Some(entries[k - 1].1.clone());
        }
        k -= 1;
    }
    None
}

pub open spec fn check_shasums_spec(entries: Seq<(Seq<char>, Seq<char>)>, filename: Seq<char>, digest: Seq<u8>) -> Result<
    (),
    Seq<char>,
> {
    match shasum_of(entries, filename) {
        None => Err("SHASUMS256 里没有 "@ + filename + " 的校验条目"@),
        Some(expected) => if eq_ignore_ascii_case(expected, hex_lower(digest)) {
            Ok(())
        } else {
            Err("校验失败：下载内容与官方 SHASUMS256 摘要不一致"@)
        },
    }
}

/// A download passes only when the listing has an entry for its filename
/// and that entry equals the digest's hex (ignoring case); a missing entry
/// is refused, not skipped.
pub fn check_shasums(entries: &Vec<(String, String)>, filename: &str, digest: &[u8]) -> (r: Result<(), String>)
    ensures
        match r {
            Ok(()) => check_shasums_spec(entries_view(entries@), filename@, digest@) == Ok::<(), Seq<char>>(()),
            Err(e) => check_shasums_spec(entries_view(entries@), filename@, digest@) == Err::<(), Seq<char>>(e@),
        },
{
    let expected = match shasum_for(entries, filename) {
        Some(e) => e,
        None => {
            let a = concat_chars(&chars_of("SHASUMS256 里没有 "), &chars_of(filename));
            return Err(string_of(&concat_chars(&a, &chars_of(" 的校验条目"))));
        },
    };
    let actual = hex_encode(digest);
    if eq_ignore_ascii_case_exec(&chars_of(expected.as_str()), &chars_of(actual.as_str())) {
        Ok(())
    } else {
        Err("校验失败：下载内容与官方 SHASUMS256 摘要不一致".to_owned())
    }
}

/// The SHA-256 digest of bytes (32 bytes), as `sha2::Sha256::digest`
/// computes it.
pub uninterp spec fn sha256_of(b: Seq<u8>) -> Seq<u8>;

/// Hashes bytes with `sha2::Sha256::digest`. Trusted: the digest is a
/// function of the bytes ([`sha256_of`]) and is 32 bytes long, as the
/// `Sha256` type's output size fixes.
#[verifier::external_body]
pub fn sha256_digest(bytes: &[u8]) -> (r: Vec<u8>)
    ensures
        r@ == sha256_of(bytes@),
        r@.len() == 32,
{
    <sha2::Sha256 as sha2::Digest>::digest(bytes).to_vec()
}

/// Checks a downloaded archive against the release's SHASUMS256 text: the
/// listing is parsed, and the archive's SHA-256 digest must match the entry
/// for its filename.
pub fn verify_archive(bytes: &[u8], filename: &str, shasums: &str) -> (r: Result<(), String>)
    ensures
        match r {
            Ok(()) => check_shasums_spec(shasum_entries(split_nl(shasums@)), filename@, sha256_of(bytes@))
                == Ok::<(), Seq<char>>(()),
            Err(e) => check_shasums_spec(shasum_entries(split_nl(shasums@)), filename@, sha256_of(bytes@))
                == Err::<(), Seq<char>>(e@),
        },
{
    let entries = parse_shasums(shasums);
    let digest = sha256_digest(bytes);
    check_shasums(&entries, filename, &digest)
}

/// A listing's last entry for a file decides it: whatever earlier lines
/// said, appending a line for the file makes its hash the one looked up.
pub proof fn lemma_later_listing_wins(entries: Seq<(Seq<char>, Seq<char>)>, name: Seq<char>, hash: Seq<char>)
    ensures
        shasum_of(entries.push((name, hash)), name) == Some(hash),
{
}

/* ------------------------------- catalog ------------------------------- */

/// The major of a version, as `semver::Version::parse` reads it (`None`
/// when it is not a semantic version).
pub uninterp spec fn semver_major(text: Seq<char>) -> Option<nat>;

/// Parses a version with `semver::Version::parse` and reads its major.
/// Trusted: the result is a function of the text ([`semver_major`]).
#[verifier::external_body]
fn version_major(text: &str) -> (r: Option<u64>)
    ensures
        match r {
            Some(m) => semver_major(text@) == Some(m as nat),
            None => semver_major(text@).is_none(),
        },
{
    semver::Version::parse(text).ok().map(|v| v.major)
}

/// Whether one semantic version precedes another in `semver`'s order.
pub uninterp spec fn semver_less(a: Seq<char>, b: Seq<char>) -> bool;

/// Compares two parsable versions with `semver::Version`'s `<`. Trusted:
/// the result is a function of the two texts ([`semver_less`]).
#[verifier::external_body]
fn version_less(a: &str, b: &str) -> (r: bool)
    requires
        semver_major(a@).is_some(),
        semver_major(b@).is_some(),
    ensures
        r == semver_less(a@, b@),
{
    semver::Version::parse(a).unwrap() < semver::Version::parse(b).unwrap()
}

/// Only lines a user today would install: every LTS line down to this
/// major, plus the two newest majors.
pub const MIN_MAJOR: u64 = 16;

/// One major line: the newest release seen, and its LTS codename.
pub struct LineView {
    pub major: nat,
    pub version: Seq<char>,
    pub codename: Option<Seq<char>>,
}

pub open spec fn v_count(s: Seq<char>) -> nat
    decreases s.len(),
{
    if s.len() > 0 && s[0] == 'v' {
        1 + v_count(s.drop_first())
    } else {
        0
    }
}

/// `s.trim_start_matches('v')`.
pub open spec fn strip_vs(s: Seq<char>) -> Seq<char> {
    s.skip(v_count(s) as int)
}

/// The index of the line for `major`, from `k` on.
pub open spec fn line_index(lines: Seq<LineView>, major: nat, k: int) -> Option<int>
    decreases lines.len() - k,
{
    if k < 0 || k >= lines.len() {
        None
    } else if lines[k].major == major {
        Some(k)
    } else {
        line_index(lines, major, k + 1)
    }
}

/// One line per major over the first `n` index entries: the newest
/// release of each line, with that release's codename.
pub open spec fn fold_lines(entries: Seq<(Seq<char>, Option<Seq<char>>)>, n: int) -> Seq<LineView>
    decreases n,
{
    if n <= 0 || n > entries.len() {
        Seq::empty()
    } else {
        let acc = fold_lines(entries, n - 1);
        let v = strip_vs(entries[n - 1].0);
        let line = LineView { major: 0, version: v, codename: entries[n - 1].1 };
        match semver_major(v) {
            None => acc,
            Some(m) => match line_index(acc, m, 0) {
                Some(i) => if semver_less(acc[i].version, v) {
                    acc.update(i, LineView { major: m, ..line })
                } else {
                    acc
                },
                None => acc.push(LineView { major: m, ..line }),
            },
        }
    }
}

/// The lines at or above the floor, in order.
pub open spec fn above_floor(lines: Seq<LineView>) -> Seq<LineView>
    decreases lines.len(),
{
    if lines.len() == 0 {
        lines
    } else if lines.last().major >= MIN_MAJOR {
        above_floor(lines.drop_last()).push(lines.last())
    } else {
        above_floor(lines.drop_last())
    }
}

/// The position a line takes in a list sorted newest major first.
pub open spec fn desc_slot(sorted: Seq<LineView>, major: nat, k: int) -> int
    decreases sorted.len() - k,
{
    if k < 0 || k >= sorted.len() {
        sorted.len() as int
    } else if sorted[k].major < major {
        k
    } else {
        desc_slot(sorted, major, k + 1)
    }
}

/// The lines sorted newest major first (stably).
pub open spec fn sort_desc(lines: Seq<LineView>) -> Seq<LineView>
    decreases lines.len(),
{
    if lines.len() == 0 {
        lines
    } else {
        let s = sort_desc(lines.drop_last());
        s.insert(desc_slot(s, lines.last().major, 0), lines.last())
    }
}

/// The lines shown: an LTS line, or one of the two newest.
pub open spec fn shown(sorted: Seq<LineView>, k: int) -> Seq<LineView>
    decreases sorted.len() - k,
{
    if k < 0 || k >= sorted.len() {
        Seq::empty()
    } else if sorted[k].codename.is_some() || k < 2 {
        seq![sorted[k]] + shown(sorted, k + 1)
    } else {
        shown(sorted, k + 1)
    }
}

/// The catalog of the dist index: one entry per major at or above the
/// floor, newest first, LTS lines and the two newest majors only.
pub open spec fn catalog_spec(entries: Seq<(Seq<char>, Option<Seq<char>>)>) -> Seq<LineView> {
    shown(sort_desc(above_floor(fold_lines(entries, entries.len() as int))), 0)
}

pub open spec fn meta_view(m: NodeRuntimeMeta) -> LineView {
    LineView {
        major: m.major as nat,
        version: m.version@,
        codename: crate::sessions::codec::opt_view(m.codename),
    }
}

pub open spec fn index_view(v: Seq<(String, Option<String>)>) -> Seq<(Seq<char>, Option<Seq<char>>)> {
    v.map_values(|e: (String, Option<String>)| (e.0@, crate::sessions::codec::opt_view(e.1)))
}

/// A major line being collected.
struct Line {
    major: u64,
    version: String,
    codename: Option<String>,
}

spec fn line_ok(l: Line) -> bool {
    semver_major(l.version@) == Some(l.major as nat)
}

spec fn line_view(l: Line) -> LineView {
    LineView { major: l.major as nat, version: l.version@, codename: crate::sessions::codec::opt_view(l.codename) }
}

spec fn lines_view(v: Seq<Line>) -> Seq<LineView> {
    v.map_values(|l: Line| line_view(l))
}

proof fn lemma_lines_view_push(v: Seq<Line>, l: Line)
    ensures
        lines_view(v.push(l)) == lines_view(v).push(line_view(l)),
{
    assert(lines_view(v.push(l)) =~= lines_view(v).push(line_view(l)));
}

fn clone_opt(o: &Option<String>) -> (r: Option<String>)
    ensures
        crate::sessions::codec::opt_view(r) == crate::sessions::codec::opt_view(*o),
{
    match o {
        Some(s) => Some(s.clone()),
        None => None,
    }
}

fn clone_line(l: &Line) -> (r: Line)
    ensures
        line_view(r) == line_view(*l),
{
    Line { major: l.major, version: l.version.clone(), codename: clone_opt(&l.codename) }
}

fn strip_vs_exec(s: &[char]) -> (r: Vec<char>)
    ensures
        r@ == strip_vs(s@),
{
    let mut i: usize = 0;
    assert(s@.skip(0) =~= s@);
    while i < s.len() && s[i] == 'v'
        invariant
            i <= s.len(),
            v_count(s@) == i + v_count(s@.skip(i as int)),
        decreases s.len() - i,
    {
        assert(s@.skip(i as int).drop_first() =~= s@.skip(i + 1));
        i += 1;
    }
    let r = crate::text::slice_range(s, i, s.len());
    assert(r@ =~= s@.skip(i as int));
    r
}

fn line_index_exec(lines: &Vec<Line>, major: u64) -> (r: Option<usize>)
    ensures
        match r {
            Some(i) => line_index(lines_view(lines@), major as nat, 0) == Some(i as int) && i < lines@.len(),
            None => line_index(lines_view(lines@), major as nat, 0).is_none(),
        },
{
    let ghost lv = lines_view(lines@);
    let mut k: usize = 0;
    while k < lines.len()
        invariant
            k <= lines.len(),
            lv == lines_view(lines@),
            lv.len() == lines.len(),
            line_index(lv, major as nat, 0) == line_index(lv, major as nat, k as int),
        decreases lines.len() - k,
    {
        assert(lv[k as int] == line_view(lines@[k as int]));
        if lines[k].major == major {
            return Some(k);
        }
        k += 1;
    }
    None
}

/// Collapses the per-release dist index into the installable catalog: the
/// newest release of each major line at or above the floor, newest major
/// first, keeping LTS lines and the two newest majors.
pub fn group_catalog(entries: Vec<(String, Option<String>)>) -> (r: Vec<NodeRuntimeMeta>)
    ensures
        r@.map_values(|m: NodeRuntimeMeta| meta_view(m)) == catalog_spec(index_view(entries@)),
        forall|k: int| 0 <= k < r@.len() ==> (#[trigger] r@[k]).id@ == "node-"@ + dec_digits(r@[k].major as nat)
            && r@[k].lts == r@[k].codename.is_some(),
{
    let ghost iv = index_view(entries@);
    let mut lines: Vec<Line> = Vec::new();
    let mut n: usize = 0;
    while n < entries.len()
        invariant
            n <= entries.len(),
            iv == index_view(entries@),
            iv.len() == entries.len(),
            lines_view(lines@) == fold_lines(iv, n as int),
            forall|k: int| 0 <= k < lines@.len() ==> line_ok(#[trigger] lines@[k]),
        decreases entries.len() - n,
    {
        assert(iv[n as int] == (entries@[n as int].0@, crate::sessions::codec::opt_view(entries@[n as int].1)));
        let v = strip_vs_exec(&chars_of(entries[n].0.as_str()));
        let vs = string_of(&v);
        match version_major(vs.as_str()) {
            None => {},
            Some(m) => {
                let line = Line { major: m, version: vs.clone(), codename: clone_opt(&entries[n].1) };
                assert(line_ok(line));
                match line_index_exec(&lines, m) {
                    Some(i) => {
                        if version_less(lines[i].version.as_str(), vs.as_str()) {
                            let ghost before = lines@;
                            lines.set(i, line);
                            assert(lines_view(lines@) =~= lines_view(before).update(i as int, line_view(line)));
                            assert forall|k: int| 0 <= k < lines@.len() implies line_ok(#[trigger] lines@[k]) by {
                                if k != i {
                                    assert(lines@[k] == before[k]);
                                }
                            }
                        }
                    },
                    None => {
                        let ghost before = lines@;
                        lines.push(line);
                        proof {
                            lemma_lines_view_push(before, line);
                        }
                        assert forall|k: int| 0 <= k < lines@.len() implies line_ok(#[trigger] lines@[k]) by {
                            if k < before.len() {
                                assert(lines@[k] == before[k]);
                            }
                        }
                    },
                }
            },
        }
        n += 1;
    }
    let ghost folded = lines_view(lines@);
    // Keep the lines at or above the floor.
    let mut kept: Vec<Line> = Vec::new();
    let mut i: usize = 0;
    while i < lines.len()
        invariant
            i <= lines.len(),
            folded == lines_view(lines@),
            folded.len() == lines.len(),
            lines_view(kept@) == above_floor(folded.take(i as int)),
        decreases lines.len() - i,
    {
        assert(folded.take(i + 1).drop_last() =~= folded.take(i as int));
        assert(folded[i as int] == line_view(lines@[i as int]));
        if lines[i].major >= MIN_MAJOR {
            let ghost before = kept@;
            let l = clone_line(&lines[i]);
            kept.push(l);
            proof {
                lemma_lines_view_push(before, l);
            }
        }
        i += 1;
    }
    assert(folded.take(i as int) =~= folded);
    let ghost above = lines_view(kept@);
    // Sort newest major first, stably.
    let mut sorted: Vec<Line> = Vec::new();
    let mut j: usize = 0;
    assert(above.take(0) =~= Seq::<LineView>::empty());
    while j < kept.len()
        invariant
            j <= kept.len(),
            above == lines_view(kept@),
            above.len() == kept.len(),
            lines_view(sorted@) == sort_desc(above.take(j as int)),
        decreases kept.len() - j,
    {
        assert(above.take(j + 1).drop_last() =~= above.take(j as int));
        assert(above[j as int] == line_view(kept@[j as int]));
        let ghost sv = lines_view(sorted@);
        let m = kept[j].major;
        let mut p: usize = 0;
        while p < sorted.len() && sorted[p].major >= m
            invariant
                p <= sorted.len(),
                sv == lines_view(sorted@),
                sv.len() == sorted.len(),
                desc_slot(sv, m as nat, 0) == desc_slot(sv, m as nat, p as int),
            decreases sorted.len() - p,
        {
            assert(sv[p as int] == line_view(sorted@[p as int]));
            p += 1;
        }
        if p < sorted.len() {
            assert(sv[p as int] == line_view(sorted@[p as int]));
        }
        let l = clone_line(&kept[j]);
        let ghost before = sorted@;
        sorted.insert(p, l);
        assert(lines_view(sorted@) =~= lines_view(before).insert(p as int, line_view(l)));
        j += 1;
    }
    assert(above.take(j as int) =~= above);
    let ghost sd = lines_view(sorted@);
    // Keep LTS lines and the two newest majors.
    let mut out: Vec<NodeRuntimeMeta> = Vec::new();
    let mut k: usize = 0;
    assert(sd.take(0) =~= Seq::<LineView>::empty());
    while k < sorted.len()
        invariant
            k <= sorted.len(),
            sd == lines_view(sorted@),
            sd.len() == sorted.len(),
            shown(sd, 0) == out@.map_values(|m: NodeRuntimeMeta| meta_view(m)) + shown(sd, k as int),
            forall|q: int| 0 <= q < out@.len() ==> (#[trigger] out@[q]).id@ == "node-"@ + dec_digits(out@[q].major as nat)
                && out@[q].lts == out@[q].codename.is_some(),
        decreases sorted.len() - k,
    {
        assert(sd[k as int] == line_view(sorted@[k as int]));
        let l = &sorted[k];
        if l.codename.is_some() || k < 2 {
            let id = string_of(&concat_chars(&chars_of("node-"), &decimal_chars(l.major)));
            let lts = l.codename.is_some();
            let meta = NodeRuntimeMeta { id, major: l.major, version: l.version.clone(), codename: clone_opt(&l.codename), lts };
            assert(meta.id@ == "node-"@ + dec_digits(meta.major as nat));
            assert(crate::sessions::codec::opt_view(meta.codename) == crate::sessions::codec::opt_view(l.codename));
            assert(meta.lts == meta.codename.is_some());
            let ghost before = out@;
            out.push(meta);
            assert forall|q: int| 0 <= q < out@.len() implies (#[trigger] out@[q]).id@ == "node-"@ + dec_digits(
                out@[q].major as nat,
            ) && out@[q].lts == out@[q].codename.is_some() by {
                if q < before.len() {
                    assert(out@[q] == before[q]);
                } else {
                    assert(out@[q] == meta);
                }
            }
            assert(out@.map_values(|m: NodeRuntimeMeta| meta_view(m)) =~= before.map_values(|m: NodeRuntimeMeta| meta_view(m)).push(sd[k as int]));
            assert(out@.map_values(|m: NodeRuntimeMeta| meta_view(m)) + shown(sd, k + 1) =~= before.map_values(|m: NodeRuntimeMeta| meta_view(m)) + shown(sd, k as int));
        }
        k += 1;
    }
    assert(out@.map_values(|m: NodeRuntimeMeta| meta_view(m)) + shown(sd, k as int) =~= out@.map_values(|m: NodeRuntimeMeta| meta_view(m)));
    out
}

/* ------------------------------ platform ------------------------------ */

/// The dist archive suffix for a host (`std::env::consts` OS and arch):
/// Node publishes `.zip` only for Windows, `.tar.gz` elsewhere.
pub open spec fn platform_spec(os: Seq<char>, arch: Seq<char>) -> Result<Seq<char>, Seq<char>> {
    if os == "windows"@ && arch == "x86_64"@ {
        Ok("win-x64.zip"@)
    } else if os == "windows"@ && arch == "aarch64"@ {
        Ok("win-arm64.zip"@)
    } else if os == "macos"@ && arch == "x86_64"@ {
        Ok("darwin-x64.tar.gz"@)
    } else if os == "macos"@ && arch == "aarch64"@ {
        Ok("darwin-arm64.tar.gz"@)
    } else if os == "linux"@ && arch == "x86_64"@ {
        Ok("linux-x64.tar.gz"@)
    } else if os == "linux"@ && arch == "aarch64"@ {
        Ok("linux-arm64.tar.gz"@)
    } else {
        Err("暂不支持的平台: "@ + os + "-"@ + arch)
    }
}

/// Node's name for an operating system in its dist file names.
pub open spec fn dist_os(os: Seq<char>) -> Option<Seq<char>> {
    if os == "windows"@ {
        Some("win"@)
    } else if os == "macos"@ {
        Some("darwin"@)
    } else if os == "linux"@ {
        Some("linux"@)
    } else {
        None
    }
}

/// Node's name for a CPU architecture in its dist file names.
pub open spec fn dist_arch(arch: Seq<char>) -> Option<Seq<char>> {
    if arch == "x86_64"@ {
        Some("x64"@)
    } else if arch == "aarch64"@ {
        Some("arm64"@)
    } else {
        None
    }
}

/// The archive picked for a host names that host's own OS and its own
/// architecture, each by its own input, and is a `.zip` exactly on
/// Windows: `<os>-<arch>.zip` or `<os>-<arch>.tar.gz`. Every supported
/// OS/architecture pair has one, and any other host is refused.
pub proof fn lemma_platform_names_the_host(os: Seq<char>, arch: Seq<char>)
    ensures
        (dist_os(os) is Some && dist_arch(arch) is Some) <==> platform_spec(os, arch) is Ok,
        platform_spec(os, arch) is Ok ==> platform_spec(os, arch)->Ok_0 == dist_os(os)->0 + "-"@ + dist_arch(arch)->0
            + (if os == "windows"@ {
            ".zip"@
        } else {
            ".tar.gz"@
        }),
{
    reveal_strlit("windows");
    reveal_strlit("macos");
    reveal_strlit("linux");
    reveal_strlit("x86_64");
    reveal_strlit("aarch64");
    reveal_strlit("win");
    reveal_strlit("darwin");
    reveal_strlit("x64");
    reveal_strlit("arm64");
    reveal_strlit("-");
    reveal_strlit(".zip");
    reveal_strlit(".tar.gz");
    reveal_strlit("win-x64.zip");
    reveal_strlit("win-arm64.zip");
    reveal_strlit("darwin-x64.tar.gz");
    reveal_strlit("darwin-arm64.tar.gz");
    reveal_strlit("linux-x64.tar.gz");
    reveal_strlit("linux-arm64.tar.gz");
    assert("win-x64.zip"@ =~= "win"@ + "-"@ + "x64"@ + ".zip"@);
    assert("win-arm64.zip"@ =~= "win"@ + "-"@ + "arm64"@ + ".zip"@);
    assert("darwin-x64.tar.gz"@ =~= "darwin"@ + "-"@ + "x64"@ + ".tar.gz"@);
    assert("darwin-arm64.tar.gz"@ =~= "darwin"@ + "-"@ + "arm64"@ + ".tar.gz"@);
    assert("linux-x64.tar.gz"@ =~= "linux"@ + "-"@ + "x64"@ + ".tar.gz"@);
    assert("linux-arm64.tar.gz"@ =~= "linux"@ + "-"@ + "arm64"@ + ".tar.gz"@);
}

fn same(a: &str, b: &str) -> (r: bool)
    ensures
        r == (a@ == b@),
{
    crate::text::chars_eq(&chars_of(a), &chars_of(b))
}

/// The dist archive layout for a host.
pub fn dist_platform(os: &str, arch: &str) -> (r: Result<String, String>)
    ensures
        match r {
            Ok(p) => platform_spec(os@, arch@) == Ok::<Seq<char>, Seq<char>>(p@),
            Err(e) => platform_spec(os@, arch@) == Err::<Seq<char>, Seq<char>>(e@),
        },
{
    if same(os, "windows") && same(arch, "x86_64") {
        Ok("win-x64.zip".to_owned())
    } else if same(os, "windows") && same(arch, "aarch64") {
        Ok("win-arm64.zip".to_owned())
    } else if same(os, "macos") && same(arch, "x86_64") {
        Ok("darwin-x64.tar.gz".to_owned())
    } else if same(os, "macos") && same(arch, "aarch64") {
        Ok("darwin-arm64.tar.gz".to_owned())
    } else if same(os, "linux") && same(arch, "x86_64") {
        Ok("linux-x64.tar.gz".to_owned())
    } else if same(os, "linux") && same(arch, "aarch64") {
        Ok("linux-arm64.tar.gz".to_owned())
    } else {
        let a = concat_chars(&concat_chars(&chars_of("暂不支持的平台: "), &chars_of(os)), &chars_of("-"));
        Err(string_of(&concat_chars(&a, &chars_of(arch))))
    }
}

/* ---------------------------- install health ---------------------------- */

/// The check a freshly unpacked runtime must pass before it is placed: its
/// `node` binary exists, runs, exits successfully and reports exactly
/// `v<version>`.
pub open spec fn runtime_health_spec(version: Seq<char>, node_exists: bool, probe: crate::verify::NodeProbe) -> Result<(), Seq<char>> {
    if !node_exists {
        Err("node 可执行文件缺失"@)
    } else {
        match probe {
            crate::verify::NodeProbe::Failed(e) => Err("无法运行 node --version: "@ + e@),
            crate::verify::NodeProbe::Ran { success, stdout, code } => if !success {
                Err("node --version 退出码 "@ + crate::verify::code_text(code))
            } else if trim(stdout@) == seq!['v'] + version {
                Ok(())
            } else {
                Err("node --version 返回 "@ + trim(stdout@) + "，期望 v"@ + version)
            },
        }
    }
}

/// Decides the health check from whether the binary exists and what
/// running `node --version` gave.
pub fn runtime_health(version: &str, node_exists: bool, probe: crate::verify::NodeProbe) -> (r: Result<(), String>)
    ensures
        match r {
            Ok(()) => runtime_health_spec(version@, node_exists, probe) == Ok::<(), Seq<char>>(()),
            Err(e) => runtime_health_spec(version@, node_exists, probe) == Err::<(), Seq<char>>(e@),
        },
{
    if !node_exists {
        return Err("node 可执行文件缺失".to_owned());
    }
    match probe {
        crate::verify::NodeProbe::Failed(e) => Err(string_of(&concat_chars(&chars_of("无法运行 node --version: "), &chars_of(e.as_str())))),
        crate::verify::NodeProbe::Ran { success, stdout, code } => {
            if !success {
                return Err(string_of(&concat_chars(&chars_of("node --version 退出码 "), &crate::verify::code_chars(code))));
            }
            let reported = trim_exec(&chars_of(stdout.as_str()));
            let v = vec!['v'];
            let want = concat_chars(&v, &chars_of(version));
            assert(want@ =~= seq!['v'] + version@);
            if crate::text::chars_eq(&reported, &want) {
                assert(reported@ == trim(stdout@));
                Ok(())
            } else {
                let a = concat_chars(&concat_chars(&chars_of("node --version 返回 "), &reported), &chars_of("，期望 v"));
                Err(string_of(&concat_chars(&a, &chars_of(version))))
            }
        },
    }
}

/* --------------------------- installed runtimes --------------------------- */

/// An installed runtime as plain values: directory name, install time,
/// version.
pub open spec fn installed_view(i: InstalledRuntimeInfo) -> (Seq<char>, Seq<char>, Seq<char>) {
    (i.name@, i.installed_at@, i.version@)
}

pub open spec fn installed_views(v: Seq<InstalledRuntimeInfo>) -> Seq<(Seq<char>, Seq<char>, Seq<char>)> {
    v.map_values(|i: InstalledRuntimeInfo| installed_view(i))
}

/// The runtimes a listing shows: names starting with `.` are staging
/// directories or OS files, never runtimes.
pub open spec fn listed(v: Seq<(Seq<char>, Seq<char>, Seq<char>)>) -> Seq<(Seq<char>, Seq<char>, Seq<char>)>
    decreases v.len(),
{
    if v.len() == 0 {
        v
    } else if v.last().0.len() > 0 && v.last().0[0] == '.' {
        listed(v.drop_last())
    } else {
        listed(v.drop_last()).push(v.last())
    }
}

/// Ascending by name.
pub open spec fn by_name(v: Seq<(Seq<char>, Seq<char>, Seq<char>)>) -> bool {
    forall|i: int, j: int| 0 <= i < j < v.len() ==> !crate::text::lex_lt(#[trigger] v[j].0, #[trigger] v[i].0)
}

/// The installed-runtime listing from the runtime directories that hold a
/// readable install marker: dot-named entries dropped, sorted by name.
pub fn installed_runtimes(found: Vec<InstalledRuntimeInfo>) -> (r: Vec<InstalledRuntimeInfo>)
    ensures
        by_name(installed_views(r@)),
        installed_views(r@).to_multiset() == listed(installed_views(found@)).to_multiset(),
{
    broadcast use vstd::seq_lib::group_to_multiset_ensures;

    let ghost fv = installed_views(found@);
    let mut out: Vec<InstalledRuntimeInfo> = Vec::new();
    let mut rest = found;
    let mut taken: Vec<InstalledRuntimeInfo> = Vec::new();
    assert(installed_views(out@) =~= Seq::<(Seq<char>, Seq<char>, Seq<char>)>::empty());
    assert(fv.take(0) =~= Seq::<(Seq<char>, Seq<char>, Seq<char>)>::empty());
    let mut k: usize = 0;
    let n = rest.len();
    while k < n
        invariant
            k <= n,
            n == fv.len(),
            rest@.len() == n,
            installed_views(rest@) == fv,
            by_name(installed_views(out@)),
            installed_views(out@).to_multiset() == listed(fv.take(k as int)).to_multiset(),
        decreases n - k,
    {
        assert(fv.take(k + 1).drop_last() =~= fv.take(k as int));
        assert(fv.take(k + 1).last() == fv[k as int]);
        let x = InstalledRuntimeInfo {
            name: rest[k].name.clone(),
            installed_at: rest[k].installed_at.clone(),
            version: rest[k].version.clone(),
        };
        assert(installed_view(x) == fv[k as int]);
        let nc = chars_of(x.name.as_str());
        if nc.len() > 0 && nc[0] == '.' {
            assert(listed(fv.take(k + 1)) == listed(fv.take(k as int)));
        } else {
            assert(listed(fv.take(k + 1)) == listed(fv.take(k as int)).push(installed_view(x)));
            let ghost ov = installed_views(out@);
            let mut p: usize = 0;
            while p < out.len() && !crate::text::lex_lt_exec(&nc, &chars_of(out[p].name.as_str()))
                invariant
                    p <= out.len(),
                    ov == installed_views(out@),
                    ov.len() == out.len(),
                    nc@ == x.name@,
                    forall|i: int| 0 <= i < p ==> !crate::text::lex_lt(x.name@, #[trigger] ov[i].0),
                decreases out.len() - p,
            {
                assert(ov[p as int] == installed_view(out@[p as int]));
                p += 1;
            }
            proof {
                if p < out.len() {
                    assert(ov[p as int] == installed_view(out@[p as int]));
                }
            }
            let ghost xv = installed_view(x);
            out.insert(p, x);
            let ghost nv = installed_views(out@);
            assert(nv =~= ov.insert(p as int, xv));
            proof {
                vstd::seq_lib::to_multiset_insert(ov, p as int, xv);
                vstd::seq_lib::to_multiset_build(listed(fv.take(k as int)), xv);
                assert forall|i: int, j: int| 0 <= i < j < nv.len() implies !crate::text::lex_lt(#[trigger] nv[j].0, #[trigger] nv[i].0) by {
                    if i < p && j == p {
                        crate::text::lemma_lex_order(xv.0, ov[i].0, ov[i].0);
                        if xv.0 != ov[i].0 {
                            crate::text::lemma_lex_order(ov[i].0, xv.0, xv.0);
                        }
                    } else if i == p && j > p {
                        crate::text::lemma_lex_order(ov[j - 1].0, xv.0, ov[p as int].0);
                        crate::text::lemma_lex_order(ov[j - 1].0, ov[p as int].0, xv.0);
                        if j - 1 > p {
                            crate::text::lemma_lex_order(ov[j - 1].0, ov[p as int].0, ov[j - 1].0);
                            crate::text::lemma_lex_order(ov[p as int].0, ov[j - 1].0, ov[j - 1].0);
                            crate::text::lemma_lex_order(ov[j - 1].0, ov[p as int].0, xv.0);
                            if ov[p as int].0 != ov[j - 1].0 {
                                crate::text::lemma_lex_order(ov[p as int].0, ov[j - 1].0, xv.0);
                                crate::text::lemma_lex_order(ov[j - 1].0, xv.0, ov[p as int].0);
                            }
                        }
                    } else if i < p && j > p {
                        assert(nv[i] == ov[i] && nv[j] == ov[j - 1]);
                    } else if j < p {
                        assert(nv[i] == ov[i] && nv[j] == ov[j]);
                    } else {
                        assert(nv[i] == ov[i - 1] && nv[j] == ov[j - 1]);
                    }
                }
            }
        }
        k += 1;
    }
    assert(fv.take(k as int) =~= fv);
    out
}

} // verus!
