//! The plugin market's rules: catalog sources and their order, the plugin
//! identifiers that may reach `node_modules` paths, where a source's
//! registry id comes from, and the trust level install-time facts earn.

use vstd::prelude::*;
use crate::text::{lex_lt, lex_lt_exec, chars_of, concat_chars, ends_with, ends_with_exec, lemma_views_push, starts_with, starts_with_exec, string_of, views};

verus! {

/* ------------------------------ wire types ------------------------------ */

/// Where a plugin comes from, tagged like the frontend's union.
#[derive(Debug)]
pub enum PluginSourceWire {
    Npm { pkg: String },
    Tarball { url: String, integrity: Option<String> },
    Github { repo: String },
}

/// One catalog entry.
#[derive(Debug)]
pub struct PluginMeta {
    pub id: String,
    pub name: String,
    pub author: String,
    pub category: String,
    pub summary: String,
    pub summary_en: Option<String>,
    pub repo_url: Option<String>,
    pub screenshots: Vec<String>,
    pub source: PluginSourceWire,
    pub official: bool,
    pub downloads: u64,
    pub stars: Option<u64>,
    pub added_at: Option<String>,
    pub releases: Vec<PluginReleaseMeta>,
}

/// One release of a plugin.
#[derive(Debug)]
pub struct PluginReleaseMeta {
    pub version: String,
    pub published_at: String,
    pub source: Option<PluginSourceWire>,
    pub size: Option<u64>,
}

/// What an install produced.
#[derive(Debug)]
pub struct PluginInstallOutcome {
    pub version: String,
    /// The id written into `cordis.patch.yml`.
    pub registry_id: String,
    /// verified | pinned | unverified.
    pub trust: String,
}

/// The newest version an update probe found.
#[derive(Debug)]
pub struct PluginVersionInfo {
    pub version: Option<String>,
}

/// One catalog reply with the provenance of this fetch.
#[derive(Debug)]
pub struct PluginCatalogWire {
    /// The base URL that served the catalog, or `cache` for an offline replay.
    pub served_from: String,
    /// The configured source failed and a fallback served this.
    pub used_fallback: bool,
    /// Every online source failed and the on-disk copy was replayed.
    pub from_cache: bool,
    /// The registry's own `updated` stamp, when present.
    pub updated: Option<String>,
    pub plugins: Vec<PluginMeta>,
}

/// The kind tag of a source.
pub fn source_kind(source: &PluginSourceWire) -> (r: &'static str)
    ensures
        r@ == match source {
            PluginSourceWire::Npm { .. } => "npm"@,
            PluginSourceWire::Tarball { .. } => "tarball"@,
            PluginSourceWire::Github { .. } => "github"@,
        },
{
    match source {
        PluginSourceWire::Npm { .. } => "npm",
        PluginSourceWire::Tarball { .. } => "tarball",
        PluginSourceWire::Github { .. } => "github",
    }
}

/* ------------------------------- names ------------------------------- */

pub open spec fn ascii_alnum(c: char) -> bool {
    ('a' <= c && c <= 'z') || ('A' <= c && c <= 'Z') || ('0' <= c && c <= '9')
}

/// A cache file name: ASCII letters, digits, `.`, `-`, `_` kept, anything
/// else replaced by `_`.
pub open spec fn cache_name(s: Seq<char>) -> Seq<char> {
    s.map_values(|c: char| if ascii_alnum(c) || c == '.' || c == '-' || c == '_' {
        c
    } else {
        '_'
    })
}

/// Makes a name safe as a cache file name.
pub fn sanitize_cache_name(name: &str) -> (r: String)
    ensures
        r@ == cache_name(name@),
{
    let c = chars_of(name);
    let mut out: Vec<char> = Vec::new();
    let mut i: usize = 0;
    while i < c.len()
        invariant
            i <= c.len(),
            out@ == cache_name(c@.take(i as int)),
        decreases c.len() - i,
    {
        let x = c[i];
        let keep = ('a' <= x && x <= 'z') || ('A' <= x && x <= 'Z') || ('0' <= x && x <= '9') || x == '.' || x
            == '-' || x == '_';
        out.push(if keep {
            x
        } else {
            '_'
        });
        assert(cache_name(c@.take(i + 1)) =~= cache_name(c@.take(i as int)).push(if keep {
            x
        } else {
            '_'
        }));
        i += 1;
    }
    assert(c@.take(i as int) =~= c@);
    string_of(&out)
}

/// `s.split(sep)`, built from the left.
pub open spec fn split_on(s: Seq<char>, sep: char) -> Seq<Seq<char>>
    decreases s.len(),
{
    if s.len() == 0 {
        seq![Seq::<char>::empty()]
    } else {
        let p = split_on(s.drop_last(), sep);
        if s.last() == sep {
            p.push(Seq::<char>::empty())
        } else {
            p.update(p.len() - 1, p.last().push(s.last()))
        }
    }
}

proof fn lemma_split_on_len(s: Seq<char>, sep: char)
    ensures
        split_on(s, sep).len() >= 1,
    decreases s.len(),
{
    if s.len() > 0 {
        lemma_split_on_len(s.drop_last(), sep);
    }
}

pub open spec fn pkg_char(c: char) -> bool {
    ascii_alnum(c) || c == '@' || c == '/' || c == '.' || c == '-' || c == '_'
}

/// A plugin id that may reach `node_modules/<id>`: non-empty, at most 128
/// characters of ASCII letters, digits, `@`, `/`, `.`, `-` and `_`, and no
/// `/`-separated segment that is empty, `.` or `..`.
pub open spec fn valid_pkg_path(name: Seq<char>) -> bool {
    &&& name.len() > 0
    &&& name.len() <= 128
    &&& forall|i: int| 0 <= i < name.len() ==> pkg_char(#[trigger] name[i])
    &&& forall|k: int|
        0 <= k < split_on(name, '/').len() ==> {
            let seg = #[trigger] split_on(name, '/')[k];
            seg.len() > 0 && seg != seq!['.'] && seg != seq!['.', '.']
        }
}

/// Splits on a character.
pub fn split_on_exec(s: &[char], sep: char) -> (r: Vec<Vec<char>>)
    ensures
        crate::sessions::codec::cviews(r@) == split_on(s@, sep),
{
    let mut pieces: Vec<Vec<char>> = Vec::new();
    let mut cur: Vec<char> = Vec::new();
    let mut i: usize = 0;
    assert(s@.take(0) =~= Seq::<char>::empty());
    assert(crate::sessions::codec::cviews(pieces@).push(cur@) =~= split_on(s@.take(0), sep));
    while i < s.len()
        invariant
            i <= s.len(),
            crate::sessions::codec::cviews(pieces@).push(cur@) == split_on(s@.take(i as int), sep),
        decreases s.len() - i,
    {
        assert(s@.take(i + 1).drop_last() =~= s@.take(i as int));
        let ghost before = crate::sessions::codec::cviews(pieces@);
        if s[i] == sep {
            let done = cur;
            pieces.push(done);
            cur = Vec::new();
            assert(crate::sessions::codec::cviews(pieces@) =~= before.push(done@));
        } else {
            let ghost old_cur = cur@;
            cur.push(s[i]);
            assert(crate::sessions::codec::cviews(pieces@).push(cur@) =~= before.push(old_cur).update(
                before.len() as int,
                old_cur.push(s@[i as int]),
            ));
        }
        i += 1;
    }
    assert(s@.take(i as int) =~= s@);
    pieces.push(cur);
    pieces
}

/// Accepts a plugin id only when it is a plain (optionally scoped) package
/// path; nothing is normalized.
pub fn sanitize_pkg_path(name: &str) -> (r: Result<String, String>)
    ensures
        match r {
            Ok(s) => valid_pkg_path(name@) && s@ == name@,
            Err(e) => !valid_pkg_path(name@) && e@ == "非法的插件标识: "@ + name@,
        },
{
    let c = chars_of(name);
    let mut ok = c.len() > 0 && c.len() <= 128;
    let mut i: usize = 0;
    while i < c.len()
        invariant
            i <= c.len(),
            ok == (c@.len() > 0 && c@.len() <= 128 && forall|j: int| 0 <= j < i ==> pkg_char(#[trigger] c@[j])),
        decreases c.len() - i,
    {
        let x = c[i];
        let good = ('a' <= x && x <= 'z') || ('A' <= x && x <= 'Z') || ('0' <= x && x <= '9') || x == '@' || x
            == '/' || x == '.' || x == '-' || x == '_';
        if !good {
            ok = false;
        }
        i += 1;
    }
    let segs = split_on_exec(&c, '/');
    let ghost sv = crate::sessions::codec::cviews(segs@);
    let dot = vec!['.'];
    let dots = vec!['.', '.'];
    assert(dot@ =~= seq!['.']);
    assert(dots@ =~= seq!['.', '.']);
    let mut k: usize = 0;
    let mut segs_ok = true;
    while k < segs.len()
        invariant
            k <= segs.len(),
            sv == crate::sessions::codec::cviews(segs@),
            sv.len() == segs.len(),
            dot@ == seq!['.'],
            dots@ == seq!['.', '.'],
            segs_ok == forall|j: int| 0 <= j < k ==> {
                let seg = #[trigger] sv[j];
                seg.len() > 0 && seg != seq!['.'] && seg != seq!['.', '.']
            },
        decreases segs.len() - k,
    {
        assert(sv[k as int] == segs@[k as int]@);
        let seg = &segs[k];
        if seg.len() == 0 || crate::text::chars_eq(seg, &dot) || crate::text::chars_eq(seg, &dots) {
            segs_ok = false;
        }
        k += 1;
    }
    if ok && segs_ok {
        Ok(name.to_owned())
    } else {
        Err(string_of(&concat_chars(&chars_of("非法的插件标识: "), &c)))
    }
}

/* ------------------------------- sources ------------------------------- */

/// The catalog sources, tried in order after the configured one.
pub open spec fn registry_fallbacks() -> Seq<Seq<char>> {
    seq!["https://awesome-dsh-plugin.com"@, "https://awesome-dsh-plugin.github.io/awesome-dsh-plugin"@, "https://dsh-ai.org"@]
}

/// The fallbacks, from index `k` on, that are not the configured source.
pub open spec fn other_fallbacks(preferred: Seq<char>, k: int) -> Seq<Seq<char>>
    decreases registry_fallbacks().len() - k,
{
    if k < 0 || k >= registry_fallbacks().len() {
        Seq::empty()
    } else if registry_fallbacks()[k] == preferred {
        other_fallbacks(preferred, k + 1)
    } else {
        seq![registry_fallbacks()[k]] + other_fallbacks(preferred, k + 1)
    }
}

/// The fetch order: the configured source first (when there is one), then
/// every fallback that is not it.
pub open spec fn candidate_bases_spec(preferred: Seq<char>) -> Seq<Seq<char>> {
    (if preferred.len() > 0 {
        seq![preferred]
    } else {
        Seq::empty()
    }) + other_fallbacks(preferred, 0)
}

/// The order catalog sources are fetched in for a configured base.
pub fn candidate_bases(preferred: &str) -> (r: Vec<String>)
    ensures
        views(r@) == candidate_bases_spec(preferred@),
{
    let mut bases: Vec<String> = Vec::new();
    let p = preferred.to_owned();
    if !preferred.is_empty() {
        bases.push(p.clone());
    }
    assert(views(bases@) =~= (if preferred@.len() > 0 {
        seq![preferred@]
    } else {
        Seq::empty()
    }));
    let fallbacks = [
        "https://awesome-dsh-plugin.com",
        "https://awesome-dsh-plugin.github.io/awesome-dsh-plugin",
        "https://dsh-ai.org",
    ];
    let ghost head = views(bases@);
    let mut k: usize = 0;
    while k < 3
        invariant
            k <= 3,
            fallbacks@.map_values(|f: &str| f@) == registry_fallbacks(),
            p@ == preferred@,
            head == (if preferred@.len() > 0 {
                seq![preferred@]
            } else {
                Seq::empty()
            }),
            candidate_bases_spec(preferred@) == views(bases@) + other_fallbacks(preferred@, k as int),
        decreases 3 - k,
    {
        assert(fallbacks@.map_values(|f: &str| f@)[k as int] == fallbacks@[k as int]@);
        let f = fallbacks[k].to_owned();
        if f != p {
            let ghost before = bases@;
            bases.push(f);
            proof {
                lemma_views_push(before, f);
            }
            assert(views(bases@) + other_fallbacks(preferred@, k + 1) =~= views(before) + other_fallbacks(
                preferred@,
                k as int,
            ));
        }
        k += 1;
    }
    assert(views(bases@) + other_fallbacks(preferred@, 3) =~= views(bases@));
    bases
}

/// The configured source leads and never appears twice: the fallbacks
/// that follow it all differ from it.
pub proof fn lemma_candidates_lead_with_the_preferred(preferred: Seq<char>)
    ensures
        preferred.len() > 0 ==> candidate_bases_spec(preferred)[0] == preferred,
        forall|j: int|
            0 <= j < other_fallbacks(preferred, 0).len() ==> #[trigger] other_fallbacks(preferred, 0)[j]
                != preferred,
{
    lemma_other_fallbacks(preferred, 0);
}

proof fn lemma_other_fallbacks(preferred: Seq<char>, k: int)
    ensures
        forall|j: int|
            0 <= j < other_fallbacks(preferred, k).len() ==> #[trigger] other_fallbacks(preferred, k)[j]
                != preferred,
    decreases registry_fallbacks().len() - k,
{
    if 0 <= k < registry_fallbacks().len() {
        lemma_other_fallbacks(preferred, k + 1);
        if registry_fallbacks()[k] != preferred {
            let rest = other_fallbacks(preferred, k + 1);
            assert forall|j: int| 0 <= j < other_fallbacks(preferred, k).len() implies #[trigger] other_fallbacks(
                preferred,
                k,
            )[j] != preferred by {
                if j > 0 {
                    assert(other_fallbacks(preferred, k)[j] == rest[j - 1]);
                }
            }
        }
    }
}

/* --------------------------------- trust --------------------------------- */

/// What resolving a source produced.
#[derive(Debug)]
pub struct ResolvedSource {
    pub url: String,
    pub integrity: Option<String>,
    pub version: String,
    /// The commit a GitHub source was pinned to, when resolution succeeded.
    pub commit: Option<String>,
}

/// Trust from install-time facts only: an npm release with a registry
/// integrity is verified; a tarball with a declared checksum, or a GitHub
/// source pinned to a commit, is pinned; anything else is unverified.
pub open spec fn trust_spec(source: PluginSourceWire, integrity: bool, commit: bool) -> Seq<char> {
    match source {
        PluginSourceWire::Npm { .. } => if integrity {
            "verified"@
        } else {
            "unverified"@
        },
        PluginSourceWire::Tarball { .. } => if integrity {
            "pinned"@
        } else {
            "unverified"@
        },
        PluginSourceWire::Github { .. } => if commit {
            "pinned"@
        } else {
            "unverified"@
        },
    }
}

/// The trust level of an install.
pub fn compute_trust(source: &PluginSourceWire, resolved: &ResolvedSource) -> (r: &'static str)
    ensures
        r@ == trust_spec(*source, resolved.integrity.is_some(), resolved.commit.is_some()),
{
    match source {
        PluginSourceWire::Npm { .. } => {
            if resolved.integrity.is_some() {
                "verified"
            } else {
                "unverified"
            }
        },
        PluginSourceWire::Tarball { .. } => {
            if resolved.integrity.is_some() {
                "pinned"
            } else {
                "unverified"
            }
        },
        PluginSourceWire::Github { .. } => {
            if resolved.commit.is_some() {
                "pinned"
            } else {
                "unverified"
            }
        },
    }
}

/* ------------------------------ registry ids ------------------------------ */

/// What follows the last `sep` (the whole text when there is none).
pub open spec fn last_segment(s: Seq<char>, sep: char) -> Seq<char> {
    split_on(s, sep).last()
}

/// How many trailing copies of `suffix` end `s` (never empty).
pub open spec fn trim_end_all(s: Seq<char>, suffix: Seq<char>) -> Seq<char>
    decreases s.len(),
{
    if suffix.len() > 0 && ends_with(s, suffix) {
        trim_end_all(s.take(s.len() - suffix.len()), suffix)
    } else {
        s
    }
}

/// `s` written `m` times.
pub open spec fn repeated(s: Seq<char>, m: nat) -> Seq<char>
    decreases m,
{
    if m == 0 {
        Seq::empty()
    } else {
        repeated(s, (m - 1) as nat) + s
    }
}

proof fn lemma_trim_end_all(s: Seq<char>, suffix: Seq<char>)
    requires
        suffix.len() > 0,
    ensures
        !ends_with(trim_end_all(s, suffix), suffix),
        exists|m: nat| s == trim_end_all(s, suffix) + repeated(suffix, m),
    decreases s.len(),
{
    if ends_with(s, suffix) {
        let t = s.take(s.len() - suffix.len());
        lemma_trim_end_all(t, suffix);
        let m = choose|m: nat| t == trim_end_all(t, suffix) + repeated(suffix, m);
        assert(s =~= t + suffix);
        assert(repeated(suffix, m + 1) == repeated(suffix, m) + suffix);
        assert(s =~= trim_end_all(s, suffix) + repeated(suffix, m + 1));
    } else {
        assert(s =~= s + repeated(suffix, 0));
    }
}

/// `@scope/name` for npm sources, the tarball's file name without `.tgz`,
/// or a GitHub repo's name: the id DSH uses in `cordis.patch.yml` and the
/// path under `node_modules`.
pub open spec fn registry_id_spec(source: PluginSourceWire) -> Seq<char> {
    match source {
        PluginSourceWire::Npm { pkg } => pkg@,
        PluginSourceWire::Tarball { url, .. } => trim_end_all(
            last_segment(trim_end_all(url@, seq!['/']), '/'),
            seq!['.', 't', 'g', 'z'],
        ),
        PluginSourceWire::Github { repo } => last_segment(repo@, '/'),
    }
}

proof fn lemma_last_segment(s: Seq<char>, sep: char)
    ensures
        !last_segment(s, sep).contains(sep),
        s == last_segment(s, sep) || exists|p: Seq<char>| s == p + seq![sep] + last_segment(s, sep),
    decreases s.len(),
{
    lemma_split_on_len(s, sep);
    if s.len() > 0 {
        let t = s.drop_last();
        lemma_split_on_len(t, sep);
        lemma_last_segment(t, sep);
        let l = last_segment(t, sep);
        if s.last() == sep {
            assert(last_segment(s, sep) =~= Seq::<char>::empty());
            assert(s =~= t + seq![sep] + last_segment(s, sep));
        } else {
            assert(last_segment(s, sep) == l.push(s.last()));
            assert forall|i: int| 0 <= i < l.push(s.last()).len() implies l.push(s.last())[i] != sep by {
                if i < l.len() {
                    assert(l.push(s.last())[i] == l[i]);
                }
            }
            if t == l {
                assert(s =~= l.push(s.last()));
            } else {
                let p = choose|p: Seq<char>| t == p + seq![sep] + l;
                assert(s =~= t.push(s.last()));
                assert((p + seq![sep] + l).push(s.last()) =~= p + seq![sep] + l.push(s.last()));
                assert(s == p + seq![sep] + last_segment(s, sep));
            }
        }
    }
}

/// An npm source installs under its package name; a GitHub source under
/// its repo's own name, the part of `owner/name` after the last `/`.
pub proof fn lemma_registry_ids(pkg: String, repo: String)
    ensures
        registry_id_spec(PluginSourceWire::Npm { pkg }) == pkg@,
        !registry_id_spec(PluginSourceWire::Github { repo }).contains('/'),
        repo@ == registry_id_spec(PluginSourceWire::Github { repo }) || exists|p: Seq<char>| repo@ == p + seq!['/']
            + registry_id_spec(PluginSourceWire::Github { repo }),
{
    lemma_last_segment(repo@, '/');
}

/// A tarball installs under its file name with the `.tgz` suffix taken
/// off: the id never ends in `.tgz`, and the URL's last path segment is the
/// id followed only by `.tgz` suffixes (so `https://cdn.example/x-1.0.0.tgz`
/// installs as `x-1.0.0`).
pub proof fn lemma_tarball_id_drops_tgz(url: String, integrity: Option<String>)
    ensures
        ({
            let id = registry_id_spec(PluginSourceWire::Tarball { url, integrity });
            let seg = last_segment(trim_end_all(url@, seq!['/']), '/');
            &&& !ends_with(id, ".tgz"@)
            &&& exists|m: nat| seg == id + repeated(".tgz"@, m)
        }),
{
    reveal_strlit(".tgz");
    assert(".tgz"@ =~= seq!['.', 't', 'g', 'z']);
    lemma_trim_end_all(last_segment(trim_end_all(url@, seq!['/']), '/'), seq!['.', 't', 'g', 'z']);
}

fn trim_end_all_exec(s: &[char], suffix: &[char]) -> (r: Vec<char>)
    requires
        suffix@.len() > 0,
    ensures
        r@ == trim_end_all(s@, suffix@),
{
    let mut cur = crate::text::slice_prefix(s, s.len());
    assert(s@.take(s@.len() as int) =~= s@);
    while ends_with_exec(&cur, suffix)
        invariant
            suffix@.len() > 0,
            trim_end_all(s@, suffix@) == trim_end_all(cur@, suffix@),
        decreases cur.len(),
    {
        let n = cur.len() - suffix.len();
        cur = crate::text::slice_prefix(&cur, n);
    }
    cur
}

fn last_segment_exec(s: &[char], sep: char) -> (r: Vec<char>)
    ensures
        r@ == last_segment(s@, sep),
{
    let parts = split_on_exec(s, sep);
    proof {
        lemma_split_on_len(s@, sep);
    }
    let n = parts.len();
    assert(crate::sessions::codec::cviews(parts@)[n - 1] == parts@[n - 1]@);
    crate::text::slice_prefix(&parts[n - 1], parts[n - 1].len())
}

/// The registry id a source installs under.
pub fn registry_id_of(source: &PluginSourceWire) -> (r: String)
    ensures
        r@ == registry_id_spec(*source),
{
    match source {
        PluginSourceWire::Npm { pkg } => pkg.clone(),
        PluginSourceWire::Tarball { url, .. } => {
            let slash = vec!['/'];
            let tgz = vec!['.', 't', 'g', 'z'];
            assert(slash@ =~= seq!['/']);
            assert(tgz@ =~= seq!['.', 't', 'g', 'z']);
            let u = trim_end_all_exec(&chars_of(url.as_str()), &slash);
            let last = last_segment_exec(&u, '/');
            let r = trim_end_all_exec(&last, &tgz);
            proof {
                let l = last_segment(u@, '/');
                assert(last@.take(last@.len() as int) =~= last@);
            }
            string_of(&r)
        },
        PluginSourceWire::Github { repo } => {
            let last = last_segment_exec(&chars_of(repo.as_str()), '/');
            assert(last@.take(last@.len() as int) =~= last@);
            string_of(&last)
        },
    }
}

/* ------------------------------ resolution ------------------------------ */

/// A GitHub commit pin: the first 40 characters of a SHA at least that long.
pub fn pin_sha(sha: &str) -> (r: Option<String>)
    ensures
        match r {
            Some(p) => sha@.len() >= 40 && p@ == sha@.take(40),
            None => sha@.len() < 40,
        },
{
    let c = chars_of(sha);
    if c.len() >= 40 {
        Some(string_of(&crate::text::slice_prefix(&c, 40)))
    } else {
        None
    }
}

/// `s.trim_matches(c)`.
pub open spec fn trim_char(s: Seq<char>, c: char) -> Seq<char> {
    let a = lead_count(s, c);
    let t = s.skip(a as int);
    t.take(t.len() - trail_count(t, c))
}

pub open spec fn lead_count(s: Seq<char>, c: char) -> nat
    decreases s.len(),
{
    if s.len() > 0 && s[0] == c {
        1 + lead_count(s.drop_first(), c)
    } else {
        0
    }
}

pub open spec fn trail_count(s: Seq<char>, c: char) -> nat
    decreases s.len(),
{
    if s.len() > 0 && s.last() == c {
        1 + trail_count(s.drop_last(), c)
    } else {
        0
    }
}

proof fn lemma_counts(s: Seq<char>, c: char)
    ensures
        lead_count(s, c) <= s.len(),
        trail_count(s, c) <= s.len(),
    decreases s.len(),
{
    if s.len() > 0 {
        lemma_counts(s.drop_first(), c);
        lemma_counts(s.drop_last(), c);
    }
}

fn trim_char_exec(s: &[char], c: char) -> (r: Vec<char>)
    ensures
        r@ == trim_char(s@, c),
{
    let mut a: usize = 0;
    assert(s@.skip(0) =~= s@);
    while a < s.len() && s[a] == c
        invariant
            a <= s.len(),
            lead_count(s@, c) == a + lead_count(s@.skip(a as int), c),
        decreases s.len() - a,
    {
        assert(s@.skip(a as int).drop_first() =~= s@.skip(a + 1));
        a += 1;
    }
    let t = crate::text::slice_range(s, a, s.len());
    assert(t@ =~= s@.skip(a as int));
    let mut b = t.len();
    assert(t@.take(b as int) =~= t@);
    while b > 0 && t[b - 1] == c
        invariant
            b <= t.len(),
            trail_count(t@, c) == (t.len() - b) + trail_count(t@.take(b as int), c),
        decreases b,
    {
        assert(t@.take(b as int).drop_last() =~= t@.take(b - 1));
        b -= 1;
    }
    crate::text::slice_prefix(&t, b)
}

/// A GitHub source's repo, trimmed of `/`, must be exactly `owner/name`.
pub open spec fn github_repo_spec(repo: Seq<char>) -> Result<Seq<char>, Seq<char>> {
    let r = trim_char(repo, '/');
    if split_on(r, '/').len() != 2 {
        Err("非法的 GitHub 仓库: "@ + r)
    } else {
        Ok(r)
    }
}

/// Checks a GitHub source's repo.
pub fn github_repo(repo: &str) -> (r: Result<String, String>)
    ensures
        match r {
            Ok(s) => github_repo_spec(repo@) == Ok::<Seq<char>, Seq<char>>(s@),
            Err(e) => github_repo_spec(repo@) == Err::<Seq<char>, Seq<char>>(e@),
        },
{
    let t = trim_char_exec(&chars_of(repo), '/');
    let parts = split_on_exec(&t, '/');
    if parts.len() != 2 {
        Err(string_of(&concat_chars(&chars_of("非法的 GitHub 仓库: "), &t)))
    } else {
        Ok(string_of(&t))
    }
}

/// Which npm version an install takes: an explicit version is a pin and
/// must exist in the registry; otherwise the `latest` tag decides.
pub open spec fn npm_version_spec(pkg: Seq<char>, requested: Option<Seq<char>>, has_requested: bool, latest: Option<Seq<char>>) -> Result<
    Seq<char>,
    Seq<char>,
> {
    match requested {
        Some(want) => if has_requested {
            Ok(want)
        } else {
            Err("npm 上没有找到 "@ + pkg + "@"@ + want + "（该源可能尚未同步）"@)
        },
        None => match latest {
            Some(l) => Ok(l),
            None => Err("npm 上没有找到 "@ + pkg + " 的可用版本"@),
        },
    }
}

/// The npm version to install; `has_requested` says whether the registry
/// lists the requested version, `latest` is its `latest` tag.
pub fn npm_version(pkg: &str, requested: Option<&str>, has_requested: bool, latest: Option<String>) -> (r: Result<String, String>)
    ensures
        match r {
            Ok(v) => npm_version_spec(pkg@, crate::verify::opt_str(requested), has_requested, crate::sessions::codec::opt_view(latest)) == Ok::<Seq<char>, Seq<char>>(v@),
            Err(e) => npm_version_spec(pkg@, crate::verify::opt_str(requested), has_requested, crate::sessions::codec::opt_view(latest)) == Err::<Seq<char>, Seq<char>>(e@),
        },
{
    match requested {
        Some(want) => {
            if has_requested {
                Ok(want.to_owned())
            } else {
                let a = concat_chars(&chars_of("npm 上没有找到 "), &chars_of(pkg));
                let b = concat_chars(&concat_chars(&a, &chars_of("@")), &chars_of(want));
                Err(string_of(&concat_chars(&b, &chars_of("（该源可能尚未同步）"))))
            }
        },
        None => match latest {
            Some(l) => Ok(l),
            None => Err(string_of(&concat_chars(&concat_chars(&chars_of("npm 上没有找到 "), &chars_of(pkg)), &chars_of(" 的可用版本")))),
        },
    }
}

/* ------------------------------ pnpm output ------------------------------ */

/// What `String::from_utf8_lossy` makes of bytes.
pub uninterp spec fn utf8_lossy(bytes: Seq<u8>) -> Seq<char>;

/// Decodes bytes with `String::from_utf8_lossy`, which returns valid UTF-8
/// unchanged and replaces invalid sequences.
#[verifier::external_body]
fn lossy_text(bytes: &[u8]) -> (r: String)
    ensures
        r@ == utf8_lossy(bytes@),
        vstd::utf8::valid_utf8(bytes@) ==> r@ == vstd::utf8::decode_utf8(bytes@),
{
    String::from_utf8_lossy(bytes).into_owned()
}

/// `str::lines`: split at `\n`, each line without a `\r` before its `\n`,
/// and no empty last line after a final newline.
pub open spec fn str_lines(t: Seq<char>) -> Seq<Seq<char>> {
    if t.len() == 0 {
        Seq::empty()
    } else {
        let p = crate::sessions::codec::split_nl(t);
        let full = p.drop_last().map_values(|l: Seq<char>| crate::sessions::codec::strip_cr(l));
        if t.last() == '\n' {
            full
        } else {
            full.push(p.last())
        }
    }
}

/// The last eight lines of a text, in order, joined with newlines.
pub open spec fn tail_spec(t: Seq<char>) -> Seq<char> {
    let l = str_lines(t);
    let n = if l.len() > 8 {
        l.len() - 8
    } else {
        0
    };
    crate::verify::join_with(l.skip(n as int), seq!['\n'])
}

/// The last few lines of pnpm's stderr, for a failure the user can act on.
pub fn stderr_tail(bytes: &[u8]) -> (r: String)
    ensures
        r@ == tail_spec(utf8_lossy(bytes@)),
{
    let text = chars_of(lossy_text(bytes).as_str());
    let ghost t = text@;
    let mut lines: Vec<String> = Vec::new();
    if text.len() > 0 {
        let pieces = crate::sessions::codec::split_nl_exec(&text);
        proof {
            crate::sessions::codec::lemma_split_nl_len(t);
        }
        let ghost pv = crate::sessions::codec::cviews(pieces@);
        let mut k: usize = 0;
        while k + 1 < pieces.len()
            invariant
                k + 1 <= pieces.len(),
                pv == crate::sessions::codec::cviews(pieces@),
                pv.len() == pieces.len(),
                views(lines@) == pv.take(k as int).map_values(|l: Seq<char>| crate::sessions::codec::strip_cr(l)),
            decreases pieces.len() - k,
        {
            assert(pv[k as int] == pieces@[k as int]@);
            let p = &pieces[k];
            let l = if p.len() > 0 && p[p.len() - 1] == '\r' {
                crate::text::slice_prefix(p, p.len() - 1)
            } else {
                crate::text::slice_prefix(p, p.len())
            };
            assert(p@.take(p@.len() as int) =~= p@);
            assert(p@.len() > 0 ==> p@.take(p@.len() - 1) =~= p@.drop_last());
            let ghost before = lines@;
            let s = string_of(&l);
            lines.push(s);
            proof {
                lemma_views_push(before, s);
                assert(pv.take(k + 1).map_values(|l: Seq<char>| crate::sessions::codec::strip_cr(l))
                    =~= pv.take(k as int).map_values(|l: Seq<char>| crate::sessions::codec::strip_cr(l)).push(
                    crate::sessions::codec::strip_cr(pv[k as int]),
                ));
            }
            k += 1;
        }
        assert(pv.take(k as int) =~= pv.drop_last());
        if text[text.len() - 1] != '\n' {
            let n = pieces.len();
            assert(pv[n - 1] == pieces@[n - 1]@);
            let ghost before = lines@;
            let s = string_of(&pieces[n - 1]);
            lines.push(s);
            proof {
                lemma_views_push(before, s);
            }
        }
    }
    assert(views(lines@) == str_lines(t));
    let n = if lines.len() > 8 {
        lines.len() - 8
    } else {
        0
    };
    let mut tail: Vec<String> = Vec::new();
    let mut i = n;
    while i < lines.len()
        invariant
            n <= i <= lines.len(),
            views(tail@) == views(lines@).subrange(n as int, i as int),
        decreases lines.len() - i,
    {
        let ghost before = tail@;
        let s = lines[i].clone();
        tail.push(s);
        proof {
            lemma_views_push(before, s);
        }
        assert(views(tail@) =~= views(lines@).subrange(n as int, i + 1));
        i += 1;
    }
    assert(views(lines@).subrange(n as int, i as int) =~= views(lines@).skip(n as int));
    proof {
        reveal_strlit("\n");
    }
    assert("\n"@ =~= seq!['\n']);
    string_of(&crate::verify::join_exec(&tail, "\n"))
}

/* ------------------------------- catalog ------------------------------- */

/// One entry of the community registry, as read from `plugins.json`.
#[derive(Debug)]
pub struct RegistryEntry {
    pub name: String,
    pub owner: String,
    pub url: String,
    pub category: String,
    pub description_en: Option<String>,
    pub description_zh: Option<String>,
    pub npm: Option<String>,
    pub tarball: Option<String>,
    pub stars: Option<u64>,
    pub downloads: Option<u64>,
    pub added: Option<String>,
    pub screenshots: Vec<String>,
}

/// A source as plain values.
pub enum SourceView {
    Npm(Seq<char>),
    Tarball(Seq<char>, Option<Seq<char>>),
    Github(Seq<char>),
}

pub open spec fn source_view(s: PluginSourceWire) -> SourceView {
    match s {
        PluginSourceWire::Npm { pkg } => SourceView::Npm(pkg@),
        PluginSourceWire::Tarball { url, integrity } => SourceView::Tarball(url@, crate::sessions::codec::opt_view(integrity)),
        PluginSourceWire::Github { repo } => SourceView::Github(repo@),
    }
}

/// A catalog entry as plain values (releases are always empty here).
pub struct MetaView {
    pub id: Seq<char>,
    pub name: Seq<char>,
    pub author: Seq<char>,
    pub category: Seq<char>,
    pub summary: Seq<char>,
    pub summary_en: Option<Seq<char>>,
    pub repo_url: Option<Seq<char>>,
    pub screenshots: Seq<Seq<char>>,
    pub source: SourceView,
    pub official: bool,
    pub downloads: nat,
    pub stars: Option<u64>,
    pub added_at: Option<Seq<char>>,
}

pub open spec fn meta_view(m: PluginMeta) -> MetaView {
    MetaView {
        id: m.id@,
        name: m.name@,
        author: m.author@,
        category: m.category@,
        summary: m.summary@,
        summary_en: crate::sessions::codec::opt_view(m.summary_en),
        repo_url: crate::sessions::codec::opt_view(m.repo_url),
        screenshots: views(m.screenshots@),
        source: source_view(m.source),
        official: m.official,
        downloads: m.downloads as nat,
        stars: m.stars,
        added_at: crate::sessions::codec::opt_view(m.added_at),
    }
}

/// `s.trim_start_matches(p)`.
pub open spec fn trim_start_all(s: Seq<char>, p: Seq<char>) -> Seq<char>
    decreases s.len(),
{
    if p.len() > 0 && starts_with(s, p) {
        trim_start_all(s.skip(p.len() as int), p)
    } else {
        s
    }
}

/// The `owner/name` repo an entry is about, when it names one.
pub open spec fn entry_repo(url: Seq<char>, owner: Seq<char>, name: Seq<char>) -> Option<Seq<char>> {
    if url.len() == 0 {
        if owner.len() == 0 || name.len() == 0 {
            None
        } else {
            Some(owner + seq!['/'] + name)
        }
    } else {
        Some(trim_char(trim_start_all(trim_start_all(url, "https://github.com/"@), "http://github.com/"@), '/'))
    }
}

/// The catalog entry of a registry entry: an npm package beats an author
/// tarball, which beats the GitHub repo; the Chinese summary beats the
/// English one; a deepseek-ai owner or `@deepseek-ai/` package is
/// official; unknown categories become `dev`.
pub open spec fn map_entry_spec(e: RegistryEntry) -> Option<MetaView> {
    match entry_repo(e.url@, e.owner@, e.name@) {
        None => None,
        Some(repo) => Some(
            MetaView {
                id: repo,
                name: if e.name@.len() == 0 {
                    last_segment(repo, '/')
                } else {
                    e.name@
                },
                author: if e.owner@.len() == 0 {
                    split_on(repo, '/')[0]
                } else {
                    e.owner@
                },
                category: if e.category@.len() == 0 {
                    "dev"@
                } else {
                    e.category@
                },
                summary: match e.description_zh {
                    Some(z) => z@,
                    None => match e.description_en {
                        Some(en) => en@,
                        None => Seq::empty(),
                    },
                },
                summary_en: crate::sessions::codec::opt_view(e.description_en),
                repo_url: Some("https://github.com/"@ + repo),
                screenshots: views(e.screenshots@),
                source: if e.npm is Some && e.npm->0@.len() > 0 {
                    SourceView::Npm(e.npm->0@)
                } else if e.tarball is Some && e.tarball->0@.len() > 0 {
                    SourceView::Tarball(e.tarball->0@, None)
                } else {
                    SourceView::Github(repo)
                },
                official: crate::hexdigits::eq_ignore_ascii_case(e.owner@, "deepseek-ai"@) || match e.npm {
                    Some(pkg) => starts_with(pkg@, "@deepseek-ai/"@),
                    None => false,
                },
                downloads: match e.downloads {
                    Some(d) => d as nat,
                    None => 0,
                },
                stars: e.stars,
                added_at: crate::sessions::codec::opt_view(e.added),
            },
        ),
    }
}

/// Which repo a registry entry is about: without a URL it is
/// `owner/name`, and an entry with neither a URL nor both of those names no
/// repo and is left out of the catalog; with a URL, the catalog id is the
/// URL's GitHub path.
pub proof fn lemma_entry_id(e: RegistryEntry)
    ensures
        e.url@.len() == 0 && (e.owner@.len() == 0 || e.name@.len() == 0) ==> map_entry_spec(e) is None,
        e.url@.len() == 0 && e.owner@.len() > 0 && e.name@.len() > 0 ==> map_entry_spec(e) is Some && map_entry_spec(
            e,
        )->0.id == e.owner@ + "/"@ + e.name@,
        e.url@.len() > 0 ==> map_entry_spec(e) is Some,
{
    reveal_strlit("/");
    assert(seq!['/'] =~= "/"@);
}

/// Which source a catalog entry installs from: a named npm package always
/// wins, whatever else the entry holds; without one, an author tarball
/// wins; with neither, the GitHub repo the entry is about. The entry links
/// to that repo either way.
pub proof fn lemma_source_priority(e: RegistryEntry)
    requires
        map_entry_spec(e) is Some,
    ensures
        ({
            let m = map_entry_spec(e)->0;
            let has_npm = e.npm is Some && e.npm->0@.len() > 0;
            let has_tarball = e.tarball is Some && e.tarball->0@.len() > 0;
            &&& has_npm ==> m.source == SourceView::Npm(e.npm->0@)
            &&& !has_npm && has_tarball ==> m.source == SourceView::Tarball(e.tarball->0@, None)
            &&& !has_npm && !has_tarball ==> m.source == SourceView::Github(m.id)
            &&& m.repo_url == Some("https://github.com/"@ + m.id)
            &&& m.official == (crate::hexdigits::eq_ignore_ascii_case(e.owner@, "deepseek-ai"@) || (e.npm is Some
                && starts_with(e.npm->0@, "@deepseek-ai/"@)))
        }),
{
}

fn trim_start_all_exec(s: &[char], p: &[char]) -> (r: Vec<char>)
    requires
        p@.len() > 0,
    ensures
        r@ == trim_start_all(s@, p@),
{
    let mut cur = crate::text::slice_prefix(s, s.len());
    assert(s@.take(s@.len() as int) =~= s@);
    while starts_with_exec(&cur, p)
        invariant
            p@.len() > 0,
            trim_start_all(s@, p@) == trim_start_all(cur@, p@),
        decreases cur.len(),
    {
        let next = crate::text::slice_range(&cur, p.len(), cur.len());
        assert(next@ =~= cur@.skip(p@.len() as int));
        cur = next;
    }
    cur
}

fn clone_opt(o: &Option<String>) -> (r: Option<String>)
    ensures
        crate::sessions::codec::opt_view(r) == crate::sessions::codec::opt_view(*o),
{
    match o {
        Some(s) => Some(s.clone()),
        None => None,
    }
}

/// The catalog entry of a registry entry; `None` when it names no repo.
pub fn map_registry_entry(e: &RegistryEntry) -> (r: Option<PluginMeta>)
    ensures
        match r {
            Some(m) => map_entry_spec(*e) == Some(meta_view(m)),
            None => map_entry_spec(*e).is_none(),
        },
{
    let url = chars_of(e.url.as_str());
    let owner = chars_of(e.owner.as_str());
    let name = chars_of(e.name.as_str());
    let repo = if url.len() == 0 {
        if owner.len() == 0 || name.len() == 0 {
            return None;
        }
        concat_chars(&concat_chars(&owner, &['/']), &name)
    } else {
        let https = chars_of("https://github.com/");
        let http = chars_of("http://github.com/");
        proof {
            reveal_strlit("https://github.com/");
            reveal_strlit("http://github.com/");
        }
        let a = trim_start_all_exec(&url, &https);
        let b = trim_start_all_exec(&a, &http);
        trim_char_exec(&b, '/')
    };
    let repo_s = string_of(&repo);
    let npm_pkg = match &e.npm {
        Some(pkg) => if !pkg.as_str().is_empty() {
            Some(pkg.clone())
        } else {
            None
        },
        None => None,
    };
    let tarball_url = match &e.tarball {
        Some(t) => if !t.as_str().is_empty() {
            Some(t.clone())
        } else {
            None
        },
        None => None,
    };
    let source = match npm_pkg {
        Some(pkg) => PluginSourceWire::Npm { pkg },
        None => match tarball_url {
            Some(url) => PluginSourceWire::Tarball { url, integrity: None },
            None => PluginSourceWire::Github { repo: repo_s.clone() },
        },
    };
    let summary = match &e.description_zh {
        Some(z) => z.clone(),
        None => match &e.description_en {
            Some(en) => en.clone(),
            None => String::new(),
        },
    };
    let official = crate::hexdigits::eq_ignore_ascii_case_exec(&owner, &chars_of("deepseek-ai")) || match &e.npm {
        Some(pkg) => starts_with_exec(&chars_of(pkg.as_str()), &chars_of("@deepseek-ai/")),
        None => false,
    };
    let name_s = if name.len() == 0 {
        let l = last_segment_exec(&repo, '/');
        string_of(&l)
    } else {
        e.name.clone()
    };
    let author = if owner.len() == 0 {
        let parts = split_on_exec(&repo, '/');
        proof {
            lemma_split_on_len(repo@, '/');
        }
        assert(crate::sessions::codec::cviews(parts@)[0] == parts@[0]@);
        string_of(&parts[0])
    } else {
        e.owner.clone()
    };
    let category = if e.category.as_str().is_empty() {
        "dev".to_owned()
    } else {
        e.category.clone()
    };
    let repo_url = string_of(&concat_chars(&chars_of("https://github.com/"), &repo));
    let downloads = match e.downloads {
        Some(d) => d,
        None => 0,
    };
    let ghost spec_m = map_entry_spec(*e).unwrap();
    assert(map_entry_spec(*e).is_some());
    assert(spec_m.id == repo_s@);
    assert(spec_m.name == name_s@);
    assert(spec_m.author == author@);
    assert(spec_m.category == category@);
    assert(spec_m.summary == summary@);
    assert(spec_m.repo_url == Some(repo_url@));
    assert(spec_m.source == source_view(source));
    assert(spec_m.official == official);
    assert(spec_m.downloads == downloads as nat);
    Some(PluginMeta {
        id: repo_s,
        name: name_s,
        author,
        category,
        summary,
        summary_en: clone_opt(&e.description_en),
        repo_url: Some(repo_url),
        screenshots: crate::text::copy_lines(&e.screenshots),
        source,
        official,
        downloads,
        stars: e.stars,
        added_at: clone_opt(&e.added),
        releases: Vec::new(),
    })
}

/// Catalog order: most downloads first, then by id.
pub open spec fn precedes(a: MetaView, b: MetaView) -> bool {
    a.downloads > b.downloads || (a.downloads == b.downloads && lex_lt(a.id, b.id))
}

/// Where a stable insertion puts `x`: before the first entry it precedes.
pub open spec fn catalog_slot(sorted: Seq<MetaView>, x: MetaView, k: int) -> int
    decreases sorted.len() - k,
{
    if k < 0 || k >= sorted.len() {
        sorted.len() as int
    } else if precedes(x, sorted[k]) {
        k
    } else {
        catalog_slot(sorted, x, k + 1)
    }
}

/// The entries in catalog order (stably).
pub open spec fn sort_catalog(s: Seq<MetaView>) -> Seq<MetaView>
    decreases s.len(),
{
    if s.len() == 0 {
        s
    } else {
        let t = sort_catalog(s.drop_last());
        t.insert(catalog_slot(t, s.last(), 0), s.last())
    }
}

/// Catalog order, as a property: no entry precedes one listed before it.
pub open spec fn catalog_sorted(t: Seq<MetaView>) -> bool {
    forall|i: int, j: int| 0 <= i < j < t.len() ==> !precedes(#[trigger] t[j], #[trigger] t[i])
}

proof fn lemma_precedes_order(a: MetaView, b: MetaView, c: MetaView)
    ensures
        !precedes(a, a),
        precedes(a, b) ==> !precedes(b, a),
        precedes(a, b) && precedes(b, c) ==> precedes(a, c),
{
    crate::text::lemma_lex_order(a.id, b.id, c.id);
}

proof fn lemma_slot_facts(t: Seq<MetaView>, x: MetaView, k: int)
    requires
        0 <= k <= t.len(),
    ensures
        k <= catalog_slot(t, x, k) <= t.len(),
        forall|j: int| k <= j < catalog_slot(t, x, k) ==> !precedes(x, #[trigger] t[j]),
        catalog_slot(t, x, k) < t.len() ==> precedes(x, t[catalog_slot(t, x, k)]),
    decreases t.len() - k,
{
    if k < t.len() && !precedes(x, t[k]) {
        lemma_slot_facts(t, x, k + 1);
    }
}

/// The catalog order is a sort: the result is in catalog order and holds
/// exactly the entries it was given.
pub proof fn lemma_sort_catalog_sorts(s: Seq<MetaView>)
    ensures
        catalog_sorted(sort_catalog(s)),
        sort_catalog(s).to_multiset() == s.to_multiset(),
    decreases s.len(),
{
    broadcast use vstd::seq_lib::to_multiset_insert, vstd::seq_lib::to_multiset_build;

    if s.len() > 0 {
        let t = sort_catalog(s.drop_last());
        let x = s.last();
        lemma_sort_catalog_sorts(s.drop_last());
        lemma_slot_facts(t, x, 0);
        let c = catalog_slot(t, x, 0);
        let u = t.insert(c, x);
        assert(u == sort_catalog(s));
        assert forall|i: int, j: int| 0 <= i < j < u.len() implies !precedes(#[trigger] u[j], #[trigger] u[i]) by {
            if j < c {
                assert(u[i] == t[i] && u[j] == t[j]);
            } else if j == c {
                assert(u[i] == t[i]);
            } else if i > c {
                assert(u[i] == t[i - 1] && u[j] == t[j - 1]);
            } else if i == c {
                assert(u[j] == t[j - 1]);
                lemma_precedes_order(t[j - 1], x, t[c]);
                if j - 1 > c {
                    assert(!precedes(t[j - 1], t[c]));
                }
            } else {
                assert(u[i] == t[i] && u[j] == t[j - 1]);
            }
        }
        assert(s =~= s.drop_last().push(x));
    }
}

/// The catalog entries of the first `n` registry entries, in order.
pub open spec fn mapped_entries(es: Seq<RegistryEntry>, n: int) -> Seq<MetaView>
    decreases n,
{
    if n <= 0 || n > es.len() {
        Seq::empty()
    } else {
        match map_entry_spec(es[n - 1]) {
            Some(m) => mapped_entries(es, n - 1).push(m),
            None => mapped_entries(es, n - 1),
        }
    }
}

fn precedes_exec(a: &PluginMeta, b: &PluginMeta) -> (r: bool)
    ensures
        r == precedes(meta_view(*a), meta_view(*b)),
{
    a.downloads > b.downloads || (a.downloads == b.downloads && lex_lt_exec(&chars_of(a.id.as_str()), &chars_of(b.id.as_str())))
}

/// The catalog of a registry file: every entry that names a repo, most
/// downloads first, then by id.
pub fn map_registry_file(entries: &Vec<RegistryEntry>) -> (r: Vec<PluginMeta>)
    ensures
        r@.map_values(|m: PluginMeta| meta_view(m)) == sort_catalog(mapped_entries(entries@, entries@.len() as int)),
        catalog_sorted(r@.map_values(|m: PluginMeta| meta_view(m))),
        r@.map_values(|m: PluginMeta| meta_view(m)).to_multiset() == mapped_entries(entries@, entries@.len() as int).to_multiset(),
{
    let mut out: Vec<PluginMeta> = Vec::new();
    let mut n: usize = 0;
    let ghost mut mapped: Seq<MetaView> = Seq::empty();
    while n < entries.len()
        invariant
            n <= entries.len(),
            mapped == mapped_entries(entries@, n as int),
            out@.map_values(|m: PluginMeta| meta_view(m)) == sort_catalog(mapped),
        decreases entries.len() - n,
    {
        match map_registry_entry(&entries[n]) {
            Some(m) => {
                let ghost sv = out@.map_values(|q: PluginMeta| meta_view(q));
                let mut p: usize = 0;
                while p < out.len() && !precedes_exec(&m, &out[p])
                    invariant
                        p <= out.len(),
                        sv == out@.map_values(|q: PluginMeta| meta_view(q)),
                        sv.len() == out.len(),
                        catalog_slot(sv, meta_view(m), 0) == catalog_slot(sv, meta_view(m), p as int),
                    decreases out.len() - p,
                {
                    assert(sv[p as int] == meta_view(out@[p as int]));
                    p += 1;
                }
                if p < out.len() {
                    assert(sv[p as int] == meta_view(out@[p as int]));
                }
                let ghost mv = meta_view(m);
                let ghost before = out@;
                out.insert(p, m);
                proof {
                    assert(out@.map_values(|q: PluginMeta| meta_view(q)) =~= before.map_values(|q: PluginMeta| meta_view(q)).insert(p as int, mv));
                    assert(mapped.push(mv).drop_last() =~= mapped);
                    mapped = mapped.push(mv);
                }
            },
            None => {},
        }
        n += 1;
    }
    proof {
        lemma_sort_catalog_sorts(mapped_entries(entries@, entries@.len() as int));
    }
    out
}

/* ------------------------------ resolution ------------------------------ */

/// A package name with every `/` written `%2F`, as a registry path segment.
pub open spec fn encode_slashes(s: Seq<char>) -> Seq<char>
    decreases s.len(),
{
    if s.len() == 0 {
        s
    } else {
        encode_slashes(s.drop_last()) + if s.last() == '/' {
            seq!['%', '2', 'F']
        } else {
            seq![s.last()]
        }
    }
}

/// Where a registry serves a package's packument.
pub open spec fn packument_url_spec(base: Seq<char>, pkg: Seq<char>) -> Seq<char> {
    trim_end_all(base, seq!['/']) + seq!['/'] + encode_slashes(pkg)
}

/// The packument URL of a package on a registry.
pub fn packument_url(base: &str, pkg: &str) -> (r: String)
    ensures
        r@ == packument_url_spec(base@, pkg@),
{
    let slash = vec!['/'];
    assert(slash@ =~= seq!['/']);
    let b = trim_end_all_exec(&chars_of(base), &slash);
    let p = chars_of(pkg);
    let mut enc: Vec<char> = Vec::new();
    let mut i: usize = 0;
    while i < p.len()
        invariant
            i <= p.len(),
            enc@ == encode_slashes(p@.take(i as int)),
        decreases p.len() - i,
    {
        assert(p@.take(i + 1).drop_last() =~= p@.take(i as int));
        if p[i] == '/' {
            enc.push('%');
            enc.push('2');
            enc.push('F');
        } else {
            enc.push(p[i]);
        }
        i += 1;
    }
    assert(p@.take(i as int) =~= p@);
    string_of(&concat_chars(&concat_chars(&b, &slash), &enc))
}

/// A resolved source as plain values: url, integrity, version, commit.
pub open spec fn resolved_view(r: ResolvedSource) -> (Seq<char>, Option<Seq<char>>, Seq<char>, Option<Seq<char>>) {
    (r.url@, crate::sessions::codec::opt_view(r.integrity), r.version@, crate::sessions::codec::opt_view(r.commit))
}

/// An npm release of a chosen version: it must be listed in the packument
/// (`dist`: its tarball and integrity) and carry a tarball URL.
pub open spec fn npm_release_spec(pkg: Seq<char>, version: Seq<char>, dist: Option<(Seq<char>, Option<Seq<char>>)>) -> Result<
    (Seq<char>, Option<Seq<char>>, Seq<char>, Option<Seq<char>>),
    Seq<char>,
> {
    match dist {
        None => Err("npm 上没有找到 "@ + pkg + "@"@ + version),
        Some((tarball, integrity)) => if tarball.len() == 0 {
            Err(pkg + "@"@ + version + " 没有 tarball 下载地址"@)
        } else {
            Ok((tarball, integrity, version, None))
        },
    }
}

/// Resolves an npm source once its version is chosen.
pub fn npm_release(pkg: &str, version: String, dist: Option<(String, Option<String>)>) -> (r: Result<ResolvedSource, String>)
    ensures
        match r {
            Ok(s) => npm_release_spec(pkg@, version@, match dist {
                Some((t, i)) => Some((t@, crate::sessions::codec::opt_view(i))),
                None => None,
            }) == Ok::<(Seq<char>, Option<Seq<char>>, Seq<char>, Option<Seq<char>>), Seq<char>>(resolved_view(s)),
            Err(e) => npm_release_spec(pkg@, version@, match dist {
                Some((t, i)) => Some((t@, crate::sessions::codec::opt_view(i))),
                None => None,
            }) == Err::<(Seq<char>, Option<Seq<char>>, Seq<char>, Option<Seq<char>>), Seq<char>>(e@),
        },
{
    match dist {
        None => {
            let a = concat_chars(&concat_chars(&chars_of("npm 上没有找到 "), &chars_of(pkg)), &chars_of("@"));
            Err(string_of(&concat_chars(&a, &chars_of(version.as_str()))))
        },
        Some((tarball, integrity)) => {
            if tarball.as_str().is_empty() {
                let a = concat_chars(&concat_chars(&chars_of(pkg), &chars_of("@")), &chars_of(version.as_str()));
                Err(string_of(&concat_chars(&a, &chars_of(" 没有 tarball 下载地址"))))
            } else {
                Ok(ResolvedSource { url: tarball, integrity, version, commit: None })
            }
        },
    }
}

/// A tarball source resolves to itself, versioned as requested or `latest`.
pub fn tarball_release(url: String, integrity: Option<String>, requested: Option<&str>) -> (r: ResolvedSource)
    ensures
        resolved_view(r) == (url@, crate::sessions::codec::opt_view(integrity), match requested {
            Some(v) => v@,
            None => "latest"@,
        }, None::<Seq<char>>),
{
    let version = match requested {
        Some(v) => v.to_owned(),
        None => "latest".to_owned(),
    };
    ResolvedSource { url, integrity, version, commit: None }
}

/// A GitHub source: pinned to a commit when one was resolved (its tarball
/// at that commit, versioned as requested unless `HEAD`, else by the
/// commit's first seven characters), otherwise the moving `HEAD` tarball.
pub open spec fn github_release_spec(repo: Seq<char>, sha: Option<Seq<char>>, requested: Option<Seq<char>>) -> (
    Seq<char>,
    Option<Seq<char>>,
    Seq<char>,
    Option<Seq<char>>,
) {
    match sha {
        Some(c) => (
            "https://codeload.github.com/"@ + repo + "/tar.gz/"@ + c,
            None,
            match requested {
                Some(v) => if v != "HEAD"@ {
                    v
                } else {
                    c.take(7)
                },
                None => c.take(7),
            },
            Some(c),
        ),
        None => (
            "https://codeload.github.com/"@ + repo + "/tar.gz/HEAD"@,
            None,
            match requested {
                Some(v) => v,
                None => "HEAD"@,
            },
            None,
        ),
    }
}

/// Resolves a checked GitHub repo with the commit its default branch
/// resolved to, if any.
pub fn github_release(repo: &str, sha: Option<String>, requested: Option<&str>) -> (r: ResolvedSource)
    requires
        match sha {
            Some(c) => c@.len() >= 7,
            None => true,
        },
    ensures
        resolved_view(r) == github_release_spec(repo@, crate::sessions::codec::opt_view(sha), crate::verify::opt_str(requested)),
{
    let base = concat_chars(&chars_of("https://codeload.github.com/"), &chars_of(repo));
    match sha {
        Some(c) => {
            let cc = chars_of(c.as_str());
            let url = string_of(&concat_chars(&concat_chars(&base, &chars_of("/tar.gz/")), &cc));
            let short = string_of(&crate::text::slice_prefix(&cc, 7));
            let version = match requested {
                Some(v) => {
                    if !crate::text::chars_eq(&chars_of(v), &chars_of("HEAD")) {
                        v.to_owned()
                    } else {
                        short
                    }
                },
                None => short,
            };
            ResolvedSource { url, integrity: None, version, commit: Some(c) }
        },
        None => {
            let url = string_of(&concat_chars(&base, &chars_of("/tar.gz/HEAD")));
            let version = match requested {
                Some(v) => v.to_owned(),
                None => "HEAD".to_owned(),
            };
            ResolvedSource { url, integrity: None, version, commit: None }
        },
    }
}

} // verus!
