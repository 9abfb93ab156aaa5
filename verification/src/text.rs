//! Character-level text primitives shared by the line editors and parsers:
//! whitespace as `char::is_whitespace` defines it, trimming, prefixes,
//! indentation measured in UTF-8 bytes, and `str::lines`-style splitting.

use vstd::prelude::*;

verus! {

/// Unicode `White_Space`, the set `char::is_whitespace` tests.
pub open spec fn is_ws(c: char) -> bool {
    ||| c == ' '
    ||| c == '\t'
    ||| c == '\n'
    ||| c == '\x0B'
    ||| c == '\x0C'
    ||| c == '\r'
    ||| c == '\u{85}'
    ||| c == '\u{A0}'
    ||| c == '\u{1680}'
    ||| ('\u{2000}' <= c && c <= '\u{200A}')
    ||| c == '\u{2028}'
    ||| c == '\u{2029}'
    ||| c == '\u{202F}'
    ||| c == '\u{205F}'
    ||| c == '\u{3000}'
}

/// Bytes one character takes in UTF-8.
pub open spec fn utf8_len(c: char) -> nat {
    if (c as u32) < 0x80 {
        1
    } else if (c as u32) < 0x800 {
        2
    } else if (c as u32) < 0x10000 {
        3
    } else {
        4
    }
}

/// Bytes a character sequence takes in UTF-8 (what `str::len` reports).
pub open spec fn utf8_width(s: Seq<char>) -> nat
    decreases s.len(),
{
    if s.len() == 0 {
        0
    } else {
        utf8_width(s.drop_last()) + utf8_len(s.last())
    }
}

/// Number of leading whitespace characters.
pub open spec fn ws_count(s: Seq<char>) -> nat
    decreases s.len(),
{
    if s.len() > 0 && is_ws(s[0]) {
        1 + ws_count(s.drop_first())
    } else {
        0
    }
}

/// Number of trailing whitespace characters.
pub open spec fn trailing_ws_count(s: Seq<char>) -> nat
    decreases s.len(),
{
    if s.len() > 0 && is_ws(s.last()) {
        1 + trailing_ws_count(s.drop_last())
    } else {
        0
    }
}

/// `str::trim_start`.
pub open spec fn trim_start(s: Seq<char>) -> Seq<char> {
    s.skip(ws_count(s) as int)
}

/// `str::trim_end`.
pub open spec fn trim_end(s: Seq<char>) -> Seq<char> {
    s.take(s.len() - trailing_ws_count(s))
}

/// `str::trim`.
pub open spec fn trim(s: Seq<char>) -> Seq<char> {
    trim_end(trim_start(s))
}

/// A line that `trim()` would leave empty.
pub open spec fn is_blank(s: Seq<char>) -> bool {
    forall|i: int| 0 <= i < s.len() ==> is_ws(#[trigger] s[i])
}

/// Indentation of a line: the UTF-8 byte length of its leading whitespace,
/// i.e. `line.len() - line.trim_start().len()`.
pub open spec fn indent(s: Seq<char>) -> nat {
    utf8_width(s.take(ws_count(s) as int))
}

/// `str::starts_with`.
pub open spec fn starts_with(s: Seq<char>, p: Seq<char>) -> bool {
    p.len() <= s.len() && s.take(p.len() as int) == p
}

/// `str::ends_with`.
pub open spec fn ends_with(s: Seq<char>, p: Seq<char>) -> bool {
    p.len() <= s.len() && s.skip(s.len() - p.len()) == p
}

/// The string made of `n` spaces.
pub open spec fn spaces(n: nat) -> Seq<char> {
    Seq::new(n, |_i: int| ' ')
}

pub proof fn lemma_ws_count_bound(s: Seq<char>)
    ensures
        ws_count(s) <= s.len(),
        forall|i: int| 0 <= i < ws_count(s) ==> is_ws(#[trigger] s[i]),
        ws_count(s) < s.len() ==> !is_ws(s[ws_count(s) as int]),
    decreases s.len(),
{
    if s.len() > 0 && is_ws(s[0]) {
        lemma_ws_count_bound(s.drop_first());
        assert forall|i: int| 0 <= i < ws_count(s) implies is_ws(#[trigger] s[i]) by {
            if i > 0 {
                assert(s[i] == s.drop_first()[i - 1]);
            }
        }
    }
}

pub proof fn lemma_trailing_bound(s: Seq<char>)
    ensures
        trailing_ws_count(s) <= s.len(),
    decreases s.len(),
{
    if s.len() > 0 && is_ws(s.last()) {
        lemma_trailing_bound(s.drop_last());
    }
}

pub proof fn lemma_width_bound(s: Seq<char>)
    ensures
        utf8_width(s) <= 4 * s.len(),
    decreases s.len(),
{
    if s.len() > 0 {
        lemma_width_bound(s.drop_last());
    }
}

/// A line's indentation is at most four bytes per character.
pub proof fn lemma_indent_bound(s: Seq<char>)
    ensures
        indent(s) <= 4 * s.len(),
{
    lemma_ws_count_bound(s);
    lemma_width_bound(s.take(ws_count(s) as int));
}

/// Whitespace test over the whole `White_Space` set.
pub fn is_ws_char(c: char) -> (b: bool)
    ensures
        b == is_ws(c),
{
    c == ' ' || c == '\t' || c == '\n' || c == '\x0B' || c == '\x0C' || c == '\r' || c
        == '\u{85}' || c == '\u{A0}' || c == '\u{1680}' || ('\u{2000}' <= c && c <= '\u{200A}')
        || c == '\u{2028}' || c == '\u{2029}' || c == '\u{202F}' || c == '\u{205F}' || c
        == '\u{3000}'
}

fn utf8_len_exec(c: char) -> (n: u128)
    ensures
        n == utf8_len(c),
{
    let v = c as u32;
    if v < 0x80 {
        1
    } else if v < 0x800 {
        2
    } else if v < 0x10000 {
        3
    } else {
        4
    }
}

/// Appends one character (`String::push`).
#[verifier::external_body]
pub fn push_char(s: &mut String, c: char)
    ensures
        final(s)@ == old(s)@.push(c),
{
    s.push(c);
}

/// The characters of a string slice.
pub fn chars_of(s: &str) -> (r: Vec<char>)
    ensures
        r@ == s@,
{
    let mut out: Vec<char> = Vec::new();
    for c in it: s.chars()
        invariant
            out@ == it.seq().take(it.index() as int),
    {
        out.push(c);
    }
    out
}

/// The string spelled by a character slice.
pub fn string_of(v: &[char]) -> (r: String)
    ensures
        r@ == v@,
{
    let mut s = String::new();
    let mut i: usize = 0;
    while i < v.len()
        invariant
            i <= v.len(),
            s@ == v@.take(i as int),
        decreases v.len() - i,
    {
        push_char(&mut s, v[i]);
        assert(v@.take(i as int).push(v@[i as int]) =~= v@.take(i + 1));
        i += 1;
    }
    assert(v@.take(v.len() as int) =~= v@);
    s
}

/// Count of leading whitespace characters.
pub fn ws_count_exec(s: &[char]) -> (n: usize)
    ensures
        n == ws_count(s@),
{
    let mut i: usize = 0;
    assert(s@.skip(0) =~= s@);
    while i < s.len() && is_ws_char(s[i])
        invariant
            i <= s.len(),
            ws_count(s@) == i + ws_count(s@.skip(i as int)),
        decreases s.len() - i,
    {
        assert(s@.skip(i as int).drop_first() =~= s@.skip(i + 1));
        i += 1;
    }
    if i < s.len() {
        assert(s@.skip(i as int)[0] == s@[i as int]);
    }
    i
}

/// Count of trailing whitespace characters.
pub fn trailing_ws_count_exec(s: &[char]) -> (n: usize)
    ensures
        n == trailing_ws_count(s@),
{
    let mut k: usize = s.len();
    assert(s@.take(s.len() as int) =~= s@);
    while k > 0 && is_ws_char(s[k - 1])
        invariant
            k <= s.len(),
            trailing_ws_count(s@) == (s.len() - k) + trailing_ws_count(s@.take(k as int)),
        decreases k,
    {
        assert(s@.take(k as int).drop_last() =~= s@.take(k - 1));
        k -= 1;
    }
    if k > 0 {
        assert(s@.take(k as int).last() == s@[k - 1]);
    }
    s.len() - k
}

/// Whether every character is whitespace (`trim().is_empty()`).
pub fn is_blank_exec(s: &[char]) -> (b: bool)
    ensures
        b == is_blank(s@),
{
    let mut i: usize = 0;
    while i < s.len()
        invariant
            i <= s.len(),
            forall|j: int| 0 <= j < i ==> is_ws(#[trigger] s@[j]),
        decreases s.len() - i,
    {
        if !is_ws_char(s[i]) {
            return false;
        }
        i += 1;
    }
    true
}

/// UTF-8 byte width of a character slice.
pub fn width_exec(s: &[char]) -> (n: u128)
    ensures
        n == utf8_width(s@),
{
    let mut i: usize = 0;
    let mut acc: u128 = 0;
    while i < s.len()
        invariant
            i <= s.len(),
            acc == utf8_width(s@.take(i as int)),
            s.len() <= usize::MAX,
        decreases s.len() - i,
    {
        proof {
            lemma_width_bound(s@.take(i as int));
            assert(s@.take(i + 1).drop_last() =~= s@.take(i as int));
        }
        acc = acc + utf8_len_exec(s[i]);
        i += 1;
    }
    assert(s@.take(s.len() as int) =~= s@);
    acc
}

/// Indentation (bytes of leading whitespace) of a line.
pub fn indent_exec(s: &[char]) -> (n: u128)
    ensures
        n == indent(s@),
{
    let k = ws_count_exec(s);
    proof {
        lemma_ws_count_bound(s@);
    }
    let head = slice_prefix(s, k);
    width_exec(&head)
}

/// The first `n` characters, copied.
pub fn slice_prefix(s: &[char], n: usize) -> (r: Vec<char>)
    requires
        n <= s.len(),
    ensures
        r@ == s@.take(n as int),
{
    let mut out: Vec<char> = Vec::new();
    let mut i: usize = 0;
    while i < n
        invariant
            i <= n <= s.len(),
            out@ == s@.take(i as int),
        decreases n - i,
    {
        out.push(s[i]);
        assert(s@.take(i as int).push(s@[i as int]) =~= s@.take(i + 1));
        i += 1;
    }
    out
}

/// The characters from `from` up to `to`, copied.
pub fn slice_range(s: &[char], from: usize, to: usize) -> (r: Vec<char>)
    requires
        from <= to <= s.len(),
    ensures
        r@ == s@.subrange(from as int, to as int),
{
    let mut out: Vec<char> = Vec::new();
    let mut i: usize = from;
    while i < to
        invariant
            from <= i <= to <= s.len(),
            out@ == s@.subrange(from as int, i as int),
        decreases to - i,
    {
        out.push(s[i]);
        assert(s@.subrange(from as int, i as int).push(s@[i as int]) =~= s@.subrange(
            from as int,
            i + 1,
        ));
        i += 1;
    }
    out
}

/// `str::trim_start`, on characters.
pub fn trim_start_exec(s: &[char]) -> (r: Vec<char>)
    ensures
        r@ == trim_start(s@),
{
    let k = ws_count_exec(s);
    proof {
        lemma_ws_count_bound(s@);
    }
    slice_range(s, k, s.len())
}

/// `str::trim_end`, on characters.
pub fn trim_end_exec(s: &[char]) -> (r: Vec<char>)
    ensures
        r@ == trim_end(s@),
{
    let k = trailing_ws_count_exec(s);
    proof {
        lemma_trailing_bound(s@);
    }
    slice_prefix(s, s.len() - k)
}

/// `str::trim`, on characters.
pub fn trim_exec(s: &[char]) -> (r: Vec<char>)
    ensures
        r@ == trim(s@),
{
    let a = trim_start_exec(s);
    trim_end_exec(&a)
}

/// `str::starts_with`, on characters.
pub fn starts_with_exec(s: &[char], p: &[char]) -> (b: bool)
    ensures
        b == starts_with(s@, p@),
{
    if p.len() > s.len() {
        return false;
    }
    let mut i: usize = 0;
    while i < p.len()
        invariant
            i <= p.len() <= s.len(),
            forall|j: int| 0 <= j < i ==> s@[j] == p@[j],
        decreases p.len() - i,
    {
        if s[i] != p[i] {
            assert(s@.take(p.len() as int)[i as int] != p@[i as int]);
            return false;
        }
        i += 1;
    }
    assert(s@.take(p.len() as int) =~= p@);
    true
}

/// `str::ends_with`, on characters.
pub fn ends_with_exec(s: &[char], p: &[char]) -> (b: bool)
    ensures
        b == ends_with(s@, p@),
{
    if p.len() > s.len() {
        return false;
    }
    let off = s.len() - p.len();
    let mut i: usize = 0;
    while i < p.len()
        invariant
            i <= p.len() <= s.len(),
            off == s.len() - p.len(),
            forall|j: int| 0 <= j < i ==> s@[off + j] == p@[j],
        decreases p.len() - i,
    {
        if s[off + i] != p[i] {
            assert(s@.skip(off as int)[i as int] != p@[i as int]);
            return false;
        }
        i += 1;
    }
    assert(s@.skip(off as int) =~= p@);
    true
}

/// Whether two character slices are equal.
pub fn chars_eq(a: &[char], b: &[char]) -> (r: bool)
    ensures
        r == (a@ == b@),
{
    if a.len() != b.len() {
        return false;
    }
    let mut i: usize = 0;
    while i < a.len()
        invariant
            i <= a.len() == b.len(),
            forall|j: int| 0 <= j < i ==> a@[j] == b@[j],
        decreases a.len() - i,
    {
        if a[i] != b[i] {
            return false;
        }
        i += 1;
    }
    assert(a@ =~= b@);
    true
}

/// `n` spaces.
pub fn spaces_exec(n: u128) -> (r: Vec<char>)
    ensures
        r@ == spaces(n as nat),
{
    let mut out: Vec<char> = Vec::new();
    let mut i: u128 = 0;
    while i < n
        invariant
            i <= n,
            out@ == spaces(i as nat),
        decreases n - i,
    {
        out.push(' ');
        assert(spaces(i as nat).push(' ') =~= spaces((i + 1) as nat));
        i += 1;
    }
    out
}

/// Concatenation of two character slices.
pub fn concat_chars(a: &[char], b: &[char]) -> (r: Vec<char>)
    ensures
        r@ == a@ + b@,
{
    let mut out = slice_prefix(a, a.len());
    let mut i: usize = 0;
    assert(a@.take(a.len() as int) =~= a@);
    while i < b.len()
        invariant
            i <= b.len(),
            out@ == a@ + b@.take(i as int),
        decreases b.len() - i,
    {
        out.push(b[i]);
        assert(a@ + b@.take(i as int).push(b@[i as int]) =~= a@ + b@.take(i + 1));
        i += 1;
    }
    assert(b@.take(b.len() as int) =~= b@);
    out
}

/// The concatenation of two texts.
pub fn concat_str(a: &str, b: &str) -> (r: String)
    ensures
        r@ == a@ + b@,
{
    string_of(&concat_chars(&chars_of(a), &chars_of(b)))
}

} // verus!

verus! {

/// The character sequences of a list of lines.
pub open spec fn views(lines: Seq<String>) -> Seq<Seq<char>> {
    lines.map_values(|l: String| l@)
}

/// A line index range `[start, end)` read as integers.
pub open spec fn range_view(r: Option<(usize, usize)>) -> Option<(int, int)> {
    match r {
        Some((s, e)) => Some((s as int, e as int)),
        None => None,
    }
}

/// The characters of line `i`.
pub fn line_chars(lines: &[String], i: usize) -> (r: Vec<char>)
    requires
        i < lines.len(),
    ensures
        r@ == views(lines@)[i as int],
{
    chars_of(lines[i].as_str())
}

} // verus!

verus! {

/// Viewing commutes with `push`.
pub proof fn lemma_views_push(s: Seq<String>, x: String)
    ensures
        views(s.push(x)) == views(s).push(x@),
{
    assert forall|k: int| 0 <= k < s.len() + 1 implies #[trigger] views(s.push(x))[k] == views(
        s,
    ).push(x@)[k] by {
        if k < s.len() {
            assert(views(s)[k] == s[k]@);
        }
    }
    assert(views(s.push(x)) =~= views(s).push(x@));
}

/// A copy of the lines.
pub fn copy_lines(v: &[String]) -> (r: Vec<String>)
    ensures
        views(r@) == views(v@),
{
    let mut out: Vec<String> = Vec::new();
    let mut i: usize = 0;
    while i < v.len()
        invariant
            i <= v.len(),
            views(out@) == views(v@).take(i as int),
        decreases v.len() - i,
    {
        let ghost before = out@;
        let s = v[i].clone();
        out.push(s);
        proof {
            lemma_views_push(before, s);
        }
        assert(views(out@) =~= views(v@).take(i + 1));
        i += 1;
    }
    assert(views(v@).take(i as int) =~= views(v@));
    out
}

/// The lines with `[s, e)` cut out, everything else kept in order.
pub fn without_range(lines: Vec<String>, s: usize, e: usize) -> (r: Vec<String>)
    requires
        s <= e <= lines.len(),
    ensures
        views(r@) == views(lines@).take(s as int) + views(lines@).skip(e as int),
{
    let mut out: Vec<String> = Vec::new();
    let mut i: usize = 0;
    while i < s
        invariant
            s <= e <= lines.len(),
            i <= s,
            views(out@) == views(lines@).take(i as int),
        decreases s - i,
    {
        let ghost before = out@;
        out.push(lines[i].clone());
        proof {
            lemma_views_push(before, lines@[i as int]);
        }
        assert(views(out@) =~= views(lines@).take(i + 1));
        i += 1;
    }
    let mut j: usize = e;
    while j < lines.len()
        invariant
            s <= e <= lines.len(),
            e <= j <= lines.len(),
            views(out@) == views(lines@).take(s as int) + views(lines@).subrange(e as int, j as int),
        decreases lines.len() - j,
    {
        let ghost before = out@;
        out.push(lines[j].clone());
        proof {
            lemma_views_push(before, lines@[j as int]);
        }
        assert(views(out@) =~= views(lines@).take(s as int) + views(lines@).subrange(e as int, j + 1));
        j += 1;
    }
    assert(views(out@) =~= views(lines@).take(s as int) + views(lines@).skip(e as int));
    out
}

/// `lines.join("\n")`.
pub open spec fn join_lines(lines: Seq<Seq<char>>) -> Seq<char>
    decreases lines.len(),
{
    if lines.len() == 0 {
        Seq::empty()
    } else if lines.len() == 1 {
        lines[0]
    } else {
        join_lines(lines.drop_last()) + seq!['\n'] + lines.last()
    }
}

/// The text of a line list as written to disk: joined with newlines, with a
/// final newline unless the text is empty.
pub open spec fn file_text(lines: Seq<Seq<char>>) -> Seq<char> {
    let j = join_lines(lines);
    if j.len() > 0 {
        j.push('\n')
    } else {
        j
    }
}

/// The file text of a line list.
pub fn render_lines(lines: &[String]) -> (r: String)
    ensures
        r@ == file_text(views(lines@)),
{
    let ghost lv = views(lines@);
    let mut out: Vec<char> = Vec::new();
    let mut i: usize = 0;
    while i < lines.len()
        invariant
            i <= lines.len(),
            lv == views(lines@),
            out@ == join_lines(lv.take(i as int)),
        decreases lines.len() - i,
    {
        let l = line_chars(lines, i);
        assert(lv.take(i + 1).drop_last() =~= lv.take(i as int));
        if i > 0 {
            out.push('\n');
        } else {
            assert(lv.take(1) =~= seq![lv[0]]);
        }
        out = concat_chars(&out, &l);
        i += 1;
    }
    assert(lv.take(lines.len() as int) =~= lv);
    if out.len() > 0 {
        out.push('\n');
    }
    string_of(&out)
}

/// Lexicographic order of character sequences, by code point: the order
/// `String`'s `Ord` gives.
pub open spec fn lex_lt(a: Seq<char>, b: Seq<char>) -> bool
    decreases a.len(),
{
    if a.len() == 0 {
        b.len() > 0
    } else if b.len() == 0 {
        false
    } else if a[0] != b[0] {
        (a[0] as u32) < (b[0] as u32)
    } else {
        lex_lt(a.drop_first(), b.drop_first())
    }
}

proof fn lemma_lex_irrefl(a: Seq<char>)
    ensures
        !lex_lt(a, a),
    decreases a.len(),
{
    if a.len() > 0 {
        lemma_lex_irrefl(a.drop_first());
    }
}

proof fn lemma_lex_asym(a: Seq<char>, b: Seq<char>)
    ensures
        lex_lt(a, b) ==> !lex_lt(b, a),
    decreases a.len(),
{
    if a.len() > 0 && b.len() > 0 {
        lemma_lex_asym(a.drop_first(), b.drop_first());
    }
}

pub proof fn lemma_char_code(c: char)
    ensures
        (c as u32) as int == c as int,
{
}

proof fn lemma_lex_total(a: Seq<char>, b: Seq<char>)
    ensures
        a != b ==> lex_lt(a, b) || lex_lt(b, a),
    decreases a.len(),
{
    if a.len() > 0 && b.len() > 0 {
        lemma_lex_total(a.drop_first(), b.drop_first());
        lemma_char_code(a[0]);
        lemma_char_code(b[0]);
        if a[0] == b[0] && a.drop_first() == b.drop_first() {
            assert(a =~= seq![a[0]] + a.drop_first());
            assert(b =~= seq![b[0]] + b.drop_first());
        }
    }
    if a.len() == 0 && b.len() == 0 {
        assert(a =~= b);
    }
}

proof fn lemma_lex_trans(a: Seq<char>, b: Seq<char>, c: Seq<char>)
    ensures
        lex_lt(a, b) && lex_lt(b, c) ==> lex_lt(a, c),
    decreases a.len(),
{
    if a.len() > 0 && b.len() > 0 && c.len() > 0 {
        lemma_lex_trans(a.drop_first(), b.drop_first(), c.drop_first());
    }
}

/// `lex_lt` is a strict total order.
pub proof fn lemma_lex_order(a: Seq<char>, b: Seq<char>, c: Seq<char>)
    ensures
        !lex_lt(a, a),
        lex_lt(a, b) ==> !lex_lt(b, a),
        a != b ==> lex_lt(a, b) || lex_lt(b, a),
        lex_lt(a, b) && lex_lt(b, c) ==> lex_lt(a, c),
{
    lemma_lex_irrefl(a);
    lemma_lex_asym(a, b);
    lemma_lex_total(a, b);
    lemma_lex_trans(a, b, c);
}

/// `lex_lt` on character slices.
pub fn lex_lt_exec(a: &[char], b: &[char]) -> (r: bool)
    ensures
        r == lex_lt(a@, b@),
{
    let mut i: usize = 0;
    assert(a@.skip(0) =~= a@);
    assert(b@.skip(0) =~= b@);
    while i < a.len() && i < b.len()
        invariant
            i <= a.len(),
            i <= b.len(),
            lex_lt(a@, b@) == lex_lt(a@.skip(i as int), b@.skip(i as int)),
        decreases a.len() - i,
    {
        assert(a@.skip(i as int).drop_first() =~= a@.skip(i + 1));
        assert(b@.skip(i as int).drop_first() =~= b@.skip(i + 1));
        if a[i] != b[i] {
            return (a[i] as u32) < (b[i] as u32);
        }
        i += 1;
    }
    i < b.len()
}

} // verus!
