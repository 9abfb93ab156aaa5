//! Line-level editing of a `cordis.patch.yml` written as `- id:` blocks: one
//! top-level list item per plugin, keyed by its `- id:` line. Everything
//! outside the one plugin block stays byte-for-byte as it was, which a YAML
//! round-trip would not guarantee.

use vstd::prelude::*;
use crate::text::{without_range, 
    chars_eq, chars_of, concat_chars, indent, indent_exec, lemma_width_bound, lemma_ws_count_bound, ws_count, is_blank, is_blank_exec, line_chars,
    range_view, slice_range, spaces, spaces_exec, starts_with, starts_with_exec, string_of, trim,
    trim_exec, trim_start, trim_start_exec, views,
};

verus! {

/* ------------------------------- spec ------------------------------- */

pub open spec fn is_quote(c: char) -> bool {
    c == '\'' || c == '"'
}

pub open spec fn lead_quotes(s: Seq<char>) -> nat
    decreases s.len(),
{
    if s.len() > 0 && is_quote(s[0]) {
        1 + lead_quotes(s.drop_first())
    } else {
        0
    }
}

pub open spec fn trail_quotes(s: Seq<char>) -> nat
    decreases s.len(),
{
    if s.len() > 0 && is_quote(s.last()) {
        1 + trail_quotes(s.drop_last())
    } else {
        0
    }
}

/// `trim_matches(|c| c == '\'' || c == '"')`: every leading and trailing
/// quote character removed.
pub open spec fn quote_trim(s: Seq<char>) -> Seq<char> {
    if lead_quotes(s) >= s.len() {
        Seq::empty()
    } else {
        s.subrange(lead_quotes(s) as int, s.len() - trail_quotes(s))
    }
}

pub open spec fn id_prefix() -> Seq<char> {
    seq!['-', ' ', 'i', 'd', ':']
}

pub open spec fn disabled_prefix() -> Seq<char> {
    seq!['d', 'i', 's', 'a', 'b', 'l', 'e', 'd', ':']
}

pub open spec fn true_word() -> Seq<char> {
    seq!['t', 'r', 'u', 'e']
}

/// The id a `- id: <id>` line declares (quotes stripped), if it is one.
pub open spec fn row_id(line: Seq<char>) -> Option<Seq<char>> {
    let t = trim_start(line);
    if starts_with(t, id_prefix()) {
        Some(quote_trim(trim(t.skip(id_prefix().len() as int))))
    } else {
        None
    }
}

/// Whether a line opens the block of `id`.
pub open spec fn is_id_row(line: Seq<char>, id: Seq<char>) -> bool {
    row_id(line) == Some(id)
}

/// The first line at or after `i` that opens the block of `id`.
pub open spec fn first_row_from(lines: Seq<Seq<char>>, id: Seq<char>, i: int) -> Option<int>
    decreases lines.len() - i,
{
    if i < 0 || i >= lines.len() {
        None
    } else if is_id_row(lines[i], id) {
        Some(i)
    } else {
        first_row_from(lines, id, i + 1)
    }
}

/// The first line at or after `j` that is non-blank and indented at most
/// `base`, or the end of the document.
pub open spec fn end_scan(lines: Seq<Seq<char>>, base: nat, j: int) -> int
    decreases lines.len() - j,
{
    if j < 0 || j >= lines.len() {
        lines.len() as int
    } else if !is_blank(lines[j]) && indent(lines[j]) <= base {
        j
    } else {
        end_scan(lines, base, j + 1)
    }
}

/// Where the item starting at `start` ends: the next sibling (or anything
/// indented at or above it), never a nested list item.
pub open spec fn block_end(lines: Seq<Seq<char>>, start: int) -> int {
    end_scan(lines, indent(lines[start]), start + 1)
}

/// Line range `[start, end)` of the `- id: <id>` block.
pub open spec fn block_of(lines: Seq<Seq<char>>, id: Seq<char>) -> Option<(int, int)> {
    match first_row_from(lines, id, 0) {
        Some(s) => Some((s, block_end(lines, s))),
        None => None,
    }
}

/// Indentation of a block's direct children: its first non-blank line after
/// the opener, or two deeper than the opener when it has none.
pub open spec fn child_indent_from(lines: Seq<Seq<char>>, r0: int, r1: int, j: int) -> nat
    decreases r1 - j,
{
    if j >= r1 || j < 0 || j >= lines.len() {
        indent(lines[r0]) + 2
    } else if !is_blank(lines[j]) {
        indent(lines[j])
    } else {
        child_indent_from(lines, r0, r1, j + 1)
    }
}

pub open spec fn child_indent_spec(lines: Seq<Seq<char>>, r0: int, r1: int) -> nat {
    child_indent_from(lines, r0, r1, r0 + 1)
}

/// A `disabled:` line at exactly `ci`.
pub open spec fn is_disabled_key(line: Seq<char>, ci: nat) -> bool {
    indent(line) == ci && starts_with(trim_start(line), disabled_prefix())
}

/// A `disabled: true` line at exactly `ci`.
pub open spec fn is_disabled_true(line: Seq<char>, ci: nat) -> bool {
    is_disabled_key(line, ci) && trim(trim_start(line).skip(disabled_prefix().len() as int))
        == true_word()
}

/// The first `disabled:` key at the block's child level in `(r0, r1)`.
pub open spec fn disabled_key_from(lines: Seq<Seq<char>>, ci: nat, j: int, r1: int) -> Option<
    int,
>
    decreases r1 - j,
{
    if j >= r1 || j < 0 || j >= lines.len() {
        None
    } else if is_disabled_key(lines[j], ci) {
        Some(j)
    } else {
        disabled_key_from(lines, ci, j + 1, r1)
    }
}

/// Whether the block `[r0, r1)` carries `disabled: true` at its own level.
pub open spec fn block_flagged(lines: Seq<Seq<char>>, r0: int, r1: int) -> bool {
    exists|j: int|
        r0 < j < r1 && #[trigger] is_disabled_true(lines[j], child_indent_spec(lines, r0, r1))
}

/// Whether line `i` opens the first block of a non-empty id that is
/// flagged disabled.
pub open spec fn disabled_at(lines: Seq<Seq<char>>, i: int) -> bool {
    match row_id(lines[i]) {
        Some(id) => id.len() > 0 && first_row_from(lines, id, 0) == Some(i) && block_flagged(
            lines,
            i,
            block_end(lines, i),
        ),
        None => false,
    }
}

/// Ids flagged `disabled: true` among the first `n` lines, in line order.
pub open spec fn disabled_ids_upto(lines: Seq<Seq<char>>, n: int) -> Seq<Seq<char>>
    decreases n,
{
    if n <= 0 || n > lines.len() {
        Seq::empty()
    } else if disabled_at(lines, n - 1) {
        disabled_ids_upto(lines, n - 1).push(row_id(lines[n - 1])->0)
    } else {
        disabled_ids_upto(lines, n - 1)
    }
}

/// `disabled: true` indented by `n` bytes of spaces.
pub open spec fn disabled_line(n: nat) -> Seq<char> {
    spaces(n) + disabled_prefix() + seq![' '] + true_word()
}

/// The lines after writing the disabled flag into the block `[r0, r1)`.
pub open spec fn flag_edit(lines: Seq<Seq<char>>, r0: int, r1: int, disabled: bool) -> Seq<
    Seq<char>,
> {
    let ci = child_indent_spec(lines, r0, r1);
    match (disabled, disabled_key_from(lines, ci, r0 + 1, r1)) {
        (false, Some(i)) => lines.remove(i),
        (true, Some(i)) => lines.update(i, disabled_line(ci)),
        (true, None) => lines.insert(r0 + 1, disabled_line(ci)),
        (false, None) => lines,
    }
}

/// The two or three lines that declare a fresh plugin block.
pub open spec fn new_block(id: Seq<char>, disabled: bool) -> Seq<Seq<char>> {
    let base = seq![id_prefix() + seq![' '] + id, seq![' ', ' '] + name_prefix() + seq![' '] + id];
    if disabled {
        base.push(spaces(2) + disabled_prefix() + seq![' '] + true_word())
    } else {
        base
    }
}

pub open spec fn name_prefix() -> Seq<char> {
    seq!['n', 'a', 'm', 'e', ':']
}

/// `lines` with one blank separator before an appended block, unless the
/// document is empty or already ends in a blank line.
pub open spec fn with_separator(lines: Seq<Seq<char>>) -> Seq<Seq<char>> {
    if lines.len() > 0 && !is_blank(lines.last()) {
        lines.push(Seq::empty())
    } else {
        lines
    }
}

/// The new patch lines for `set disabled`, or `None` when nothing is written.
pub open spec fn set_disabled_spec(lines: Seq<Seq<char>>, id: Seq<char>, disabled: bool) -> Option<
    Seq<Seq<char>>,
> {
    match block_of(lines, id) {
        Some((s, e)) => Some(flag_edit(lines, s, e, disabled)),
        None => if disabled {
            Some(with_separator(lines) + new_block(id, true))
        } else {
            None
        },
    }
}

/// The new patch lines for a registration, or `None` when the block exists.
pub open spec fn register_spec(lines: Seq<Seq<char>>, id: Seq<char>, disabled: Option<bool>) -> Option<
    Seq<Seq<char>>,
> {
    match block_of(lines, id) {
        Some(_) => None,
        None => Some(with_separator(lines) + new_block(id, disabled == Some(true))),
    }
}

/// The patch lines with the plugin's block removed, or `None` when absent.
pub open spec fn remove_spec(lines: Seq<Seq<char>>, id: Seq<char>) -> Option<Seq<Seq<char>>> {
    match block_of(lines, id) {
        Some((s, e)) => Some(lines.take(s) + lines.skip(e)),
        None => None,
    }
}

/* ------------------------------ lemmas ------------------------------ */

proof fn lemma_lead_quotes(s: Seq<char>)
    ensures
        lead_quotes(s) <= s.len(),
        forall|i: int| 0 <= i < lead_quotes(s) ==> is_quote(#[trigger] s[i]),
        lead_quotes(s) < s.len() ==> !is_quote(s[lead_quotes(s) as int]),
    decreases s.len(),
{
    if s.len() > 0 && is_quote(s[0]) {
        lemma_lead_quotes(s.drop_first());
        assert forall|i: int| 0 <= i < lead_quotes(s) implies is_quote(#[trigger] s[i]) by {
            if i > 0 {
                assert(s[i] == s.drop_first()[i - 1]);
            }
        }
    }
}

proof fn lemma_trail_quotes(s: Seq<char>)
    ensures
        trail_quotes(s) <= s.len(),
        forall|k: int| 0 <= k < trail_quotes(s) ==> is_quote(#[trigger] s[s.len() - 1 - k]),
    decreases s.len(),
{
    if s.len() > 0 && is_quote(s.last()) {
        lemma_trail_quotes(s.drop_last());
        assert forall|k: int| 0 <= k < trail_quotes(s) implies is_quote(
            #[trigger] s[s.len() - 1 - k],
        ) by {
            if k > 0 {
                assert(s[s.len() - 1 - k] == s.drop_last()[s.drop_last().len() - 1 - (k - 1)]);
            }
        }
    }
}

proof fn lemma_quote_bounds(s: Seq<char>)
    ensures
        lead_quotes(s) < s.len() ==> lead_quotes(s) + trail_quotes(s) < s.len(),
{
    lemma_lead_quotes(s);
    lemma_trail_quotes(s);
    if lead_quotes(s) < s.len() && lead_quotes(s) + trail_quotes(s) >= s.len() {
        let k = s.len() - 1 - lead_quotes(s);
        assert(0 <= k < trail_quotes(s));
        assert(is_quote(s[s.len() - 1 - k]));
    }
}

/// The end scan lands after its start and within the document.
pub proof fn lemma_end_scan(lines: Seq<Seq<char>>, base: nat, j: int)
    requires
        0 <= j,
    ensures
        j <= end_scan(lines, base, j) <= lines.len() || (j > lines.len() && end_scan(
            lines,
            base,
            j,
        ) == lines.len()),
        forall|k: int|
            j <= k < end_scan(lines, base, j) ==> is_blank(#[trigger] lines[k]) || indent(lines[k])
                > base,
        end_scan(lines, base, j) < lines.len() ==> !is_blank(lines[end_scan(lines, base, j)])
            && indent(lines[end_scan(lines, base, j)]) <= base,
    decreases lines.len() - j,
{
    if j < lines.len() && !(!is_blank(lines[j]) && indent(lines[j]) <= base) {
        lemma_end_scan(lines, base, j + 1);
    }
}

pub proof fn lemma_first_row(lines: Seq<Seq<char>>, id: Seq<char>, i: int)
    requires
        0 <= i,
    ensures
        match first_row_from(lines, id, i) {
            Some(s) => i <= s < lines.len() && is_id_row(lines[s], id) && forall|k: int|
                i <= k < s ==> !is_id_row(#[trigger] lines[k], id),
            None => forall|k: int| i <= k < lines.len() ==> !is_id_row(#[trigger] lines[k], id),
        },
    decreases lines.len() - i,
{
    if i < lines.len() && !is_id_row(lines[i], id) {
        lemma_first_row(lines, id, i + 1);
    }
}

/// The block of a plugin is its first `- id:` line for that id, and it ends
/// at the first following line that is non-blank and indented at or above the
/// opener: a nested list item inside the block never ends it.
pub proof fn lemma_block_of(lines: Seq<Seq<char>>, id: Seq<char>)
    ensures
        match block_of(lines, id) {
            Some((s, e)) => {
                &&& 0 <= s < e <= lines.len()
                &&& is_id_row(lines[s], id)
                &&& forall|k: int| 0 <= k < s ==> !is_id_row(#[trigger] lines[k], id)
                &&& forall|k: int|
                    s < k < e ==> is_blank(#[trigger] lines[k]) || indent(lines[k]) > indent(
                        lines[s],
                    )
                &&& e < lines.len() ==> !is_blank(lines[e]) && indent(lines[e]) <= indent(lines[s])
            },
            None => forall|k: int| 0 <= k < lines.len() ==> !is_id_row(#[trigger] lines[k], id),
        },
{
    lemma_first_row(lines, id, 0);
    if let Some(s) = first_row_from(lines, id, 0) {
        lemma_end_scan(lines, indent(lines[s]), s + 1);
    }
}

/* ------------------------------- exec ------------------------------- */

fn lit_id_prefix() -> (r: Vec<char>)
    ensures
        r@ == id_prefix(),
{
    let r = vec!['-', ' ', 'i', 'd', ':'];
    assert(r@ =~= id_prefix());
    r
}

fn lit_disabled_prefix() -> (r: Vec<char>)
    ensures
        r@ == disabled_prefix(),
{
    let r = vec!['d', 'i', 's', 'a', 'b', 'l', 'e', 'd', ':'];
    assert(r@ =~= disabled_prefix());
    r
}

fn lit_true() -> (r: Vec<char>)
    ensures
        r@ == true_word(),
{
    let r = vec!['t', 'r', 'u', 'e'];
    assert(r@ =~= true_word());
    r
}

fn lead_quotes_exec(s: &[char]) -> (n: usize)
    ensures
        n == lead_quotes(s@),
{
    let mut i: usize = 0;
    assert(s@.skip(0) =~= s@);
    while i < s.len() && (s[i] == '\'' || s[i] == '"')
        invariant
            i <= s.len(),
            lead_quotes(s@) == i + lead_quotes(s@.skip(i as int)),
        decreases s.len() - i,
    {
        assert(s@.skip(i as int).drop_first() =~= s@.skip(i + 1));
        i += 1;
    }
    if i < s.len() {
        assert(s@.skip(i as int)[0] == s@[i as int]);
    }
    i
}

fn trail_quotes_exec(s: &[char]) -> (n: usize)
    ensures
        n == trail_quotes(s@),
{
    let mut k: usize = s.len();
    assert(s@.take(s.len() as int) =~= s@);
    while k > 0 && (s[k - 1] == '\'' || s[k - 1] == '"')
        invariant
            k <= s.len(),
            trail_quotes(s@) == (s.len() - k) + trail_quotes(s@.take(k as int)),
        decreases k,
    {
        assert(s@.take(k as int).drop_last() =~= s@.take(k - 1));
        k -= 1;
    }
    if k > 0 {
        assert(s@.take(k as int).last() == s@[k - 1]);
    }
    s.len() - k
}

/// `trim_matches` of both quote characters.
pub fn quote_trim_exec(s: &[char]) -> (r: Vec<char>)
    ensures
        r@ == quote_trim(s@),
{
    let lead = lead_quotes_exec(s);
    if lead >= s.len() {
        return Vec::new();
    }
    let trail = trail_quotes_exec(s);
    proof {
        lemma_quote_bounds(s@);
    }
    slice_range(s, lead, s.len() - trail)
}

/// The id a `- id:` line declares.
pub fn row_id_exec(line: &[char]) -> (r: Option<Vec<char>>)
    ensures
        match r {
            Some(v) => row_id(line@) == Some(v@),
            None => row_id(line@).is_none(),
        },
{
    let t = trim_start_exec(line);
    let p = lit_id_prefix();
    if starts_with_exec(&t, &p) {
        let rest = slice_range(&t, p.len(), t.len());
        let tr = trim_exec(&rest);
        Some(quote_trim_exec(&tr))
    } else {
        None
    }
}

fn is_id_row_exec(line: &[char], id: &[char]) -> (b: bool)
    ensures
        b == is_id_row(line@, id@),
{
    match row_id_exec(line) {
        Some(v) => chars_eq(&v, id),
        None => false,
    }
}

/// `str::len() - str::trim_start().len()` of a line: its indentation in bytes.
pub fn indent_of(line: &str) -> (n: u128)
    ensures
        n == indent(line@),
{
    let c = chars_of(line);
    indent_exec(&c)
}

fn end_scan_exec(lines: &[String], base: u128, from: usize) -> (e: usize)
    requires
        from <= lines.len(),
    ensures
        e == end_scan(views(lines@), base as nat, from as int),
{
    let mut j = from;
    while j < lines.len()
        invariant
            from <= j <= lines.len(),
            end_scan(views(lines@), base as nat, from as int) == end_scan(
                views(lines@),
                base as nat,
                j as int,
            ),
        decreases lines.len() - j,
    {
        let lj = line_chars(lines, j);
        if !is_blank_exec(&lj) && indent_exec(&lj) <= base {
            return j;
        }
        j += 1;
    }
    j
}

/// Line range `[start, end)` of the `- id: <id>` block in a top-level list.
///
/// The block ends at the next non-empty line indented at or above the item's
/// own level, so a nested sequence item (`      - a` under `config:`) never
/// cuts it in half.
pub fn find_block(lines: &[String], id: &str) -> (r: Option<(usize, usize)>)
    ensures
        range_view(r) == block_of(views(lines@), id@),
{
    let idc = chars_of(id);
    let mut i: usize = 0;
    while i < lines.len()
        invariant
            i <= lines.len(),
            idc@ == id@,
            first_row_from(views(lines@), id@, 0) == first_row_from(views(lines@), id@, i as int),
        decreases lines.len() - i,
    {
        let line = line_chars(lines, i);
        if is_id_row_exec(&line, &idc) {
            let base = indent_exec(&line);
            let e = end_scan_exec(lines, base, i + 1);
            return Some((i, e));
        }
        i += 1;
    }
    None
}

/// Indentation of the block's direct children, so keys are read and written
/// at the right level instead of matching something nested deeper.
pub fn child_indent(lines: &[String], range: (usize, usize)) -> (n: u128)
    requires
        range.0 < lines.len(),
        range.1 <= lines.len(),
    ensures
        n == child_indent_spec(views(lines@), range.0 as int, range.1 as int),
{
    let (r0, r1) = range;
    let mut j = r0 + 1;
    while j < r1
        invariant
            range == (r0, r1),
            r0 < j,
            r0 < lines.len(),
            r1 <= lines.len(),
            child_indent_spec(views(lines@), r0 as int, r1 as int) == child_indent_from(
                views(lines@),
                r0 as int,
                r1 as int,
                j as int,
            ),
        decreases r1 - j,
    {
        let lj = line_chars(lines, j);
        if !is_blank_exec(&lj) {
            assert(child_indent_from(views(lines@), r0 as int, r1 as int, j as int) == indent(
                lj@,
            ));
            return indent_exec(&lj);
        }
        j += 1;
    }
    let l0 = line_chars(lines, r0);
    let ind = indent_exec(&l0);
    proof {
        lemma_ws_count_bound(l0@);
        lemma_width_bound(l0@.take(ws_count(l0@) as int));
    }
    ind + 2
}

fn is_disabled_key_exec(line: &[char], ci: u128) -> (b: bool)
    ensures
        b == is_disabled_key(line@, ci as nat),
{
    if indent_exec(line) != ci {
        return false;
    }
    let t = trim_start_exec(line);
    starts_with_exec(&t, &lit_disabled_prefix())
}

fn is_disabled_true_exec(line: &[char], ci: u128) -> (b: bool)
    ensures
        b == is_disabled_true(line@, ci as nat),
{
    if !is_disabled_key_exec(line, ci) {
        return false;
    }
    let t = trim_start_exec(line);
    let p = lit_disabled_prefix();
    let rest = slice_range(&t, p.len(), t.len());
    let tr = trim_exec(&rest);
    chars_eq(&tr, &lit_true())
}

/// First `disabled:` key at the child level inside the block.
pub(crate) fn disabled_key_exec(lines: &[String], ci: u128, r0: usize, r1: usize) -> (r: Option<usize>)
    requires
        r0 < r1 <= lines.len(),
    ensures
        match r {
            Some(i) => disabled_key_from(views(lines@), ci as nat, r0 + 1, r1 as int) == Some(
                i as int,
            ) && r0 < i < r1,
            None => disabled_key_from(views(lines@), ci as nat, r0 + 1, r1 as int).is_none(),
        },
{
    let mut j = r0 + 1;
    while j < r1
        invariant
            r0 < j <= r1 || (j == r0 + 1 && r1 == r0 + 1),
            r1 <= lines.len(),
            disabled_key_from(views(lines@), ci as nat, r0 + 1, r1 as int) == disabled_key_from(
                views(lines@),
                ci as nat,
                j as int,
                r1 as int,
            ),
        decreases r1 - j,
    {
        let lj = line_chars(lines, j);
        if is_disabled_key_exec(&lj, ci) {
            return Some(j);
        }
        j += 1;
    }
    None
}

fn block_flagged_exec(lines: &[String], r0: usize, r1: usize) -> (b: bool)
    requires
        r0 < r1 <= lines.len(),
    ensures
        b == block_flagged(views(lines@), r0 as int, r1 as int),
{
    let ci = child_indent(lines, (r0, r1));
    let mut j = r0 + 1;
    while j < r1
        invariant
            r0 < j <= r1,
            r1 <= lines.len(),
            ci == child_indent_spec(views(lines@), r0 as int, r1 as int),
            forall|k: int| r0 < k < j ==> !#[trigger] is_disabled_true(views(lines@)[k], ci as nat),
        decreases r1 - j,
    {
        let lj = line_chars(lines, j);
        if is_disabled_true_exec(&lj, ci) {
            assert(is_disabled_true(views(lines@)[j as int], ci as nat));
            return true;
        }
        j += 1;
    }
    false
}

/// Registry ids flagged `disabled: true` in the patch lines, in document
/// order. A later duplicate block for the same id is ignored: the first one
/// wins.
pub fn disabled_plugin_ids_in(lines: &[String]) -> (r: Vec<String>)
    ensures
        views(r@) == disabled_ids_upto(views(lines@), lines@.len() as int),
{
    let mut out: Vec<String> = Vec::new();
    let mut i: usize = 0;
    while i < lines.len()
        invariant
            i <= lines.len(),
            views(out@) == disabled_ids_upto(views(lines@), i as int),
        decreases lines.len() - i,
    {
        let line = line_chars(lines, i);
        let ghost before = out@;
        match row_id_exec(&line) {
            Some(id) => {
                if id.len() > 0 {
                    let ids = string_of(&id);
                    match find_block(lines, ids.as_str()) {
                        Some((s, e)) => {
                            proof {
                                lemma_block_of(views(lines@), id@);
                            }
                            if s == i && block_flagged_exec(lines, s, e) {
                                out.push(ids);
                                proof {
                                    assert(views(out@) =~= views(before).push(id@));
                                }
                            }
                        },
                        None => {},
                    }
                }
            },
            None => {},
        }
        i += 1;
    }
    out
}

/// The line `disabled: true` indented by `n` spaces.
pub(crate) fn disabled_line_exec(n: u128) -> (r: String)
    ensures
        r@ == disabled_line(n as nat),
{
    let sp = spaces_exec(n);
    let a = concat_chars(&sp, &lit_disabled_prefix());
    let b = concat_chars(&a, &[' ']);
    let c = concat_chars(&b, &lit_true());
    assert(c@ =~= disabled_line(n as nat));
    string_of(&c)
}

/// Writes `disabled: true/false` into the block `[r0, r1)`.
fn apply_flag(lines: Vec<String>, r0: usize, r1: usize, disabled: bool) -> (r: Vec<String>)
    requires
        r0 < r1 <= lines.len(),
    ensures
        views(r@) == flag_edit(views(lines@), r0 as int, r1 as int, disabled),
{
    let ci = child_indent(&lines, (r0, r1));
    let at = disabled_key_exec(&lines, ci, r0, r1);
    let mut lines = lines;
    let ghost old_lines = lines@;
    match (disabled, at) {
        (false, Some(i)) => {
            lines.remove(i);
            assert(views(lines@) =~= views(old_lines).remove(i as int));
        },
        (true, Some(i)) => {
            let l = disabled_line_exec(ci);
            lines.set(i, l);
            assert(views(lines@) =~= views(old_lines).update(i as int, disabled_line(ci as nat)));
        },
        (true, None) => {
            let l = disabled_line_exec(ci);
            lines.insert(r0 + 1, l);
            assert(views(lines@) =~= views(old_lines).insert(r0 + 1, disabled_line(ci as nat)));
        },
        (false, None) => {},
    }
    lines
}

/// Appends a blank separator when the document does not already end in one.
pub(crate) fn push_separator(lines: &mut Vec<String>)
    ensures
        views(final(lines)@) == with_separator(views(old(lines)@)),
{
    let n = lines.len();
    if n > 0 {
        let last = line_chars(lines, n - 1);
        if !is_blank_exec(&last) {
            lines.push(String::new());
            assert(views(lines@) =~= views(old(lines)@).push(Seq::empty()));
        }
    }
}

/// Appends the `- id:` / `name:` (/ `disabled: true`) lines of a new block.
fn push_block(lines: &mut Vec<String>, id: &str, disabled: bool)
    ensures
        views(final(lines)@) == views(old(lines)@) + new_block(id@, disabled),
{
    let idc = chars_of(id);
    let sp1 = vec![' '];
    let sp2 = vec![' ', ' '];
    let name = vec!['n', 'a', 'm', 'e', ':'];
    assert(sp1@ =~= seq![' ']);
    assert(sp2@ =~= seq![' ', ' ']);
    assert(sp2@ =~= spaces(2));
    assert(name@ =~= name_prefix());
    let a = concat_chars(&lit_id_prefix(), &sp1);
    let first = concat_chars(&a, &idc);
    let b = concat_chars(&sp2, &name);
    let b2 = concat_chars(&b, &sp1);
    let second = concat_chars(&b2, &idc);
    let ghost before = lines@;
    let f = string_of(&first);
    let g = string_of(&second);
    lines.push(f);
    lines.push(g);
    assert(views(lines@) =~= views(before) + seq![first@, second@]);
    if disabled {
        let c = concat_chars(&sp2, &lit_disabled_prefix());
        let d = concat_chars(&c, &sp1);
        let third = concat_chars(&d, &lit_true());
        let h = string_of(&third);
        lines.push(h);
        assert(views(lines@) =~= views(before) + seq![first@, second@].push(third@));
    }
}

/// The edit behind enabling or disabling a plugin: `Some(lines)` is the new
/// patch file, `None` means nothing is written (enabling an unregistered
/// plugin is a no-op). An unregistered plugin being disabled gets a block of
/// its own.
pub fn set_plugin_disabled_lines(lines: Vec<String>, registry_id: &str, disabled: bool) -> (r:
    Option<Vec<String>>)
    ensures
        match r {
            Some(v) => set_disabled_spec(views(lines@), registry_id@, disabled) == Some(views(v@)),
            None => set_disabled_spec(views(lines@), registry_id@, disabled).is_none(),
        },
{
    match find_block(&lines, registry_id) {
        Some((s, e)) => {
            proof {
                lemma_block_of(views(lines@), registry_id@);
            }
            Some(apply_flag(lines, s, e, disabled))
        },
        None => {
            if disabled {
                let mut lines = lines;
                push_separator(&mut lines);
                push_block(&mut lines, registry_id, true);
                Some(lines)
            } else {
                None
            }
        },
    }
}

/// The edit behind registering a plugin: the `- id:` block appended when the
/// plugin has none yet; `None` when it is already registered.
pub fn register_lines(lines: Vec<String>, registry_id: &str, disabled: Option<bool>) -> (r: Option<
    Vec<String>,
>)
    ensures
        match r {
            Some(v) => register_spec(views(lines@), registry_id@, disabled) == Some(views(v@)),
            None => register_spec(views(lines@), registry_id@, disabled).is_none(),
        },
{
    if find_block(&lines, registry_id).is_some() {
        return None;
    }
    let mut lines = lines;
    push_separator(&mut lines);
    push_block(&mut lines, registry_id, disabled == Some(true));
    Some(lines)
}

/// The edit behind unregistering a plugin: its block removed, everything
/// else kept; `None` when the plugin has no block.
pub fn remove_block_lines(lines: Vec<String>, registry_id: &str) -> (r: Option<Vec<String>>)
    ensures
        match r {
            Some(v) => remove_spec(views(lines@), registry_id@) == Some(views(v@)),
            None => remove_spec(views(lines@), registry_id@).is_none(),
        },
{
    match find_block(&lines, registry_id) {
        Some((s, e)) => {
            proof {
                lemma_block_of(views(lines@), registry_id@);
            }
            Some(without_range(lines, s, e))
        },
        None => None,
    }
}

} // verus!
