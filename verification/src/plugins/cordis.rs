//! Line-level editing of `cordis.patch.yml` in the shape DSH mounts plugins
//! with: top-level list items, where an `- insert:` item carries one or more
//! plugin rows. Keeping the file byte-stable outside the one plugin row —
//! comments and unrelated entries (including DSH's own) survive untouched,
//! which a YAML round-trip would not guarantee.

use vstd::prelude::*;
use crate::plugins::id_blocks::{
    block_end, disabled_key_exec, disabled_key_from, disabled_line, disabled_line_exec, end_scan,
    lemma_end_scan, push_separator, with_separator,
};
use crate::text::{
    copy_lines, file_text, render_lines, without_range, chars_eq, chars_of, concat_chars, indent, indent_exec, is_blank, is_blank_exec, lemma_views_push,
    lemma_indent_bound, line_chars, slice_range, spaces, spaces_exec, starts_with, starts_with_exec, string_of, trim,
    trim_end, trim_end_exec, trim_exec, trim_start, trim_start_exec, views,
};
use crate::yaml::{parse_yaml_value, yaml_value, YamlScalar, YamlScalarView};

verus! {

/* ------------------------------- spec ------------------------------- */

pub open spec fn dash_space() -> Seq<char> {
    seq!['-', ' ']
}

pub open spec fn insert_opener() -> Seq<char> {
    seq!['-', ' ', 'i', 'n', 's', 'e', 'r', 't', ':']
}

/// A list item line: `- ` after its indentation.
pub open spec fn is_item(line: Seq<char>) -> bool {
    starts_with(trim_start(line), dash_space())
}

/// A line opening an `- insert:` block.
pub open spec fn is_insert(line: Seq<char>) -> bool {
    starts_with(trim_start(line), insert_opener())
}

/// The smallest indentation of a list item among lines `[lo, hi)`.
pub open spec fn min_item(lines: Seq<Seq<char>>, lo: int, hi: int) -> Option<nat>
    decreases hi - lo,
{
    if hi <= lo || lo < 0 || hi > lines.len() {
        None
    } else {
        let m = min_item(lines, lo, hi - 1);
        if is_item(lines[hi - 1]) {
            let d = indent(lines[hi - 1]);
            match m {
                None => Some(d),
                Some(x) => Some(
                    if x <= d {
                        x
                    } else {
                        d
                    },
                ),
            }
        } else {
            m
        }
    }
}

/// The list items indented exactly `cb` among lines `[lo, hi)`, in order.
pub open spec fn child_starts(lines: Seq<Seq<char>>, cb: nat, lo: int, hi: int) -> Seq<int>
    decreases hi - lo,
{
    if hi <= lo || lo < 0 || hi > lines.len() {
        Seq::empty()
    } else if is_item(lines[hi - 1]) && indent(lines[hi - 1]) == cb {
        child_starts(lines, cb, lo, hi - 1).push(hi - 1)
    } else {
        child_starts(lines, cb, lo, hi - 1)
    }
}

/// One mount row: the row's own line range, and the range removing the row
/// removes (a sole row takes its now-empty `- insert:` wrapper with it).
pub type RowSpec = ((int, int), (int, int));

/// The mount rows inside the `- insert:` block `[i, end)`.
pub open spec fn insert_rows(lines: Seq<Seq<char>>, i: int, end: int) -> Seq<RowSpec> {
    match min_item(lines, i + 1, end) {
        None => Seq::empty(),
        Some(cb) => {
            let st = child_starts(lines, cb, i + 1, end);
            Seq::new(
                st.len(),
                |k: int|
                    {
                        let s = st[k];
                        let fe = block_end(lines, s);
                        let r = (
                            s,
                            if fe < end {
                                fe
                            } else {
                                end
                            },
                        );
                        (
                            r,
                            if st.len() == 1 {
                                (i, end)
                            } else {
                                r
                            },
                        )
                    },
            )
        },
    }
}

/// Mount rows from line `i` on, for items at indentation `base`.
pub open spec fn rows_from(lines: Seq<Seq<char>>, base: nat, i: int) -> Seq<RowSpec>
    decreases lines.len() - i,
{
    if i < 0 || i >= lines.len() {
        Seq::empty()
    } else if indent(lines[i]) != base || !is_item(lines[i]) {
        rows_from(lines, base, i + 1)
    } else {
        let end = block_end(lines, i);
        proof {
            lemma_end_scan(lines, indent(lines[i]), i + 1);
        }
        (if is_insert(lines[i]) {
            insert_rows(lines, i, end)
        } else {
            seq![((i, end), (i, end))]
        }) + rows_from(lines, base, end)
    }
}

/// Only direct list children are mount rows; lists inside a row's config
/// are opaque.
pub open spec fn mount_rows_spec(lines: Seq<Seq<char>>) -> Seq<RowSpec> {
    match min_item(lines, 0, lines.len() as int) {
        None => Seq::empty(),
        Some(b) => rows_from(lines, b, 0),
    }
}

/// The line holding `key:` one level below the row opener, searched from `j`.
pub open spec fn key_line_from(lines: Seq<Seq<char>>, r0: int, r1: int, p: Seq<char>, j: int) -> Option<
    Seq<char>,
>
    decreases r1 - j,
{
    if j >= r1 || j < 0 || j >= lines.len() {
        None
    } else if indent(lines[j]) == indent(lines[r0]) + 2 && starts_with(trim_start(lines[j]), p) {
        Some(trim_start(lines[j]).skip(p.len() as int))
    } else {
        key_line_from(lines, r0, r1, p, j + 1)
    }
}

/// The raw text of a row's `key:` — on the opener (`- key: v`) or on the
/// first child line at the row's key level.
pub open spec fn raw_value(lines: Seq<Seq<char>>, r0: int, r1: int, key: Seq<char>) -> Option<
    Seq<char>,
> {
    let t = trim_start(lines[r0]);
    let p = key.push(':');
    if !starts_with(t, dash_space()) {
        None
    } else if starts_with(t.skip(2), p) {
        Some(t.skip(2).skip(p.len() as int))
    } else {
        key_line_from(lines, r0, r1, p, r0 + 1)
    }
}

/// A row's `key:` value as YAML reads it (`None` when absent or unparsable).
pub open spec fn row_value_spec(lines: Seq<Seq<char>>, r0: int, r1: int, key: Seq<char>) -> Option<
    YamlScalarView,
> {
    match raw_value(lines, r0, r1, key) {
        None => None,
        Some(raw) => match yaml_value(trim(raw)) {
            Ok(v) => Some(v),
            Err(_) => None,
        },
    }
}

pub open spec fn key_id() -> Seq<char> {
    seq!['i', 'd']
}

pub open spec fn key_name() -> Seq<char> {
    seq!['n', 'a', 'm', 'e']
}

pub open spec fn key_disabled() -> Seq<char> {
    seq!['d', 'i', 's', 'a', 'b', 'l', 'e', 'd']
}

/// Whether a row is declared under `id` (its `id:` or its `name:`).
pub open spec fn row_matches(lines: Seq<Seq<char>>, row: RowSpec, id: Seq<char>) -> bool {
    row_value_spec(lines, row.0.0, row.0.1, key_id()) == Some(YamlScalarView::Text(id))
        || row_value_spec(lines, row.0.0, row.0.1, key_name()) == Some(YamlScalarView::Text(id))
}

/// Whether a row carries `disabled: true`.
pub open spec fn row_disabled(lines: Seq<Seq<char>>, row: RowSpec) -> bool {
    row_value_spec(lines, row.0.0, row.0.1, key_disabled()) == Some(YamlScalarView::Flag(true))
}

/// The first row at or after `k` declared under `id`.
pub open spec fn first_match(lines: Seq<Seq<char>>, rows: Seq<RowSpec>, id: Seq<char>, k: int) -> Option<
    int,
>
    decreases rows.len() - k,
{
    if k < 0 || k >= rows.len() {
        None
    } else if row_matches(lines, rows[k], id) {
        Some(k)
    } else {
        first_match(lines, rows, id, k + 1)
    }
}

/// The removable range of the plugin's row: just the matched row when an
/// insert holds sibling plugins.
pub open spec fn find_block_spec(lines: Seq<Seq<char>>, id: Seq<char>) -> Option<(int, int)> {
    let rows = mount_rows_spec(lines);
    match first_match(lines, rows, id, 0) {
        Some(k) => Some(rows[k].1),
        None => None,
    }
}

/// Whether the plugin is registered, and if so whether it is disabled.
pub open spec fn registration_spec(lines: Seq<Seq<char>>, id: Seq<char>) -> Option<bool> {
    let rows = mount_rows_spec(lines);
    match first_match(lines, rows, id, 0) {
        Some(k) => Some(row_disabled(lines, rows[k])),
        None => None,
    }
}

/// The (id, disabled) declarations one row contributes: its `id:` then its
/// `name:`, each when it is a string.
pub open spec fn row_declarations(lines: Seq<Seq<char>>, row: RowSpec) -> Seq<(Seq<char>, bool)> {
    let d = row_disabled(lines, row);
    let a = match row_value_spec(lines, row.0.0, row.0.1, key_id()) {
        Some(YamlScalarView::Text(s)) => seq![(s, d)],
        _ => Seq::empty(),
    };
    let b = match row_value_spec(lines, row.0.0, row.0.1, key_name()) {
        Some(YamlScalarView::Text(s)) => seq![(s, d)],
        _ => Seq::empty(),
    };
    a + b
}

/// Declarations of the first `n` rows, in order.
pub open spec fn declarations_upto(lines: Seq<Seq<char>>, rows: Seq<RowSpec>, n: int) -> Seq<
    (Seq<char>, bool),
>
    decreases n,
{
    if n <= 0 || n > rows.len() {
        Seq::empty()
    } else {
        declarations_upto(lines, rows, n - 1) + row_declarations(lines, rows[n - 1])
    }
}

/// Every (id, disabled) declaration of the patch, in document order.
pub open spec fn declarations(lines: Seq<Seq<char>>) -> Seq<(Seq<char>, bool)> {
    let rows = mount_rows_spec(lines);
    declarations_upto(lines, rows, rows.len() as int)
}

/// The disabled flag of the first declaration of `id` (the one a map keyed
/// by first insertion keeps).
pub open spec fn lookup_from(decls: Seq<(Seq<char>, bool)>, id: Seq<char>, k: int) -> Option<bool>
    decreases decls.len() - k,
{
    if k < 0 || k >= decls.len() {
        None
    } else if decls[k].0 == id {
        Some(decls[k].1)
    } else {
        lookup_from(decls, id, k + 1)
    }
}

pub open spec fn lookup(decls: Seq<(Seq<char>, bool)>, id: Seq<char>) -> Option<bool> {
    lookup_from(decls, id, 0)
}

/// `decls` with `x` added unless its id is already declared.
pub open spec fn first_add(decls: Seq<(Seq<char>, bool)>, x: (Seq<char>, bool)) -> Seq<
    (Seq<char>, bool),
> {
    if lookup(decls, x.0).is_some() {
        decls
    } else {
        decls.push(x)
    }
}

/// The declarations a map filled by first insertion holds, in order of
/// first appearance: each id once, with the flag of its first declaration.
pub open spec fn first_wins(decls: Seq<(Seq<char>, bool)>) -> Seq<(Seq<char>, bool)>
    decreases decls.len(),
{
    if decls.len() == 0 {
        Seq::empty()
    } else {
        first_add(first_wins(decls.drop_last()), decls.last())
    }
}

/// The ids whose (first) declaration is disabled, in order.
pub open spec fn disabled_ids(decls: Seq<(Seq<char>, bool)>) -> Seq<Seq<char>>
    decreases decls.len(),
{
    if decls.len() == 0 {
        Seq::empty()
    } else if decls.last().1 {
        disabled_ids(decls.drop_last()).push(decls.last().0)
    } else {
        disabled_ids(decls.drop_last())
    }
}

/// The first list item in `[j, r1)`.
pub open spec fn first_item_from(lines: Seq<Seq<char>>, j: int, r1: int) -> Option<int>
    decreases r1 - j,
{
    if j >= r1 || j < 0 || j >= lines.len() {
        None
    } else if is_item(lines[j]) {
        Some(j)
    } else {
        first_item_from(lines, j + 1, r1)
    }
}

/// The row a block range is about: for an `- insert:` block, its first
/// nested item; otherwise the range itself.
pub open spec fn item_row_range_spec(lines: Seq<Seq<char>>, r0: int, r1: int) -> (int, int) {
    if is_insert(lines[r0]) {
        match first_item_from(lines, r0 + 1, r1) {
            Some(i) => (i, r1),
            None => (r0, r1),
        }
    } else {
        (r0, r1)
    }
}

/// The indentation of a row's own keys: two deeper than its opener.
pub open spec fn child_indent_spec(lines: Seq<Seq<char>>, r0: int, r1: int) -> nat {
    indent(lines[item_row_range_spec(lines, r0, r1).0]) + 2
}

/// The lines after writing the disabled flag for the row of block `[r0, r1)`.
pub open spec fn flag_edit(lines: Seq<Seq<char>>, r0: int, r1: int, disabled: bool) -> Seq<
    Seq<char>,
> {
    let row = item_row_range_spec(lines, r0, r1);
    let ci = child_indent_spec(lines, r0, r1);
    match (disabled, disabled_key_from(lines, ci, row.0 + 1, r1)) {
        (false, Some(i)) => lines.remove(i),
        (true, Some(i)) => lines.update(i, disabled_line(ci)),
        (true, None) => lines.insert(row.0 + 1, disabled_line(ci)),
        (false, None) => lines,
    }
}

/// How a registry id is spelled as a loader id: quoted when it starts with
/// `@`, since a YAML plain scalar cannot.
pub open spec fn loader_id(id: Seq<char>) -> Seq<char> {
    if id.len() > 0 && id[0] == '@' {
        seq!['\''] + id + seq!['\'']
    } else {
        id
    }
}

/// The patch lines that mount one plugin through DSH's `insert` channel.
pub open spec fn insert_block_spec(id: Seq<char>, disabled: bool) -> Seq<Seq<char>> {
    let base = seq![
        insert_opener(),
        spaces(4) + seq!['-', ' ', 'i', 'd', ':', ' '] + loader_id(id),
        spaces(6) + seq!['n', 'a', 'm', 'e', ':', ' ', '\''] + id + seq!['\''],
    ];
    if disabled {
        base.push(disabled_line(6))
    } else {
        base
    }
}

/// The new patch lines for `set disabled`, or `None` when nothing is written.
pub open spec fn set_disabled_spec(lines: Seq<Seq<char>>, id: Seq<char>, disabled: bool) -> Option<
    Seq<Seq<char>>,
> {
    match find_block_spec(lines, id) {
        Some((s, e)) => Some(flag_edit(lines, s, e, disabled)),
        None => if disabled {
            Some(with_separator(lines) + insert_block_spec(id, true))
        } else {
            None
        },
    }
}

/// The new patch lines for a registration, or `None` when already mounted.
pub open spec fn register_spec(lines: Seq<Seq<char>>, id: Seq<char>, disabled: Option<bool>) -> Option<
    Seq<Seq<char>>,
> {
    match find_block_spec(lines, id) {
        Some(_) => None,
        None => Some(with_separator(lines) + insert_block_spec(id, disabled == Some(true))),
    }
}

/// `lines` without trailing blank lines.
pub open spec fn trim_blank_tail(lines: Seq<Seq<char>>) -> Seq<Seq<char>>
    decreases lines.len(),
{
    if lines.len() > 0 && is_blank(lines.last()) {
        trim_blank_tail(lines.drop_last())
    } else {
        lines
    }
}

/// The patch lines with the plugin's row removed, or `None` when absent.
pub open spec fn remove_spec(lines: Seq<Seq<char>>, id: Seq<char>) -> Option<Seq<Seq<char>>> {
    match find_block_spec(lines, id) {
        Some((s, e)) => Some(trim_blank_tail(lines.take(s) + lines.skip(e))),
        None => None,
    }
}

/// A column-0 `[]` (optionally followed by whitespace): DSH's scaffold
/// placeholder for an empty patch, never legitimate next to entries.
pub open spec fn is_placeholder(line: Seq<char>) -> bool {
    trim_end(line) == seq!['[', ']']
}

/// The lines with every scaffold placeholder dropped.
pub open spec fn drop_placeholders(lines: Seq<Seq<char>>) -> Seq<Seq<char>>
    decreases lines.len(),
{
    if lines.len() == 0 {
        lines
    } else if is_placeholder(lines.last()) {
        drop_placeholders(lines.drop_last())
    } else {
        drop_placeholders(lines.drop_last()).push(lines.last())
    }
}

/* ------------------------------ lemmas ------------------------------ */

/// A row's ranges lie inside the document, opener first.
pub open spec fn row_in_bounds(row: RowSpec, n: int) -> bool {
    &&& 0 <= row.0.0 < row.0.1 <= n
    &&& 0 <= row.1.0 < row.1.1 <= n
}

proof fn lemma_child_starts(lines: Seq<Seq<char>>, cb: nat, lo: int, hi: int)
    requires
        0 <= lo,
        hi <= lines.len(),
    ensures
        forall|k: int|
            0 <= k < child_starts(lines, cb, lo, hi).len() ==> lo <= #[trigger] child_starts(
                lines,
                cb,
                lo,
                hi,
            )[k] < hi,
    decreases hi - lo,
{
    if hi > lo {
        lemma_child_starts(lines, cb, lo, hi - 1);
        let prev = child_starts(lines, cb, lo, hi - 1);
        assert forall|k: int| 0 <= k < child_starts(lines, cb, lo, hi).len() implies lo
            <= #[trigger] child_starts(lines, cb, lo, hi)[k] < hi by {
            if k < prev.len() {
                assert(child_starts(lines, cb, lo, hi)[k] == prev[k]);
            }
        }
    }
}

proof fn lemma_insert_rows(lines: Seq<Seq<char>>, i: int, end: int)
    requires
        0 <= i < end <= lines.len(),
    ensures
        forall|k: int|
            0 <= k < insert_rows(lines, i, end).len() ==> row_in_bounds(
                #[trigger] insert_rows(lines, i, end)[k],
                lines.len() as int,
            ),
{
    if let Some(cb) = min_item(lines, i + 1, end) {
        let st = child_starts(lines, cb, i + 1, end);
        lemma_child_starts(lines, cb, i + 1, end);
        assert forall|k: int| 0 <= k < insert_rows(lines, i, end).len() implies row_in_bounds(
            #[trigger] insert_rows(lines, i, end)[k],
            lines.len() as int,
        ) by {
            let s = st[k];
            lemma_end_scan(lines, indent(lines[s]), s + 1);
        }
    }
}

proof fn lemma_rows_from(lines: Seq<Seq<char>>, base: nat, i: int)
    requires
        0 <= i,
    ensures
        forall|k: int|
            0 <= k < rows_from(lines, base, i).len() ==> row_in_bounds(
                #[trigger] rows_from(lines, base, i)[k],
                lines.len() as int,
            ),
    decreases lines.len() - i,
{
    if i < lines.len() {
        if indent(lines[i]) != base || !is_item(lines[i]) {
            lemma_rows_from(lines, base, i + 1);
            assert(rows_from(lines, base, i) == rows_from(lines, base, i + 1));
        } else {
            let end = block_end(lines, i);
            lemma_end_scan(lines, indent(lines[i]), i + 1);
            lemma_rows_from(lines, base, end);
            let head = if is_insert(lines[i]) {
                insert_rows(lines, i, end)
            } else {
                seq![((i, end), (i, end))]
            };
            if is_insert(lines[i]) {
                lemma_insert_rows(lines, i, end);
            }
            assert forall|k: int| 0 <= k < rows_from(lines, base, i).len() implies row_in_bounds(
                #[trigger] rows_from(lines, base, i)[k],
                lines.len() as int,
            ) by {
                assert(rows_from(lines, base, i) == head + rows_from(lines, base, end));
                if k >= head.len() {
                    assert(rows_from(lines, base, i)[k] == rows_from(lines, base, end)[k
                        - head.len()]);
                } else {
                    assert(rows_from(lines, base, i)[k] == head[k]);
                }
            }
        }
    }
}

/// Every mount row lies inside the document.
pub proof fn lemma_mount_rows(lines: Seq<Seq<char>>)
    ensures
        forall|k: int|
            0 <= k < mount_rows_spec(lines).len() ==> row_in_bounds(
                #[trigger] mount_rows_spec(lines)[k],
                lines.len() as int,
            ),
{
    if let Some(b) = min_item(lines, 0, lines.len() as int) {
        lemma_rows_from(lines, b, 0);
    }
}

proof fn lemma_first_match(lines: Seq<Seq<char>>, rows: Seq<RowSpec>, id: Seq<char>, k: int)
    requires
        0 <= k,
    ensures
        match first_match(lines, rows, id, k) {
            Some(m) => k <= m < rows.len() && row_matches(lines, rows[m], id),
            None => true,
        },
    decreases rows.len() - k,
{
    if k < rows.len() && !row_matches(lines, rows[k], id) {
        lemma_first_match(lines, rows, id, k + 1);
    }
}

/// A found block lies inside the document, opener first.
pub proof fn lemma_find_block_bounds(lines: Seq<Seq<char>>, id: Seq<char>)
    ensures
        match find_block_spec(lines, id) {
            Some((s, e)) => 0 <= s < e <= lines.len(),
            None => true,
        },
{
    let rows = mount_rows_spec(lines);
    lemma_mount_rows(lines);
    lemma_first_match(lines, rows, id, 0);
    if let Some(k) = first_match(lines, rows, id, 0) {
        assert(row_in_bounds(rows[k], lines.len() as int));
    }
}

proof fn lemma_lookup_push(s: Seq<(Seq<char>, bool)>, x: (Seq<char>, bool), id: Seq<char>, k: int)
    requires
        0 <= k <= s.len(),
    ensures
        lookup_from(s.push(x), id, k) == (match lookup_from(s, id, k) {
            Some(b) => Some(b),
            None => if x.0 == id {
                Some(x.1)
            } else {
                None
            },
        }),
    decreases s.len() - k,
{
    if k < s.len() {
        assert(s.push(x)[k] == s[k]);
        if s[k].0 != id {
            lemma_lookup_push(s, x, id, k + 1);
        }
    } else {
        assert(s.push(x)[k] == x);
        assert(lookup_from(s.push(x), id, k + 1).is_none());
        assert(lookup_from(s, id, k).is_none());
    }
}

/// A map filled by first insertion answers every lookup as the first
/// declaration does: keeping only first declarations loses nothing.
pub proof fn lemma_first_wins_lookup(decls: Seq<(Seq<char>, bool)>, id: Seq<char>)
    ensures
        lookup(first_wins(decls), id) == lookup(decls, id),
    decreases decls.len(),
{
    if decls.len() > 0 {
        let d = decls.drop_last();
        let x = decls.last();
        lemma_first_wins_lookup(d, id);
        assert(decls == d.push(x));
        lemma_lookup_push(d, x, id, 0);
        let p = first_wins(d);
        if lookup(p, x.0).is_none() {
            lemma_lookup_push(p, x, id, 0);
        } else if x.0 == id {
        }
    }
}

/// A lookup finds nothing exactly when no declaration from `k` on has the id.
pub proof fn lemma_lookup_found(s: Seq<(Seq<char>, bool)>, id: Seq<char>, k: int)
    requires
        0 <= k,
    ensures
        lookup_from(s, id, k).is_none() <==> forall|j: int| k <= j < s.len() ==> #[trigger] s[j].0 != id,
    decreases s.len() - k,
{
    if k < s.len() {
        lemma_lookup_found(s, id, k + 1);
    }
}

/// No id is kept twice.
pub proof fn lemma_first_wins_distinct(decls: Seq<(Seq<char>, bool)>)
    ensures
        forall|i: int, j: int|
            0 <= i < j < first_wins(decls).len() ==> #[trigger] first_wins(decls)[i].0
                != #[trigger] first_wins(decls)[j].0,
    decreases decls.len(),
{
    if decls.len() > 0 {
        let d = decls.drop_last();
        let x = decls.last();
        lemma_first_wins_distinct(d);
        let p = first_wins(d);
        lemma_lookup_found(p, x.0, 0);
        if lookup(p, x.0).is_none() {
            assert forall|i: int, j: int|
                0 <= i < j < first_wins(decls).len() implies #[trigger] first_wins(decls)[i].0
                != #[trigger] first_wins(decls)[j].0 by {
                if j == p.len() {
                    assert(first_wins(decls)[i] == p[i]);
                } else {
                    assert(first_wins(decls)[i] == p[i]);
                    assert(first_wins(decls)[j] == p[j]);
                }
            }
        }
    }
}

/// Dropping scaffold placeholders leaves none behind, keeps every other
/// line in order, and doing it twice changes nothing more.
pub proof fn lemma_drop_placeholders(lines: Seq<Seq<char>>)
    ensures
        forall|k: int|
            0 <= k < drop_placeholders(lines).len() ==> !is_placeholder(
                #[trigger] drop_placeholders(lines)[k],
            ),
        drop_placeholders(drop_placeholders(lines)) == drop_placeholders(lines),
        drop_placeholders(lines).len() <= lines.len(),
    decreases lines.len(),
{
    if lines.len() > 0 {
        let d = lines.drop_last();
        lemma_drop_placeholders(d);
        let pd = drop_placeholders(d);
        if !is_placeholder(lines.last()) {
            let r = pd.push(lines.last());
            assert(r.drop_last() =~= pd);
            assert forall|k: int| 0 <= k < r.len() implies !is_placeholder(#[trigger] r[k]) by {
                if k < pd.len() {
                    assert(r[k] == pd[k]);
                }
            }
            assert(drop_placeholders(r) == drop_placeholders(pd).push(lines.last()));
        }
    }
}

/* ------------------------------- exec ------------------------------- */

struct MountRow {
    range: (usize, usize),
    block: (usize, usize),
}

spec fn row_view(r: MountRow) -> RowSpec {
    ((r.range.0 as int, r.range.1 as int), (r.block.0 as int, r.block.1 as int))
}

spec fn rows_view(rows: Seq<MountRow>) -> Seq<RowSpec> {
    rows.map_values(|r: MountRow| row_view(r))
}

proof fn lemma_rows_view_push(rows: Seq<MountRow>, r: MountRow)
    ensures
        rows_view(rows.push(r)) == rows_view(rows).push(row_view(r)),
{
    assert forall|k: int| 0 <= k < rows.len() + 1 implies #[trigger] rows_view(rows.push(r))[k]
        == rows_view(rows).push(row_view(r))[k] by {
        if k < rows.len() {
            assert(rows_view(rows)[k] == row_view(rows[k]));
        }
    }
    assert(rows_view(rows.push(r)) =~= rows_view(rows).push(row_view(r)));
}

fn is_item_exec(line: &[char]) -> (b: bool)
    ensures
        b == is_item(line@),
{
    let t = trim_start_exec(line);
    let p = vec!['-', ' '];
    assert(p@ =~= dash_space());
    starts_with_exec(&t, &p)
}

fn is_insert_exec(line: &[char]) -> (b: bool)
    ensures
        b == is_insert(line@),
{
    let t = trim_start_exec(line);
    let p = vec!['-', ' ', 'i', 'n', 's', 'e', 'r', 't', ':'];
    assert(p@ =~= insert_opener());
    starts_with_exec(&t, &p)
}

fn min_item_exec(lines: &[String], lo: usize, hi: usize) -> (r: Option<u128>)
    requires
        lo <= hi <= lines.len(),
    ensures
        match r {
            Some(x) => min_item(views(lines@), lo as int, hi as int) == Some(x as nat),
            None => min_item(views(lines@), lo as int, hi as int).is_none(),
        },
{
    let mut m: Option<u128> = None;
    let mut h = lo;
    while h < hi
        invariant
            lo <= h <= hi <= lines.len(),
            match m {
                Some(x) => min_item(views(lines@), lo as int, h as int) == Some(x as nat),
                None => min_item(views(lines@), lo as int, h as int).is_none(),
            },
        decreases hi - h,
    {
        let l = line_chars(lines, h);
        if is_item_exec(&l) {
            let d = indent_exec(&l);
            m = match m {
                None => Some(d),
                Some(x) => Some(
                    if x <= d {
                        x
                    } else {
                        d
                    },
                ),
            };
        }
        h += 1;
    }
    m
}

fn child_starts_exec(lines: &[String], cb: u128, lo: usize, hi: usize) -> (r: Vec<usize>)
    requires
        lo <= hi <= lines.len(),
    ensures
        r@.map_values(|x: usize| x as int) == child_starts(views(lines@), cb as nat, lo as int, hi as int),
{
    let mut out: Vec<usize> = Vec::new();
    let mut h = lo;
    while h < hi
        invariant
            lo <= h <= hi <= lines.len(),
            out@.map_values(|x: usize| x as int) == child_starts(
                views(lines@),
                cb as nat,
                lo as int,
                h as int,
            ),
        decreases hi - h,
    {
        let l = line_chars(lines, h);
        let ghost before = out@;
        if is_item_exec(&l) && indent_exec(&l) == cb {
            out.push(h);
            assert(out@.map_values(|x: usize| x as int) =~= before.map_values(|x: usize| x as int).push(h as int));
        }
        h += 1;
    }
    out
}

fn end_scan_exec(lines: &[String], base: u128, from: usize) -> (e: usize)
    requires
        from <= lines.len(),
    ensures
        e == end_scan(views(lines@), base as nat, from as int),
{
    let mut j = from;
    while j < lines.len()
        invariant
            from <= j <= lines.len(),
            end_scan(views(lines@), base as nat, from as int) == end_scan(
                views(lines@),
                base as nat,
                j as int,
            ),
        decreases lines.len() - j,
    {
        let lj = line_chars(lines, j);
        if !is_blank_exec(&lj) && indent_exec(&lj) <= base {
            return j;
        }
        j += 1;
    }
    j
}

/// `find_item_end`: where the item opened at `item_start` ends.
pub fn find_item_end(lines: &[String], item_start: usize) -> (e: usize)
    requires
        item_start < lines.len(),
    ensures
        e == block_end(views(lines@), item_start as int),
{
    let l = line_chars(lines, item_start);
    let base = indent_exec(&l);
    end_scan_exec(lines, base, item_start + 1)
}

fn push_insert_rows(lines: &[String], rows: &mut Vec<MountRow>, i: usize, end: usize)
    requires
        i < end <= lines.len(),
    ensures
        rows_view(final(rows)@) == rows_view(old(rows)@) + insert_rows(views(lines@), i as int, end as int),
{
    let ghost lv = views(lines@);
    match min_item_exec(lines, i + 1, end) {
        None => {
            assert(rows_view(rows@) =~= rows_view(old(rows)@) + insert_rows(lv, i as int, end as int));
        },
        Some(cb) => {
            let starts = child_starts_exec(lines, cb, i + 1, end);
            let ghost st = child_starts(lv, cb as nat, i + 1, end as int);
            proof {
                lemma_child_starts(lv, cb as nat, i + 1, end as int);
                assert(starts@.len() == st.len());
            }
            let mut k: usize = 0;
            while k < starts.len()
                invariant
                    i < end <= lines.len(),
                    lv == views(lines@),
                    st == child_starts(lv, cb as nat, i + 1, end as int),
                    starts@.map_values(|x: usize| x as int) == st,
                    min_item(lv, i + 1, end as int) == Some(cb as nat),
                    forall|q: int| 0 <= q < st.len() ==> i + 1 <= #[trigger] st[q] < end,
                    k <= starts.len(),
                    rows_view(rows@) == rows_view(old(rows)@) + insert_rows(lv, i as int, end as int).take(k as int),
                decreases starts.len() - k,
            {
                let s = starts[k];
                assert(st[k as int] == s as int);
                let fe = find_item_end(lines, s);
                let r = (s, if fe < end { fe } else { end });
                let b = if starts.len() == 1 { (i, end) } else { r };
                let ghost before = rows@;
                rows.push(MountRow { range: r, block: b });
                proof {
                    lemma_rows_view_push(before, MountRow { range: r, block: b });
                    assert(insert_rows(lv, i as int, end as int).take(k + 1) =~= insert_rows(lv, i as int, end as int).take(k as int).push(insert_rows(lv, i as int, end as int)[k as int]));
                }
                k += 1;
            }
            assert(insert_rows(lv, i as int, end as int).take(k as int) =~= insert_rows(lv, i as int, end as int));
        },
    }
}

fn mount_rows(lines: &[String]) -> (r: Vec<MountRow>)
    ensures
        rows_view(r@) == mount_rows_spec(views(lines@)),
{
    let ghost lv = views(lines@);
    let mut rows: Vec<MountRow> = Vec::new();
    let base = match min_item_exec(lines, 0, lines.len()) {
        None => {
            assert(rows_view(rows@) =~= Seq::<RowSpec>::empty());
            return rows;
        },
        Some(b) => b,
    };
    let mut i: usize = 0;
    assert(rows_view(rows@) =~= Seq::<RowSpec>::empty());
    while i < lines.len()
        invariant
            i <= lines.len(),
            lv == views(lines@),
            min_item(lv, 0, lines.len() as int) == Some(base as nat),
            mount_rows_spec(lv) == rows_view(rows@) + rows_from(lv, base as nat, i as int),
        decreases lines.len() - i,
    {
        let l = line_chars(lines, i);
        if indent_exec(&l) != base || !is_item_exec(&l) {
            i += 1;
            continue;
        }
        let end = find_item_end(lines, i);
        proof {
            lemma_end_scan(lv, indent(lv[i as int]), i + 1);
        }
        let ghost before = rows@;
        if is_insert_exec(&l) {
            push_insert_rows(lines, &mut rows, i, end);
        } else {
            rows.push(MountRow { range: (i, end), block: (i, end) });
            proof {
                lemma_rows_view_push(before, MountRow { range: (i, end), block: (i, end) });
            }
        }
        assert(rows_from(lv, base as nat, i as int) == (if is_insert(lv[i as int]) {
            insert_rows(lv, i as int, end as int)
        } else {
            seq![((i as int, end as int), (i as int, end as int))]
        }) + rows_from(lv, base as nat, end as int));
        proof {
            if is_insert(lv[i as int]) {
                assert(rows_view(rows@) + rows_from(lv, base as nat, end as int) =~= rows_view(before) + rows_from(lv, base as nat, i as int));
            } else {
                assert(rows_view(rows@) + rows_from(lv, base as nat, end as int) =~= rows_view(before) + rows_from(lv, base as nat, i as int));
            }
        }
        i = end;
    }
    assert(rows_view(rows@) + rows_from(lv, base as nat, i as int) =~= rows_view(rows@));
    rows
}

fn key_line_exec(lines: &[String], r0: usize, r1: usize, p: &[char]) -> (r: Option<Vec<char>>)
    requires
        r0 < r1 <= lines.len(),
    ensures
        match r {
            Some(v) => key_line_from(views(lines@), r0 as int, r1 as int, p@, r0 + 1) == Some(v@),
            None => key_line_from(views(lines@), r0 as int, r1 as int, p@, r0 + 1).is_none(),
        },
{
    let l0 = line_chars(lines, r0);
    let ind0 = indent_exec(&l0);
    let n0 = l0.len();
    proof {
        lemma_indent_bound(l0@);
        assert(n0 <= usize::MAX);
    }
    let mut j = r0 + 1;
    while j < r1
        invariant
            r0 < j <= r1 <= lines.len(),
            ind0 == indent(views(lines@)[r0 as int]),
            ind0 <= 4 * usize::MAX,
            key_line_from(views(lines@), r0 as int, r1 as int, p@, r0 + 1) == key_line_from(
                views(lines@),
                r0 as int,
                r1 as int,
                p@,
                j as int,
            ),
        decreases r1 - j,
    {
        let lj = line_chars(lines, j);
        if indent_exec(&lj) == ind0 + 2 {
            let t = trim_start_exec(&lj);
            if starts_with_exec(&t, p) {
                return Some(slice_range(&t, p.len(), t.len()));
            }
        }
        j += 1;
    }
    None
}

/// A row's `key:` value, read as YAML.
fn row_value(lines: &[String], range: (usize, usize), key: &[char]) -> (r: Option<YamlScalar>)
    requires
        range.0 < range.1 <= lines.len(),
    ensures
        match r {
            Some(v) => row_value_spec(views(lines@), range.0 as int, range.1 as int, key@) == Some(v.view()),
            None => row_value_spec(views(lines@), range.0 as int, range.1 as int, key@).is_none(),
        },
{
    let l0 = line_chars(lines, range.0);
    let t = trim_start_exec(&l0);
    let ds = vec!['-', ' '];
    assert(ds@ =~= dash_space());
    let mut p = slice_range(key, 0, key.len());
    p.push(':');
    assert(key@.subrange(0, key@.len() as int) =~= key@);
    if !starts_with_exec(&t, &ds) {
        return None;
    }
    let first = slice_range(&t, 2, t.len());
    let raw = if starts_with_exec(&first, &p) {
        slice_range(&first, p.len(), first.len())
    } else {
        match key_line_exec(lines, range.0, range.1, &p) {
            Some(v) => v,
            None => return None,
        }
    };
    let tr = trim_exec(&raw);
    let text = string_of(&tr);
    match parse_yaml_value(text.as_str()) {
        Ok(v) => Some(v),
        Err(_) => None,
    }
}

fn text_is(v: &Option<YamlScalar>, id: &[char]) -> (b: bool)
    ensures
        b == (match v {
            Some(x) => x.view() == YamlScalarView::Text(id@),
            None => false,
        }),
{
    match v {
        Some(YamlScalar::Text(s)) => {
            let c = chars_of(s.as_str());
            chars_eq(&c, id)
        },
        _ => false,
    }
}

fn row_matches_exec(lines: &[String], row: &MountRow, id: &[char]) -> (b: bool)
    requires
        row.range.0 < row.range.1 <= lines.len(),
    ensures
        b == row_matches(views(lines@), row_view(*row), id@),
{
    let kid = vec!['i', 'd'];
    let kname = vec!['n', 'a', 'm', 'e'];
    assert(kid@ =~= key_id());
    assert(kname@ =~= key_name());
    let a = row_value(lines, row.range, &kid);
    if text_is(&a, id) {
        return true;
    }
    let b = row_value(lines, row.range, &kname);
    text_is(&b, id)
}

fn row_disabled_exec(lines: &[String], row: &MountRow) -> (b: bool)
    requires
        row.range.0 < row.range.1 <= lines.len(),
    ensures
        b == row_disabled(views(lines@), row_view(*row)),
{
    let kd = vec!['d', 'i', 's', 'a', 'b', 'l', 'e', 'd'];
    assert(kd@ =~= key_disabled());
    match row_value(lines, row.range, &kd) {
        Some(YamlScalar::Flag(true)) => true,
        _ => false,
    }
}

/// Index of the first row declared under `id`.
fn first_match_exec(lines: &[String], rows: &Vec<MountRow>, id: &[char]) -> (r: Option<usize>)
    requires
        rows_view(rows@) == mount_rows_spec(views(lines@)),
    ensures
        match r {
            Some(k) => first_match(views(lines@), mount_rows_spec(views(lines@)), id@, 0) == Some(k as int) && k < rows.len(),
            None => first_match(views(lines@), mount_rows_spec(views(lines@)), id@, 0).is_none(),
        },
{
    let ghost lv = views(lines@);
    proof {
        lemma_mount_rows(lv);
    }
    let mut k: usize = 0;
    while k < rows.len()
        invariant
            k <= rows.len(),
            lv == views(lines@),
            rows_view(rows@) == mount_rows_spec(lv),
            forall|q: int| 0 <= q < mount_rows_spec(lv).len() ==> row_in_bounds(#[trigger] mount_rows_spec(lv)[q], lv.len() as int),
            first_match(lv, mount_rows_spec(lv), id@, 0) == first_match(lv, mount_rows_spec(lv), id@, k as int),
        decreases rows.len() - k,
    {
        assert(rows_view(rows@)[k as int] == row_view(rows@[k as int]));
        assert(row_in_bounds(mount_rows_spec(lv)[k as int], lv.len() as int));
        if row_matches_exec(lines, &rows[k], id) {
            return Some(k);
        }
        k += 1;
    }
    None
}

/// The line range of the plugin's mount row; just the matched row when an
/// insert contains sibling plugins, the whole `- insert:` block when the row
/// is its only one. Matched by the row's `id:` or its `name:`.
pub fn find_block(lines: &[String], id: &str) -> (r: Option<(usize, usize)>)
    ensures
        crate::text::range_view(r) == find_block_spec(views(lines@), id@),
{
    let idc = chars_of(id);
    let rows = mount_rows(lines);
    match first_match_exec(lines, &rows, &idc) {
        Some(k) => {
            assert(rows_view(rows@)[k as int] == row_view(rows@[k as int]));
            Some(rows[k].block)
        },
        None => None,
    }
}

/// Whether the plugin is registered in the patch lines, and if so whether
/// it is flagged `disabled: true`.
pub fn plugin_registration_state_in(lines: &[String], registry_id: &str) -> (r: Option<bool>)
    ensures
        r == registration_spec(views(lines@), registry_id@),
{
    let idc = chars_of(registry_id);
    let rows = mount_rows(lines);
    proof {
        lemma_mount_rows(views(lines@));
    }
    match first_match_exec(lines, &rows, &idc) {
        Some(k) => {
            assert(rows_view(rows@)[k as int] == row_view(rows@[k as int]));
            assert(row_in_bounds(mount_rows_spec(views(lines@))[k as int], lines@.len() as int));
            Some(row_disabled_exec(lines, &rows[k]))
        },
        None => None,
    }
}

/// Indentation, in bytes, of a line.
pub fn indent_of(line: &str) -> (n: u128)
    ensures
        n == indent(line@),
{
    let c = chars_of(line);
    indent_exec(&c)
}

/// The first list item in `[j, r1)`.
fn first_item_exec(lines: &[String], j0: usize, r1: usize) -> (r: Option<usize>)
    requires
        r1 <= lines.len(),
    ensures
        match r {
            Some(i) => first_item_from(views(lines@), j0 as int, r1 as int) == Some(i as int) && j0 <= i < r1,
            None => first_item_from(views(lines@), j0 as int, r1 as int).is_none(),
        },
{
    let mut j = j0;
    while j < r1
        invariant
            j0 <= j,
            r1 <= lines.len(),
            first_item_from(views(lines@), j0 as int, r1 as int) == first_item_from(
                views(lines@),
                j as int,
                r1 as int,
            ),
        decreases r1 - j,
    {
        let l = line_chars(lines, j);
        if is_item_exec(&l) {
            return Some(j);
        }
        j += 1;
    }
    None
}

/// The row a block range is about: an `- insert:` block's first nested item.
pub fn item_row_range(lines: &[String], range: (usize, usize)) -> (r: (usize, usize))
    requires
        range.0 < lines.len(),
        range.1 <= lines.len(),
    ensures
        (r.0 as int, r.1 as int) == item_row_range_spec(views(lines@), range.0 as int, range.1 as int),
        range.0 <= r.0,
        r.0 < range.1 || r.0 == range.0,
        r.1 == range.1,
{
    let l = line_chars(lines, range.0);
    if is_insert_exec(&l) {
        if let Some(i) = first_item_exec(lines, range.0 + 1, range.1) {
            return (i, range.1);
        }
    }
    range
}

/// Indentation of the block's direct children, so keys are read and written
/// at the right level instead of matching something nested deeper.
pub fn child_indent(lines: &[String], range: (usize, usize)) -> (n: u128)
    requires
        range.0 < lines.len(),
        range.1 <= lines.len(),
    ensures
        n == child_indent_spec(views(lines@), range.0 as int, range.1 as int),
{
    let row = item_row_range(lines, range);
    let l = line_chars(lines, row.0);
    let n0 = l.len();
    let ind = indent_exec(&l);
    proof {
        lemma_indent_bound(l@);
        assert(n0 <= usize::MAX);
    }
    ind + 2
}

/// Writes `disabled: true/false` for the row of the block `[r0, r1)`.
fn apply_flag(lines: Vec<String>, r0: usize, r1: usize, disabled: bool) -> (r: Vec<String>)
    requires
        r0 < r1 <= lines.len(),
    ensures
        views(r@) == flag_edit(views(lines@), r0 as int, r1 as int, disabled),
{
    let row = item_row_range(&lines, (r0, r1));
    let ci = child_indent(&lines, (r0, r1));
    let at = disabled_key_exec(&lines, ci, row.0, r1);
    let mut lines = lines;
    let ghost old_lines = lines@;
    match (disabled, at) {
        (false, Some(i)) => {
            lines.remove(i);
            assert(views(lines@) =~= views(old_lines).remove(i as int));
        },
        (true, Some(i)) => {
            let l = disabled_line_exec(ci);
            lines.set(i, l);
            assert(views(lines@) =~= views(old_lines).update(i as int, disabled_line(ci as nat)));
        },
        (true, None) => {
            let l = disabled_line_exec(ci);
            lines.insert(row.0 + 1, l);
            assert(views(lines@) =~= views(old_lines).insert(row.0 + 1, disabled_line(ci as nat)));
        },
        (false, None) => {},
    }
    lines
}

/// The patch lines that mount one plugin through DSH's `insert` channel. The
/// package name is both the loader `id` and `name`: the plugin is resolved by
/// `name`, and `id` is the stable handle for enable/disable/uninstall.
pub fn insert_block(registry_id: &str, disabled: bool) -> (r: Vec<String>)
    ensures
        views(r@) == insert_block_spec(registry_id@, disabled),
{
    let idc = chars_of(registry_id);
    let q = vec!['\''];
    let loader = if idc.len() > 0 && idc[0] == '@' {
        let a = concat_chars(&q, &idc);
        concat_chars(&a, &q)
    } else {
        slice_range(&idc, 0, idc.len())
    };
    assert(loader@ =~= loader_id(registry_id@));
    let opener = vec!['-', ' ', 'i', 'n', 's', 'e', 'r', 't', ':'];
    assert(opener@ =~= insert_opener());
    let sp4 = spaces_exec(4);
    let sp6 = spaces_exec(6);
    let idk = vec!['-', ' ', 'i', 'd', ':', ' '];
    let namek = vec!['n', 'a', 'm', 'e', ':', ' ', '\''];
    let a = concat_chars(&sp4, &idk);
    let second = concat_chars(&a, &loader);
    let b = concat_chars(&sp6, &namek);
    let b2 = concat_chars(&b, &idc);
    let third = concat_chars(&b2, &q);
    let mut out: Vec<String> = Vec::new();
    out.push(string_of(&opener));
    out.push(string_of(&second));
    out.push(string_of(&third));
    assert(second@ =~= spaces(4) + seq!['-', ' ', 'i', 'd', ':', ' '] + loader_id(registry_id@));
    assert(third@ =~= spaces(6) + seq!['n', 'a', 'm', 'e', ':', ' ', '\''] + registry_id@ + seq!['\'']);
    let ghost base = out@;
    assert(views(out@) =~= seq![opener@, second@, third@]);
    if disabled {
        let l = disabled_line_exec(6);
        out.push(l);
        proof {
            lemma_views_push(base, l);
        }
    }
    out
}

/// Appends a new insert block for `registry_id`.
fn push_insert_block(lines: &mut Vec<String>, registry_id: &str, disabled: bool)
    ensures
        views(final(lines)@) == views(old(lines)@) + insert_block_spec(registry_id@, disabled),
{
    let block = insert_block(registry_id, disabled);
    let mut k: usize = 0;
    let ghost start = lines@;
    while k < block.len()
        invariant
            k <= block.len(),
            views(block@) == insert_block_spec(registry_id@, disabled),
            views(lines@) == views(start) + views(block@).take(k as int),
        decreases block.len() - k,
    {
        let ghost before = lines@;
        lines.push(block[k].clone());
        proof {
            lemma_views_push(before, block@[k as int]);
            assert(views(block@).take(k + 1) =~= views(block@).take(k as int).push(block@[k as int]@));
        }
        k += 1;
    }
    assert(views(block@).take(k as int) =~= views(block@));
}

/// The edit behind enabling or disabling a plugin: `Some(lines)` is the new
/// patch, `None` means nothing is written (enabling an unregistered plugin
/// is a no-op). Disabling an unregistered plugin mounts it, disabled.
pub fn set_plugin_disabled_lines(lines: Vec<String>, registry_id: &str, disabled: bool) -> (r:
    Option<Vec<String>>)
    ensures
        match r {
            Some(v) => set_disabled_spec(views(lines@), registry_id@, disabled) == Some(views(v@)),
            None => set_disabled_spec(views(lines@), registry_id@, disabled).is_none(),
        },
{
    proof {
        lemma_find_block_bounds(views(lines@), registry_id@);
    }
    match find_block(&lines, registry_id) {
        Some((s, e)) => Some(apply_flag(lines, s, e, disabled)),
        None => {
            if disabled {
                let mut lines = lines;
                push_separator(&mut lines);
                push_insert_block(&mut lines, registry_id, true);
                Some(lines)
            } else {
                None
            }
        },
    }
}

/// The edit behind mounting a plugin: an insert block appended when the
/// plugin has no row yet; `None` when it is already mounted.
pub fn register_lines(lines: Vec<String>, registry_id: &str, disabled: Option<bool>) -> (r: Option<
    Vec<String>,
>)
    ensures
        match r {
            Some(v) => register_spec(views(lines@), registry_id@, disabled) == Some(views(v@)),
            None => register_spec(views(lines@), registry_id@, disabled).is_none(),
        },
{
    if find_block(&lines, registry_id).is_some() {
        return None;
    }
    let mut lines = lines;
    push_separator(&mut lines);
    push_insert_block(&mut lines, registry_id, disabled == Some(true));
    Some(lines)
}

/// Drops trailing blank lines.
pub fn trim_trailing_blanks(lines: &mut Vec<String>)
    ensures
        views(final(lines)@) == trim_blank_tail(views(old(lines)@)),
{
    loop
        invariant
            trim_blank_tail(views(lines@)) == trim_blank_tail(views(old(lines)@)),
        decreases lines.len(),
    {
        let n = lines.len();
        if n == 0 {
            return;
        }
        let last = line_chars(lines, n - 1);
        if !is_blank_exec(&last) {
            return;
        }
        let ghost before = lines@;
        lines.pop();
        assert(views(lines@) =~= views(before).drop_last());
    }
}

/// The edit behind unmounting a plugin: its row (with an insert wrapper left
/// empty by it) removed, trailing blank lines trimmed; `None` when absent.
pub fn remove_block_lines(lines: Vec<String>, registry_id: &str) -> (r: Option<Vec<String>>)
    ensures
        match r {
            Some(v) => remove_spec(views(lines@), registry_id@) == Some(views(v@)),
            None => remove_spec(views(lines@), registry_id@).is_none(),
        },
{
    proof {
        lemma_find_block_bounds(views(lines@), registry_id@);
    }
    match find_block(&lines, registry_id) {
        Some((s, e)) => {
            let mut out = without_range(lines, s, e);
            trim_trailing_blanks(&mut out);
            Some(out)
        },
        None => None,
    }
}

/// The patch after putting a plugin's registration back as a snapshot
/// recorded it: `Some(disabled)` mounts the plugin when it is not (that
/// write drops scaffold placeholders, and the flag edit reads what was
/// written) and then sets its flag; `None` unmounts it. `None` as a result
/// means nothing is written.
pub open spec fn restore_spec(lines: Seq<Seq<char>>, id: Seq<char>, previous: Option<bool>) -> Option<
    Seq<Seq<char>>,
> {
    match previous {
        Some(d) => {
            let reg = register_spec(lines, id, Some(d));
            let l1 = match reg {
                Some(n) => drop_placeholders(n),
                None => lines,
            };
            match set_disabled_spec(l1, id, d) {
                Some(n2) => Some(n2),
                None => if reg is Some {
                    Some(l1)
                } else {
                    None
                },
            }
        },
        None => remove_spec(lines, id),
    }
}

/// The edit behind restoring a plugin's registration to a snapshot taken
/// before an install: the final patch lines, or `None` when nothing is
/// written.
pub fn restore_registration_lines(lines: Vec<String>, registry_id: &str, previous: Option<bool>) -> (r:
    Option<Vec<String>>)
    ensures
        match r {
            Some(v) => restore_spec(views(lines@), registry_id@, previous) == Some(views(v@)),
            None => restore_spec(views(lines@), registry_id@, previous).is_none(),
        },
{
    match previous {
        Some(d) => {
            let (l1, wrote) = match register_lines(copy_lines(&lines), registry_id, Some(d)) {
                Some(n) => (drop_empty_list_placeholder(n), true),
                None => (lines, false),
            };
            let keep = copy_lines(&l1);
            match set_plugin_disabled_lines(l1, registry_id, d) {
                Some(n2) => Some(n2),
                None => if wrote {
                    Some(keep)
                } else {
                    None
                },
            }
        },
        None => remove_block_lines(lines, registry_id),
    }
}

spec fn text_view(v: Option<YamlScalar>) -> Option<Seq<char>> {
    match v {
        Some(YamlScalar::Text(s)) => Some(s@),
        _ => None,
    }
}

/// The mathematical reading of a declaration list.
pub open spec fn decls_view(v: Seq<(String, bool)>) -> Seq<(Seq<char>, bool)> {
    v.map_values(|p: (String, bool)| (p.0@, p.1))
}

proof fn lemma_decls_view_push(v: Seq<(String, bool)>, p: (String, bool))
    ensures
        decls_view(v.push(p)) == decls_view(v).push((p.0@, p.1)),
{
    assert(decls_view(v.push(p)) =~= decls_view(v).push((p.0@, p.1)));
}

/// Whether `id` is already among the kept declarations.
fn declared(out: &Vec<(String, bool)>, id: &[char]) -> (b: bool)
    ensures
        b == lookup(decls_view(out@), id@).is_some(),
{
    let ghost dv = decls_view(out@);
    proof {
        lemma_lookup_found(dv, id@, 0);
    }
    let mut k: usize = 0;
    while k < out.len()
        invariant
            k <= out.len(),
            dv == decls_view(out@),
            dv.len() == out.len(),
            forall|j: int| 0 <= j < k ==> #[trigger] dv[j].0 != id@,
        decreases out.len() - k,
    {
        let c = chars_of(out[k].0.as_str());
        assert(dv[k as int].0 == out@[k as int].0@);
        if chars_eq(&c, id) {
            proof {
                lemma_lookup_found(dv, id@, 0);
                assert(dv[k as int].0 == id@);
            }
            return true;
        }
        k += 1;
    }
    false
}

/// Adds a declaration unless its id is already kept.
fn add_first(out: &mut Vec<(String, bool)>, id: String, disabled: bool)
    ensures
        decls_view(final(out)@) == first_add(decls_view(old(out)@), (id@, disabled)),
{
    let c = chars_of(id.as_str());
    if !declared(out, &c) {
        let ghost before = out@;
        out.push((id, disabled));
        proof {
            lemma_decls_view_push(before, (id, disabled));
        }
    }
}

proof fn lemma_first_wins_push(d: Seq<(Seq<char>, bool)>, x: (Seq<char>, bool))
    ensures
        first_wins(d.push(x)) == first_add(first_wins(d), x),
{
    assert(d.push(x).drop_last() =~= d);
}

/// Every plugin declared in the patch lines, by its `id:` and by its
/// `name:`, each once, with whether its row is flagged `disabled: true`.
/// An id declared by several rows keeps the flag of the first.
pub fn declared_plugin_ids_in(lines: &[String]) -> (r: Vec<(String, bool)>)
    ensures
        decls_view(r@) == first_wins(declarations(views(lines@))),
{
    let ghost lv = views(lines@);
    let rows = mount_rows(lines);
    proof {
        lemma_mount_rows(lv);
    }
    let ghost rs = mount_rows_spec(lv);
    let mut out: Vec<(String, bool)> = Vec::new();
    let mut k: usize = 0;
    let kid = vec!['i', 'd'];
    let kname = vec!['n', 'a', 'm', 'e'];
    assert(kid@ =~= key_id());
    assert(kname@ =~= key_name());
    assert(decls_view(out@) =~= first_wins(declarations_upto(lv, rs, 0)));
    while k < rows.len()
        invariant
            k <= rows.len(),
            lv == views(lines@),
            rs == mount_rows_spec(lv),
            rows_view(rows@) == rs,
            kid@ == key_id(),
            kname@ == key_name(),
            forall|q: int| 0 <= q < rs.len() ==> row_in_bounds(#[trigger] rs[q], lv.len() as int),
            decls_view(out@) == first_wins(declarations_upto(lv, rs, k as int)),
        decreases rows.len() - k,
    {
        assert(rows_view(rows@)[k as int] == row_view(rows@[k as int]));
        assert(row_in_bounds(rs[k as int], lv.len() as int));
        let row = &rows[k];
        let d = row_disabled_exec(lines, row);
        let ghost before = declarations_upto(lv, rs, k as int);
        let ghost rd = row_declarations(lv, rs[k as int]);
        assert(declarations_upto(lv, rs, k + 1) == before + rd);
        let a = row_value(lines, row.range, &kid);
        let ghost mid = match text_view(a) {
            Some(t) => before.push((t, d)),
            None => before,
        };
        match a {
            Some(YamlScalar::Text(s)) => {
                add_first(&mut out, s, d);
                proof {
                    lemma_first_wins_push(before, (s@, d));
                }
            },
            _ => {},
        }
        assert(decls_view(out@) == first_wins(mid));
        let b = row_value(lines, row.range, &kname);
        match b {
            Some(YamlScalar::Text(s)) => {
                add_first(&mut out, s, d);
                proof {
                    lemma_first_wins_push(mid, (s@, d));
                }
                assert(mid.push((s@, d)) =~= before + rd);
            },
            _ => {
                assert(mid =~= before + rd);
            },
        }
        k += 1;
    }
    out
}

/// Registry ids whose plugin is flagged `disabled: true` in the patch lines
/// (the flag of an id's first declaration counts).
pub fn disabled_plugin_ids_in(lines: &[String]) -> (r: Vec<String>)
    ensures
        views(r@) == disabled_ids(first_wins(declarations(views(lines@)))),
{
    let decls = declared_plugin_ids_in(lines);
    let ghost dv = decls_view(decls@);
    let mut out: Vec<String> = Vec::new();
    let mut k: usize = 0;
    while k < decls.len()
        invariant
            k <= decls.len(),
            dv == decls_view(decls@),
            dv.len() == decls.len(),
            views(out@) == disabled_ids(dv.take(k as int)),
        decreases decls.len() - k,
    {
        assert(dv.take(k + 1).drop_last() =~= dv.take(k as int));
        assert(dv[k as int] == (decls@[k as int].0@, decls@[k as int].1));
        if decls[k].1 {
            let ghost before = out@;
            let id = decls[k].0.clone();
            out.push(id);
            proof {
                lemma_views_push(before, id);
            }
        }
        k += 1;
    }
    assert(dv.take(k as int) =~= dv);
    out
}

/// Drops every column-0 `[]`: DSH scaffolds a fresh patch as a comment
/// header plus `[]`, a complete document that entries appended after it
/// would turn into a second one. An indented `[]` is real content and stays.
pub fn drop_empty_list_placeholder(lines: Vec<String>) -> (r: Vec<String>)
    ensures
        views(r@) == drop_placeholders(views(lines@)),
{
    let ghost lv = views(lines@);
    let mut out: Vec<String> = Vec::new();
    let mut k: usize = 0;
    let br = vec!['[', ']'];
    while k < lines.len()
        invariant
            k <= lines.len(),
            lv == views(lines@),
            br@ == seq!['[', ']'],
            views(out@) == drop_placeholders(lv.take(k as int)),
        decreases lines.len() - k,
    {
        assert(lv.take(k + 1).drop_last() =~= lv.take(k as int));
        let l = line_chars(&lines, k);
        let t = trim_end_exec(&l);
        if !chars_eq(&t, &br) {
            let ghost before = out@;
            out.push(lines[k].clone());
            proof {
                lemma_views_push(before, lines@[k as int]);
            }
        }
        k += 1;
    }
    assert(lv.take(k as int) =~= lv);
    out
}

/// The text a patch is written as: placeholders dropped, lines joined with
/// newlines, and a final newline unless the text is empty.
pub fn patch_file_text(lines: &[String]) -> (r: String)
    ensures
        r@ == file_text(drop_placeholders(views(lines@))),
{
    let kept = drop_empty_list_placeholder(copy_lines(lines));
    render_lines(&kept)
}

/* ------------------------------ byte stability ------------------------------ */

proof fn lemma_first_item_from(lines: Seq<Seq<char>>, j: int, r1: int)
    requires
        0 <= j,
    ensures
        match first_item_from(lines, j, r1) {
            Some(i) => j <= i < r1 && i < lines.len(),
            None => true,
        },
    decreases r1 - j,
{
    if j < r1 && j < lines.len() && !is_item(lines[j]) {
        lemma_first_item_from(lines, j + 1, r1);
    }
}

proof fn lemma_disabled_key_from(lines: Seq<Seq<char>>, ci: nat, j: int, r1: int)
    requires
        0 <= j,
    ensures
        match disabled_key_from(lines, ci, j, r1) {
            Some(i) => j <= i < r1 && i < lines.len(),
            None => true,
        },
    decreases r1 - j,
{
    if j < r1 && j < lines.len() && !crate::plugins::id_blocks::is_disabled_key(lines[j], ci) {
        lemma_disabled_key_from(lines, ci, j + 1, r1);
    }
}

/// Setting a plugin's flag touches only that plugin's row: every line
/// before its block and every line after it stay as they were, and the
/// file grows or shrinks by at most one line.
pub proof fn lemma_flag_edit_is_local(lines: Seq<Seq<char>>, id: Seq<char>, disabled: bool)
    requires
        find_block_spec(lines, id) is Some,
    ensures
        ({
            let (s, e) = find_block_spec(lines, id)->0;
            let l2 = set_disabled_spec(lines, id, disabled)->0;
            &&& set_disabled_spec(lines, id, disabled) is Some
            &&& l2.len() + 1 >= lines.len() && l2.len() <= lines.len() + 1
            &&& l2.take(s) == lines.take(s)
            &&& l2.skip(l2.len() - (lines.len() - e)) == lines.skip(e)
        }),
{
    lemma_find_block_bounds(lines, id);
    let (s, e) = find_block_spec(lines, id)->0;
    lemma_first_item_from(lines, s + 1, e);
    let row = item_row_range_spec(lines, s, e);
    assert(s <= row.0 < e);
    let ci = child_indent_spec(lines, s, e);
    lemma_disabled_key_from(lines, ci, row.0 + 1, e);
    let l2 = flag_edit(lines, s, e, disabled);
    match (disabled, disabled_key_from(lines, ci, row.0 + 1, e)) {
        (false, Some(i)) => {
            assert(l2.take(s) =~= lines.take(s));
            assert(l2.skip(l2.len() - (lines.len() - e)) =~= lines.skip(e));
        },
        (true, Some(i)) => {
            assert(l2.take(s) =~= lines.take(s));
            assert(l2.skip(l2.len() - (lines.len() - e)) =~= lines.skip(e));
        },
        (true, None) => {
            assert(l2.take(s) =~= lines.take(s));
            assert(l2.skip(l2.len() - (lines.len() - e)) =~= lines.skip(e));
        },
        (false, None) => {},
    }
}

/// Registering a plugin only appends: the existing lines stay, followed at
/// most by one blank separator and the new block.
pub proof fn lemma_register_only_appends(lines: Seq<Seq<char>>, id: Seq<char>, disabled: Option<bool>)
    requires
        register_spec(lines, id, disabled) is Some,
    ensures
        register_spec(lines, id, disabled)->0.take(lines.len() as int) == lines,
        register_spec(lines, id, disabled)->0.skip(with_separator(lines).len() as int) == insert_block_spec(
            id,
            disabled == Some(true),
        ),
{
    let w = with_separator(lines);
    let l2 = register_spec(lines, id, disabled)->0;
    assert(w.take(lines.len() as int) =~= lines);
    assert(l2.take(lines.len() as int) =~= lines);
    assert(l2.skip(w.len() as int) =~= insert_block_spec(id, disabled == Some(true)));
}

} // verus!
