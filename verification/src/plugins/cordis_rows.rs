//! How the mount rows of `cordis.patch.yml` move when the flag editor adds
//! or drops one line inside a plugin row, and what the registration reader
//! gives back after `set disabled`.

use vstd::prelude::*;
use crate::plugins::cordis::{
    child_indent_spec, child_starts, dash_space, find_block_spec, first_match, flag_edit,
    insert_block_spec, insert_opener, insert_rows, is_insert, is_item, item_row_range_spec,
    key_disabled, key_id, key_line_from, key_name, loader_id, min_item, mount_rows_spec,
    raw_value, register_spec, registration_spec, row_disabled, row_matches, row_value_spec,
    rows_from, set_disabled_spec, RowSpec, declarations, first_item_from, restore_spec,
    drop_placeholders, is_placeholder, remove_spec, trim_blank_tail, declarations_upto, disabled_ids,
    first_wins, lemma_first_wins_distinct, lemma_first_wins_lookup, lemma_lookup_found, lookup,
    lookup_from, row_declarations,
};
use crate::yaml::{yaml_value, YamlScalarView};
use crate::plugins::id_blocks::{
    block_end, disabled_key_from, disabled_line, disabled_prefix, end_scan, is_disabled_key,
    lemma_end_scan, true_word, with_separator,
};
use crate::text::{
    indent, is_blank, is_ws, lemma_ws_count_bound, spaces, starts_with, trailing_ws_count, trim,
    trim_end, trim_start, utf8_len, utf8_width, ws_count,
};

verus! {

/* ------------------------------- spec ------------------------------- */

/// Where an index of a document lands once line `q` is deleted; `q`
/// itself maps to the line that followed it.
pub open spec fn after_delete(q: int, j: int) -> int {
    if j <= q {
        j
    } else {
        j - 1
    }
}

pub open spec fn row_after_delete(q: int, row: RowSpec) -> RowSpec {
    (
        (after_delete(q, row.0.0), after_delete(q, row.0.1)),
        (after_delete(q, row.1.0), after_delete(q, row.1.1)),
    )
}

pub open spec fn rows_after_delete(q: int, rows: Seq<RowSpec>) -> Seq<RowSpec> {
    rows.map_values(|r: RowSpec| row_after_delete(q, r))
}

/// Line `q` is a plain key line nested under the item line `a`: a non-blank
/// line that is no list item, indented deeper than `a`, with only blank or
/// deeper lines between them, and `a` is no `- insert:` wrapper.
pub open spec fn nested_key_line(d: Seq<Seq<char>>, q: int, a: int) -> bool {
    &&& 0 <= a < q < d.len()
    &&& is_item(d[a])
    &&& !is_insert(d[a])
    &&& !is_blank(d[q])
    &&& !is_item(d[q])
    &&& indent(d[a]) < indent(d[q])
    &&& forall|j: int| a < j < q ==> is_blank(#[trigger] d[j]) || indent(d[j]) > indent(d[a])
}

/// Every child of the `- insert:` item `x` (block end `end`) ends its
/// scan the same way whether or not line `q` is there.
pub open spec fn children_scan_ok(d: Seq<Seq<char>>, q: int, x: int, end: int) -> bool {
    match min_item(d, x + 1, end) {
        None => true,
        Some(cb) => forall|k: int|
            0 <= k < child_starts(d, cb, x + 1, end).len() ==> {
                let s = #[trigger] child_starts(d, cb, x + 1, end)[k];
                s + 1 > q || cb < indent(d[q]) || end_scan(d, cb, s + 1) < q
            },
    }
}

/// What every mount row looks like: an item line opening a range of blank
/// or deeper lines, ended by the document's end or a line no deeper than the
/// opener, inside the range that removing it removes.
pub open spec fn row_shaped(d: Seq<Seq<char>>, row: RowSpec) -> bool {
    let (r0, r1) = row.0;
    let (b0, b1) = row.1;
    &&& 0 <= b0 <= r0 < r1 <= b1 <= d.len()
    &&& is_item(d[r0])
    &&& forall|j: int| r0 < j < r1 ==> is_blank(#[trigger] d[j]) || indent(d[j]) > indent(d[r0])
    &&& r1 == d.len() || (!is_blank(d[r1]) && indent(d[r1]) <= indent(d[r0]))
}

/// The plugin's row, as the registration reader finds it, is the row the
/// flag editor writes: the editor's row starts at the reader's row, that
/// row is a plugin entry (no `- insert:` wrapper) whose opener carries no
/// inline `disabled:`, and the `disabled:` line the editor would rewrite
/// lies inside the reader's row.
pub open spec fn flag_row_agrees(lines: Seq<Seq<char>>, id: Seq<char>) -> bool {
    let rows = mount_rows_spec(lines);
    match first_match(lines, rows, id, 0) {
        None => false,
        Some(k) => {
            let (r0, r1) = rows[k].0;
            let (s, e) = rows[k].1;
            &&& item_row_range_spec(lines, s, e).0 == r0
            &&& !is_insert(lines[r0])
            &&& !starts_with(trim_start(lines[r0]).skip(2), key_disabled().push(':'))
            &&& match disabled_key_from(lines, child_indent_spec(lines, s, e), r0 + 1, e) {
                Some(i) => i < r1,
                None => true,
            }
        },
    }
}

/// The plugin's row carries at most one `disabled:` line at its key level.
pub open spec fn single_flag_line(lines: Seq<Seq<char>>, id: Seq<char>) -> bool {
    let rows = mount_rows_spec(lines);
    match first_match(lines, rows, id, 0) {
        None => false,
        Some(k) => {
            let (r0, r1) = rows[k].0;
            let (s, e) = rows[k].1;
            let ci = child_indent_spec(lines, s, e);
            match disabled_key_from(lines, ci, r0 + 1, e) {
                Some(i) => disabled_key_from(lines, ci, i + 1, r1) is None,
                None => true,
            }
        },
    }
}

/// Where an index of `lines` lands once the document is continued past its
/// end: the end itself maps to the first non-blank line of what follows.
pub open spec fn after_append(n0: int, l: int, j: int) -> int {
    if j < n0 {
        j
    } else {
        l
    }
}

pub open spec fn rows_after_append(n0: int, l: int, rows: Seq<RowSpec>) -> Seq<RowSpec> {
    rows.map_values(
        |r: RowSpec|
            (
                (after_append(n0, l, r.0.0), after_append(n0, l, r.0.1)),
                (after_append(n0, l, r.1.0), after_append(n0, l, r.1.1)),
            ),
    )
}

/// `n` continues `lines`: blank lines, then at `l` a top-level list item.
pub open spec fn continues_with_item(lines: Seq<Seq<char>>, n: Seq<Seq<char>>, l: int) -> bool {
    &&& lines.len() <= l < n.len()
    &&& forall|j: int| 0 <= j < lines.len() ==> #[trigger] n[j] == lines[j]
    &&& forall|j: int| lines.len() <= j < l ==> is_blank(#[trigger] n[j])
    &&& is_item(n[l])
    &&& indent(n[l]) == 0
}

/// A line that gives `key` the value `id`, read as YAML, in `text`
/// (the line after its indentation, or after its `- ` dash).
pub open spec fn key_yields(text: Seq<char>, key: Seq<char>, id: Seq<char>) -> bool {
    let p = key.push(':');
    starts_with(text, p) && yaml_value(trim(text.skip(p.len() as int))) == Ok::<
        YamlScalarView,
        Seq<char>,
    >(YamlScalarView::Text(id))
}

/// A line that could declare a plugin under `id`: its `id:` or `name:`
/// key, on a list item or a plain key line, reads as `id`.
pub open spec fn line_declares(line: Seq<char>, id: Seq<char>) -> bool {
    let t = trim_start(line);
    ||| starts_with(t, dash_space()) && key_yields(t.skip(2), key_id(), id)
    ||| starts_with(t, dash_space()) && key_yields(t.skip(2), key_name(), id)
    ||| key_yields(t, key_id(), id)
    ||| key_yields(t, key_name(), id)
}

/* ------------------------------ lemmas ------------------------------ */

/// A list item is never blank.
pub proof fn lemma_item_not_blank(line: Seq<char>)
    requires
        is_item(line),
    ensures
        !is_blank(line),
{
    lemma_ws_count_bound(line);
    let w = ws_count(line) as int;
    assert(trim_start(line)[0] == '-');
    assert(line[w] == trim_start(line)[0]);
    assert(!is_ws(line[w]));
}

/// An end scan moves with a deleted line it does not stop at.
pub proof fn lemma_scan_delete(d: Seq<Seq<char>>, q: int, base: nat, j: int)
    requires
        0 <= q < d.len(),
        !is_blank(d[q]),
        0 <= j,
        j > q || base < indent(d[q]) || end_scan(d, base, j) < q,
    ensures
        end_scan(d.remove(q), base, after_delete(q, j)) == after_delete(q, end_scan(d, base, j)),
    decreases d.len() - j,
{
    let e = d.remove(q);
    lemma_end_scan(d, base, j);
    if j >= d.len() {
    } else if j == q {
        lemma_scan_delete(d, q, base, q + 1);
    } else {
        assert(e[after_delete(q, j)] == d[j]);
        if !is_blank(d[j]) && indent(d[j]) <= base {
        } else {
            lemma_scan_delete(d, q, base, j + 1);
        }
    }
}

proof fn lemma_min_item_delete(d: Seq<Seq<char>>, q: int, lo: int, hi: int)
    requires
        0 <= q < d.len(),
        !is_item(d[q]),
        0 <= lo <= hi <= d.len(),
    ensures
        min_item(d.remove(q), after_delete(q, lo), after_delete(q, hi)) == min_item(d, lo, hi),
    decreases hi - lo,
{
    let e = d.remove(q);
    if hi > lo {
        lemma_min_item_delete(d, q, lo, hi - 1);
        if hi - 1 != q {
            assert(e[after_delete(q, hi - 1)] == d[hi - 1]);
        }
    }
}

proof fn lemma_child_starts_delete(d: Seq<Seq<char>>, q: int, cb: nat, lo: int, hi: int)
    requires
        0 <= q < d.len(),
        !is_item(d[q]),
        0 <= lo <= hi <= d.len(),
    ensures
        child_starts(d.remove(q), cb, after_delete(q, lo), after_delete(q, hi)) == child_starts(
            d,
            cb,
            lo,
            hi,
        ).map_values(|x: int| after_delete(q, x)),
    decreases hi - lo,
{
    let e = d.remove(q);
    if hi > lo {
        lemma_child_starts_delete(d, q, cb, lo, hi - 1);
        let prev = child_starts(d, cb, lo, hi - 1);
        if hi - 1 != q {
            assert(e[after_delete(q, hi - 1)] == d[hi - 1]);
            assert(prev.push(hi - 1).map_values(|x: int| after_delete(q, x)) =~= prev.map_values(
                |x: int| after_delete(q, x),
            ).push(after_delete(q, hi - 1)));
        }
    } else {
        assert(child_starts(d, cb, lo, hi).map_values(|x: int| after_delete(q, x)) =~= Seq::<
            int,
        >::empty());
    }
}

/// The children of an insert are items at the children's indentation.
proof fn lemma_child_starts_items(d: Seq<Seq<char>>, cb: nat, lo: int, hi: int)
    requires
        0 <= lo,
        hi <= d.len(),
    ensures
        forall|k: int|
            0 <= k < child_starts(d, cb, lo, hi).len() ==> {
                let s = #[trigger] child_starts(d, cb, lo, hi)[k];
                &&& lo <= s < hi
                &&& is_item(d[s])
                &&& indent(d[s]) == cb
            },
        forall|k1: int, k2: int|
            0 <= k1 < k2 < child_starts(d, cb, lo, hi).len() ==> #[trigger] child_starts(
                d,
                cb,
                lo,
                hi,
            )[k1] < #[trigger] child_starts(d, cb, lo, hi)[k2],
    decreases hi - lo,
{
    if hi > lo {
        lemma_child_starts_items(d, cb, lo, hi - 1);
        let prev = child_starts(d, cb, lo, hi - 1);
        let cur = child_starts(d, cb, lo, hi);
        assert forall|k: int| 0 <= k < cur.len() implies {
            let s = #[trigger] cur[k];
            &&& lo <= s < hi
            &&& is_item(d[s])
            &&& indent(d[s]) == cb
        } by {
            if k < prev.len() {
                assert(cur[k] == prev[k]);
            }
        }
        assert forall|k1: int, k2: int| 0 <= k1 < k2 < cur.len() implies #[trigger] cur[k1]
            < #[trigger] cur[k2] by {
            assert(cur[k1] == prev[k1]);
            if k2 < prev.len() {
                assert(cur[k2] == prev[k2]);
            }
        }
    }
}

/// The smallest item indentation in a range is attained and bounds every
/// item there.
pub proof fn lemma_min_item_bounds(d: Seq<Seq<char>>, lo: int, hi: int)
    requires
        0 <= lo <= hi <= d.len(),
    ensures
        match min_item(d, lo, hi) {
            None => forall|j: int| lo <= j < hi ==> !is_item(#[trigger] d[j]),
            Some(m) => {
                &&& forall|j: int| lo <= j < hi && is_item(#[trigger] d[j]) ==> m <= indent(d[j])
                &&& exists|j: int| lo <= j < hi && is_item(#[trigger] d[j]) && indent(d[j]) == m
            },
        },
    decreases hi - lo,
{
    if hi > lo {
        lemma_min_item_bounds(d, lo, hi - 1);
        match min_item(d, lo, hi - 1) {
            None => {
                if is_item(d[hi - 1]) {
                    assert(lo <= hi - 1 < hi && is_item(d[hi - 1]) && indent(d[hi - 1]) == indent(
                        d[hi - 1],
                    ));
                }
            },
            Some(m) => {
                let j0 = choose|j: int| lo <= j < hi - 1 && is_item(#[trigger] d[j]) && indent(d[j]) == m;
                if is_item(d[hi - 1]) && indent(d[hi - 1]) < m {
                    assert(lo <= hi - 1 < hi && is_item(d[hi - 1]) && indent(d[hi - 1]) == indent(
                        d[hi - 1],
                    ));
                } else {
                    assert(lo <= j0 < hi && is_item(d[j0]) && indent(d[j0]) == m);
                }
            },
        }
    }
}

proof fn lemma_insert_rows_delete(d: Seq<Seq<char>>, q: int, x: int, end: int)
    requires
        0 <= q < d.len(),
        !is_item(d[q]),
        !is_blank(d[q]),
        0 <= x < end <= d.len(),
        x != q,
        children_scan_ok(d, q, x, end),
    ensures
        insert_rows(d.remove(q), after_delete(q, x), after_delete(q, end)) == rows_after_delete(
            q,
            insert_rows(d, x, end),
        ),
{
    let e = d.remove(q);
    assert(after_delete(q, x) + 1 == after_delete(q, x + 1));
    lemma_min_item_delete(d, q, x + 1, end);
    match min_item(d, x + 1, end) {
        None => {
            assert(rows_after_delete(q, insert_rows(d, x, end)) =~= Seq::<RowSpec>::empty());
        },
        Some(cb) => {
            let st = child_starts(d, cb, x + 1, end);
            lemma_child_starts_delete(d, q, cb, x + 1, end);
            lemma_child_starts_items(d, cb, x + 1, end);
            let st2 = child_starts(e, cb, after_delete(q, x + 1), after_delete(q, end));
            assert(st2 == st.map_values(|y: int| after_delete(q, y)));
            let lhs = insert_rows(e, after_delete(q, x), after_delete(q, end));
            let rhs = rows_after_delete(q, insert_rows(d, x, end));
            assert forall|k: int| 0 <= k < st.len() implies #[trigger] lhs[k] == rhs[k] by {
                let s = st[k];
                assert(st2[k] == after_delete(q, s));
                assert(s != q);
                assert(e[after_delete(q, s)] == d[s]);
                assert(after_delete(q, s) + 1 == after_delete(q, s + 1));
                lemma_scan_delete(d, q, cb, s + 1);
                lemma_end_scan(d, cb, s + 1);
            }
            assert(lhs =~= rhs);
        },
    }
}

proof fn lemma_rows_from_delete(d: Seq<Seq<char>>, q: int, b: nat, i: int)
    requires
        0 <= q < d.len(),
        !is_item(d[q]),
        !is_blank(d[q]),
        b < indent(d[q]),
        0 <= i,
        forall|x: int|
            i <= x < d.len() && is_item(d[x]) && indent(d[x]) == b && is_insert(d[x])
                ==> children_scan_ok(d, q, x, #[trigger] block_end(d, x)),
    ensures
        rows_from(d.remove(q), b, after_delete(q, i)) == rows_after_delete(q, rows_from(d, b, i)),
    decreases d.len() - i,
{
    let e = d.remove(q);
    if i >= d.len() {
        assert(rows_after_delete(q, rows_from(d, b, i)) =~= Seq::<RowSpec>::empty());
    } else if i == q {
        lemma_rows_from_delete(d, q, b, q + 1);
    } else {
        assert(e[after_delete(q, i)] == d[i]);
        assert(after_delete(q, i) + 1 == after_delete(q, i + 1));
        if indent(d[i]) != b || !is_item(d[i]) {
            lemma_rows_from_delete(d, q, b, i + 1);
        } else {
            let end = block_end(d, i);
            lemma_end_scan(d, b, i + 1);
            lemma_scan_delete(d, q, b, i + 1);
            assert(block_end(e, after_delete(q, i)) == after_delete(q, end));
            lemma_rows_from_delete(d, q, b, end);
            let head = if is_insert(d[i]) {
                insert_rows(d, i, end)
            } else {
                seq![((i, end), (i, end))]
            };
            if is_insert(d[i]) {
                lemma_insert_rows_delete(d, q, i, end);
            } else {
                assert(rows_after_delete(q, head) =~= seq![
                    (
                        (after_delete(q, i), after_delete(q, end)),
                        (after_delete(q, i), after_delete(q, end)),
                    ),
                ]);
            }
            assert(rows_from(d, b, i) == head + rows_from(d, b, end));
            assert(rows_after_delete(q, head + rows_from(d, b, end)) =~= rows_after_delete(q, head)
                + rows_after_delete(q, rows_from(d, b, end)));
        }
    }
}

/// An `- insert:` wrapper at the top level of a document whose line `q` is
/// a key line nested under `a`: its children's scans are not moved by `q`.
proof fn lemma_children_scan_ok(d: Seq<Seq<char>>, q: int, a: int, b: nat, x: int)
    requires
        nested_key_line(d, q, a),
        min_item(d, 0, d.len() as int) == Some(b),
        0 <= x < d.len(),
        is_item(d[x]),
        indent(d[x]) == b,
        is_insert(d[x]),
    ensures
        children_scan_ok(d, q, x, block_end(d, x)),
{
    let end = block_end(d, x);
    lemma_end_scan(d, b, x + 1);
    lemma_min_item_bounds(d, 0, d.len() as int);
    assert(b <= indent(d[a]));
    let c = indent(d[q]);
    match min_item(d, x + 1, end) {
        None => {},
        Some(cb) => {
            lemma_min_item_bounds(d, x + 1, end);
            let j0 = choose|j: int| x + 1 <= j < end && is_item(#[trigger] d[j]) && indent(d[j]) == cb;
            lemma_item_not_blank(d[j0]);
            assert(cb > b);
            let st = child_starts(d, cb, x + 1, end);
            lemma_child_starts_items(d, cb, x + 1, end);
            if x > q {
            } else if q < end {
                if a < x {
                    assert(a < x < q);
                    lemma_item_not_blank(d[x]);
                    assert(indent(d[x]) > indent(d[a]));
                }
                assert(x < a);
                assert(cb <= indent(d[a]));
            } else {
                assert forall|k: int| 0 <= k < st.len() implies {
                    let s = #[trigger] st[k];
                    s + 1 > q || cb < c || end_scan(d, cb, s + 1) < q
                } by {
                    let s = st[k];
                    lemma_end_scan(d, cb, s + 1);
                    let r = end_scan(d, cb, s + 1);
                    if end < d.len() {
                        if r > end {
                            assert(s + 1 <= end < r);
                        }
                        assert(r <= end);
                        if r == q {
                            assert(end == q);
                        }
                    }
                }
            }
        },
    }
}

/// Deleting a key line nested under an item moves no mount row: every
/// row keeps its place, its indices shifted past the deleted line.
pub proof fn lemma_mount_rows_delete(d: Seq<Seq<char>>, q: int, a: int)
    requires
        nested_key_line(d, q, a),
    ensures
        mount_rows_spec(d.remove(q)) == rows_after_delete(q, mount_rows_spec(d)),
{
    let e = d.remove(q);
    lemma_min_item_delete(d, q, 0, d.len() as int);
    assert(after_delete(q, d.len() as int) == e.len());
    match min_item(d, 0, d.len() as int) {
        None => {
            assert(rows_after_delete(q, mount_rows_spec(d)) =~= Seq::<RowSpec>::empty());
        },
        Some(b) => {
            lemma_min_item_bounds(d, 0, d.len() as int);
            assert(b <= indent(d[a]));
            assert forall|x: int|
                0 <= x < d.len() && is_item(d[x]) && indent(d[x]) == b && is_insert(
                    d[x],
                ) implies children_scan_ok(d, q, x, #[trigger] block_end(d, x)) by {
                lemma_children_scan_ok(d, q, a, b, x);
            }
            lemma_rows_from_delete(d, q, b, 0);
        },
    }
}

proof fn lemma_insert_rows_shaped(d: Seq<Seq<char>>, x: int)
    requires
        0 <= x < d.len(),
        is_item(d[x]),
    ensures
        forall|k: int|
            0 <= k < insert_rows(d, x, block_end(d, x)).len() ==> row_shaped(
                d,
                #[trigger] insert_rows(d, x, block_end(d, x))[k],
            ),
{
    let end = block_end(d, x);
    let b = indent(d[x]);
    lemma_end_scan(d, b, x + 1);
    if let Some(cb) = min_item(d, x + 1, end) {
        let st = child_starts(d, cb, x + 1, end);
        lemma_child_starts_items(d, cb, x + 1, end);
        assert forall|k: int| 0 <= k < insert_rows(d, x, end).len() implies row_shaped(
            d,
            #[trigger] insert_rows(d, x, end)[k],
        ) by {
            let s = st[k];
            lemma_item_not_blank(d[s]);
            assert(indent(d[s]) > b);
            lemma_end_scan(d, cb, s + 1);
        }
    }
}

proof fn lemma_rows_from_shaped(d: Seq<Seq<char>>, b: nat, i: int)
    requires
        0 <= i,
    ensures
        forall|k: int|
            0 <= k < rows_from(d, b, i).len() ==> row_shaped(d, #[trigger] rows_from(d, b, i)[k]),
    decreases d.len() - i,
{
    if i < d.len() {
        if indent(d[i]) != b || !is_item(d[i]) {
            lemma_rows_from_shaped(d, b, i + 1);
            assert(rows_from(d, b, i) == rows_from(d, b, i + 1));
        } else {
            let end = block_end(d, i);
            lemma_end_scan(d, b, i + 1);
            lemma_rows_from_shaped(d, b, end);
            let head = if is_insert(d[i]) {
                insert_rows(d, i, end)
            } else {
                seq![((i, end), (i, end))]
            };
            if is_insert(d[i]) {
                lemma_insert_rows_shaped(d, i);
            }
            assert(rows_from(d, b, i) == head + rows_from(d, b, end));
            assert forall|k: int| 0 <= k < rows_from(d, b, i).len() implies row_shaped(
                d,
                #[trigger] rows_from(d, b, i)[k],
            ) by {
                if k < head.len() {
                    assert(rows_from(d, b, i)[k] == head[k]);
                } else {
                    assert(rows_from(d, b, i)[k] == rows_from(d, b, end)[k - head.len()]);
                }
            }
        }
    }
}

/// Every mount row has the shape of a row.
pub proof fn lemma_mount_rows_shaped(d: Seq<Seq<char>>)
    ensures
        forall|k: int|
            0 <= k < mount_rows_spec(d).len() ==> row_shaped(d, #[trigger] mount_rows_spec(d)[k]),
{
    if let Some(b) = min_item(d, 0, d.len() as int) {
        lemma_rows_from_shaped(d, b, 0);
    }
}

proof fn lemma_key_line_delete(
    d: Seq<Seq<char>>,
    q: int,
    r0: int,
    r1: int,
    p: Seq<char>,
    j: int,
)
    requires
        0 <= q < d.len(),
        0 <= r0 < j,
        r0 < d.len(),
        r0 != q,
        r1 <= d.len(),
        !(indent(d[q]) == indent(d[r0]) + 2 && starts_with(trim_start(d[q]), p)),
    ensures
        key_line_from(d.remove(q), after_delete(q, r0), after_delete(q, r1), p, after_delete(q, j))
            == key_line_from(d, r0, r1, p, j),
    decreases r1 - j,
{
    let e = d.remove(q);
    assert(e[after_delete(q, r0)] == d[r0]);
    if j >= r1 {
    } else if j == q {
        lemma_key_line_delete(d, q, r0, r1, p, j + 1);
    } else {
        assert(e[after_delete(q, j)] == d[j]);
        assert(after_delete(q, j) + 1 == after_delete(q, j + 1));
        lemma_key_line_delete(d, q, r0, r1, p, j + 1);
    }
}

/// A key a deleted line does not carry reads the same from the row.
proof fn lemma_row_value_delete(d: Seq<Seq<char>>, q: int, row: RowSpec, key: Seq<char>)
    requires
        0 <= q < d.len(),
        row_shaped(d, row),
        !is_item(d[q]),
        !starts_with(trim_start(d[q]), key.push(':')),
    ensures
        row_value_spec(d.remove(q), after_delete(q, row.0.0), after_delete(q, row.0.1), key)
            == row_value_spec(d, row.0.0, row.0.1, key),
{
    let (r0, r1) = row.0;
    assert(r0 != q);
    assert(d.remove(q)[after_delete(q, r0)] == d[r0]);
    assert(after_delete(q, r0) + 1 == after_delete(q, r0 + 1));
    lemma_key_line_delete(d, q, r0, r1, key.push(':'), r0 + 1);
}

/// Whether a row is declared under `id` survives deleting a line that
/// carries neither an `id:` nor a `name:` key.
pub proof fn lemma_row_matches_delete(d: Seq<Seq<char>>, q: int, row: RowSpec, id: Seq<char>)
    requires
        0 <= q < d.len(),
        row_shaped(d, row),
        !is_item(d[q]),
        !starts_with(trim_start(d[q]), key_id().push(':')),
        !starts_with(trim_start(d[q]), key_name().push(':')),
    ensures
        row_matches(d.remove(q), row_after_delete(q, row), id) == row_matches(d, row, id),
{
    lemma_row_value_delete(d, q, row, key_id());
    lemma_row_value_delete(d, q, row, key_name());
}

/// The first row declared under `id` is found alike in two row lists that
/// agree, row by row, on which rows are declared under it.
pub proof fn lemma_first_match_same(
    l1: Seq<Seq<char>>,
    rows1: Seq<RowSpec>,
    l2: Seq<Seq<char>>,
    rows2: Seq<RowSpec>,
    id: Seq<char>,
    k: int,
)
    requires
        rows1.len() == rows2.len(),
        0 <= k,
        forall|m: int|
            #![trigger rows1[m]]
            0 <= m < rows1.len() ==> row_matches(l1, rows1[m], id) == row_matches(l2, rows2[m], id),
    ensures
        first_match(l1, rows1, id, k) == first_match(l2, rows2, id, k),
    decreases rows1.len() - k,
{
    if k < rows1.len() {
        assert(row_matches(l1, rows1[k], id) == row_matches(l2, rows2[k], id));
        lemma_first_match_same(l1, rows1, l2, rows2, id, k + 1);
    }
}

/// `disabled_key_from` finds the first `disabled:` key line in its range.
pub proof fn lemma_disabled_key_from_facts(d: Seq<Seq<char>>, ci: nat, j: int, r1: int)
    requires
        0 <= j,
    ensures
        match disabled_key_from(d, ci, j, r1) {
            Some(i) => {
                &&& j <= i < r1
                &&& i < d.len()
                &&& is_disabled_key(d[i], ci)
                &&& forall|m: int| j <= m < i ==> !is_disabled_key(#[trigger] d[m], ci)
            },
            None => forall|m: int| j <= m < r1 && m < d.len() ==> !is_disabled_key(#[trigger] d[m], ci),
        },
    decreases r1 - j,
{
    if j < r1 && j < d.len() && !is_disabled_key(d[j], ci) {
        lemma_disabled_key_from_facts(d, ci, j + 1, r1);
    }
}

proof fn lemma_disabled_key_from_first(d: Seq<Seq<char>>, ci: nat, j: int, r1: int, i: int)
    requires
        0 <= j <= i < r1,
        i < d.len(),
        is_disabled_key(d[i], ci),
        forall|m: int| j <= m < i ==> !is_disabled_key(#[trigger] d[m], ci),
    ensures
        disabled_key_from(d, ci, j, r1) == Some(i),
    decreases i - j,
{
    if j < i {
        assert(!is_disabled_key(d[j], ci));
        lemma_disabled_key_from_first(d, ci, j + 1, r1, i);
    }
}

/// A row's `disabled:` key line, looked up the way the reader does, is the
/// first `disabled:` line at the row's key level.
proof fn lemma_key_line_disabled(d: Seq<Seq<char>>, r0: int, r1: int, j: int)
    requires
        0 <= r0 < d.len(),
        0 <= j,
    ensures
        key_line_from(d, r0, r1, key_disabled().push(':'), j) == (match disabled_key_from(
            d,
            indent(d[r0]) + 2,
            j,
            r1,
        ) {
            Some(i) => Some(trim_start(d[i]).skip(disabled_prefix().len() as int)),
            None => None,
        }),
    decreases r1 - j,
{
    assert(key_disabled().push(':') =~= disabled_prefix());
    if j < r1 && j < d.len() && !is_disabled_key(d[j], (indent(d[r0]) + 2) as nat) {
        lemma_key_line_disabled(d, r0, r1, j + 1);
    }
}

/// A `disabled:` key line is a plain, non-blank key line carrying neither
/// an `id:` nor a `name:` key.
proof fn lemma_disabled_key_line(line: Seq<char>, ci: nat)
    requires
        is_disabled_key(line, ci),
    ensures
        !is_blank(line),
        !is_item(line),
        !is_insert(line),
        !starts_with(trim_start(line), key_id().push(':')),
        !starts_with(trim_start(line), key_name().push(':')),
{
    let t = trim_start(line);
    lemma_ws_count_bound(line);
    assert(t.take(disabled_prefix().len() as int) == disabled_prefix());
    assert(t[0] == 'd');
    assert(line[ws_count(line) as int] == t[0]);
    if is_item(line) {
        assert(t.take(2)[0] == t[0]);
    }
    if is_insert(line) {
        assert(t.take(9)[0] == t[0]);
    }
    if starts_with(t, key_id().push(':')) {
        assert(t.take(3)[0] == t[0]);
    }
    if starts_with(t, key_name().push(':')) {
        assert(t.take(5)[0] == t[0]);
    }
}

proof fn lemma_ws_count_spaces(n: nat, rest: Seq<char>)
    requires
        rest.len() > 0,
        !is_ws(rest[0]),
    ensures
        ws_count(spaces(n) + rest) == n,
    decreases n,
{
    let s = spaces(n) + rest;
    if n == 0 {
        assert(s =~= rest);
    } else {
        assert(s[0] == ' ');
        assert(s.drop_first() =~= spaces((n - 1) as nat) + rest);
        lemma_ws_count_spaces((n - 1) as nat, rest);
    }
}

proof fn lemma_width_spaces(n: nat)
    ensures
        utf8_width(spaces(n)) == n,
    decreases n,
{
    if n > 0 {
        assert(spaces(n).drop_last() =~= spaces((n - 1) as nat));
        assert(spaces(n).last() == ' ');
        assert(utf8_len(' ') == 1);
        lemma_width_spaces((n - 1) as nat);
    }
}

/// The line the editor writes, `disabled: true` indented by `n`: a plain
/// key line at indentation `n` that reads as `true`.
pub proof fn lemma_disabled_line(n: nat)
    ensures
        is_disabled_key(disabled_line(n), n),
        indent(disabled_line(n)) == n,
        trim(trim_start(disabled_line(n)).skip(disabled_prefix().len() as int)) == true_word(),
{
    let rest = disabled_prefix() + seq![' '] + true_word();
    let l = disabled_line(n);
    assert(l =~= spaces(n) + rest);
    assert(rest[0] == 'd');
    lemma_ws_count_spaces(n, rest);
    assert(l.take(n as int) =~= spaces(n));
    lemma_width_spaces(n);
    assert(trim_start(l) =~= rest);
    assert(rest.take(disabled_prefix().len() as int) =~= disabled_prefix());
    let v = rest.skip(disabled_prefix().len() as int);
    assert(v =~= seq![' '] + true_word());
    assert(v[0] == ' ');
    assert(v[1] == 't');
    assert(v.drop_first() =~= true_word());
    assert(ws_count(v.drop_first()) == 0);
    assert(ws_count(v) == 1);
    assert(trim_start(v) =~= true_word());
    let tw = true_word();
    assert(tw.last() == 'e');
    assert(trailing_ws_count(tw) == 0);
    assert(trim_end(tw) =~= tw);
}

proof fn lemma_first_match_found(lines: Seq<Seq<char>>, rows: Seq<RowSpec>, id: Seq<char>, k: int)
    requires
        0 <= k,
    ensures
        match first_match(lines, rows, id, k) {
            Some(m) => k <= m < rows.len() && row_matches(lines, rows[m], id),
            None => true,
        },
    decreases rows.len() - k,
{
    if k < rows.len() && !row_matches(lines, rows[k], id) {
        lemma_first_match_found(lines, rows, id, k + 1);
    }
}

/// When `d2` is `d` with a `disabled:` key line nested under the row
/// opener `r0` deleted at `q` (or `d` is `d2` with one deleted there), the
/// plugin's row is found at the same place in both, under the same id.
proof fn lemma_same_row_found(
    d: Seq<Seq<char>>,
    q: int,
    a: int,
    id: Seq<char>,
)
    requires
        nested_key_line(d, q, a),
        !starts_with(trim_start(d[q]), key_id().push(':')),
        !starts_with(trim_start(d[q]), key_name().push(':')),
    ensures
        first_match(d, mount_rows_spec(d), id, 0) == first_match(
            d.remove(q),
            mount_rows_spec(d.remove(q)),
            id,
            0,
        ),
{
    let e = d.remove(q);
    let rd = mount_rows_spec(d);
    let re = mount_rows_spec(e);
    lemma_mount_rows_delete(d, q, a);
    lemma_mount_rows_shaped(d);
    assert forall|m: int| #![trigger rd[m]] 0 <= m < rd.len() implies row_matches(d, rd[m], id)
        == row_matches(e, re[m], id) by {
        assert(re[m] == row_after_delete(q, rd[m]));
        lemma_row_matches_delete(d, q, rd[m], id);
    }
    lemma_first_match_same(d, rd, e, re, id, 0);
}

/// Disabling a mounted plugin whose row is the one the editor writes.
proof fn lemma_disable_mounted_reads_back(lines: Seq<Seq<char>>, id: Seq<char>)
    requires
        flag_row_agrees(lines, id),
        yaml_value(true_word()) == Ok::<YamlScalarView, Seq<char>>(YamlScalarView::Flag(true)),
    ensures
        set_disabled_spec(lines, id, true) is Some,
        registration_spec(set_disabled_spec(lines, id, true)->0, id) == Some(true),
{
    let rows = mount_rows_spec(lines);
    lemma_first_match_found(lines, rows, id, 0);
    let k = first_match(lines, rows, id, 0)->0;
    lemma_mount_rows_shaped(lines);
    assert(row_shaped(lines, rows[k]));
    let (r0, r1) = rows[k].0;
    let (s, e) = rows[k].1;
    let ci = child_indent_spec(lines, s, e);
    assert(ci == indent(lines[r0]) + 2);
    assert(find_block_spec(lines, id) == Some((s, e)));
    let l = disabled_line(ci);
    lemma_disabled_line(ci);
    lemma_disabled_key_line(l, ci);
    let p = key_disabled().push(':');
    lemma_disabled_key_from_facts(lines, ci, r0 + 1, e);
    match disabled_key_from(lines, ci, r0 + 1, e) {
        Some(i) => {
            let n = lines.update(i, l);
            assert(flag_edit(lines, s, e, true) == n);
            lemma_disabled_key_line(lines[i], ci);
            assert(nested_key_line(lines, i, r0));
            assert(nested_key_line(n, i, r0));
            assert(n.remove(i) =~= lines.remove(i));
            lemma_same_row_found(lines, i, r0, id);
            lemma_same_row_found(n, i, r0, id);
            let rn = mount_rows_spec(n);
            lemma_mount_rows_delete(lines, i, r0);
            lemma_mount_rows_delete(n, i, r0);
            lemma_mount_rows_shaped(n);
            assert(rows_after_delete(i, rn)[k] == rows_after_delete(i, rows)[k]);
            let (q0, q1) = rn[k].0;
            assert(row_shaped(n, rn[k]));
            assert(after_delete(i, q0) == r0);
            assert(q0 == r0);
            assert(after_delete(i, q1) == after_delete(i, r1));
            assert(q1 == r1);
            lemma_disabled_key_from_first(n, ci, r0 + 1, r1, i);
            lemma_key_line_disabled(n, r0, r1, r0 + 1);
            assert(raw_value(n, r0, r1, key_disabled()) == Some(
                trim_start(l).skip(disabled_prefix().len() as int),
            ));
        },
        None => {
            let q = r0 + 1;
            let n = lines.insert(q, l);
            assert(flag_edit(lines, s, e, true) == n);
            assert(nested_key_line(n, q, r0));
            assert(n.remove(q) =~= lines);
            lemma_same_row_found(n, q, r0, id);
            let rn = mount_rows_spec(n);
            lemma_mount_rows_delete(n, q, r0);
            lemma_mount_rows_shaped(n);
            assert(rows_after_delete(q, rn)[k] == rows[k]);
            let (q0, q1) = rn[k].0;
            assert(row_shaped(n, rn[k]));
            assert(q0 == r0);
            assert(q1 != q);
            assert(q1 > q);
            lemma_disabled_key_from_first(n, ci, q, q1, q);
            lemma_key_line_disabled(n, r0, q1, q);
            assert(raw_value(n, r0, q1, key_disabled()) == Some(
                trim_start(l).skip(disabled_prefix().len() as int),
            ));
        },
    }
}

/// Enabling a mounted plugin whose row is the one the editor writes.
proof fn lemma_enable_mounted_reads_back(lines: Seq<Seq<char>>, id: Seq<char>)
    requires
        flag_row_agrees(lines, id),
        single_flag_line(lines, id),
    ensures
        set_disabled_spec(lines, id, false) is Some,
        registration_spec(set_disabled_spec(lines, id, false)->0, id) == Some(false),
{
    let rows = mount_rows_spec(lines);
    lemma_first_match_found(lines, rows, id, 0);
    let k = first_match(lines, rows, id, 0)->0;
    lemma_mount_rows_shaped(lines);
    assert(row_shaped(lines, rows[k]));
    let (r0, r1) = rows[k].0;
    let (s, e) = rows[k].1;
    let ci = child_indent_spec(lines, s, e);
    assert(ci == indent(lines[r0]) + 2);
    assert(find_block_spec(lines, id) == Some((s, e)));
    lemma_disabled_key_from_facts(lines, ci, r0 + 1, e);
    match disabled_key_from(lines, ci, r0 + 1, e) {
        Some(i) => {
            let n = lines.remove(i);
            assert(flag_edit(lines, s, e, false) == n);
            lemma_disabled_key_line(lines[i], ci);
            assert(nested_key_line(lines, i, r0));
            lemma_same_row_found(lines, i, r0, id);
            lemma_mount_rows_delete(lines, i, r0);
            let rn = mount_rows_spec(n);
            assert(rn[k] == row_after_delete(i, rows[k]));
            lemma_disabled_key_from_facts(lines, ci, i + 1, r1);
            assert forall|m: int| r0 + 1 <= m < r1 - 1 && m < n.len() implies !is_disabled_key(
                #[trigger] n[m],
                ci,
            ) by {
                if m < i {
                    assert(n[m] == lines[m]);
                } else {
                    assert(n[m] == lines[m + 1]);
                }
            }
            lemma_disabled_key_from_facts(n, ci, r0 + 1, r1 - 1);
            assert(n[r0] == lines[r0]);
            lemma_key_line_disabled(n, r0, r1 - 1, r0 + 1);
            assert(raw_value(n, r0, r1 - 1, key_disabled()).is_none());
        },
        None => {
            assert(flag_edit(lines, s, e, false) == lines);
            lemma_disabled_key_from_facts(lines, ci, r0 + 1, r1);
            lemma_key_line_disabled(lines, r0, r1, r0 + 1);
            assert(raw_value(lines, r0, r1, key_disabled()).is_none());
        },
    }
}

/// A blank line is no list item and trims to nothing.
pub proof fn lemma_blank_not_item(line: Seq<char>)
    requires
        is_blank(line),
    ensures
        !is_item(line),
        trim_start(line).len() == 0,
{
    if is_item(line) {
        lemma_item_not_blank(line);
    }
    lemma_ws_count_bound(line);
    if ws_count(line) < line.len() {
        assert(is_ws(line[ws_count(line) as int]));
    }
}

proof fn lemma_scan_append(lines: Seq<Seq<char>>, n: Seq<Seq<char>>, l: int, base: nat, j: int)
    requires
        continues_with_item(lines, n, l),
        0 <= j <= l,
    ensures
        end_scan(n, base, j) == (if j < lines.len() {
            after_append(lines.len() as int, l, end_scan(lines, base, j))
        } else {
            l
        }),
    decreases l - j,
{
    if j == l {
        lemma_item_not_blank(n[l]);
    } else if j >= lines.len() {
        lemma_scan_append(lines, n, l, base, j + 1);
    } else {
        assert(n[j] == lines[j]);
        lemma_scan_append(lines, n, l, base, j + 1);
    }
}

proof fn lemma_min_item_append(lines: Seq<Seq<char>>, n: Seq<Seq<char>>, l: int, lo: int, hi: int)
    requires
        continues_with_item(lines, n, l),
        0 <= lo <= lines.len(),
        lo <= hi <= l,
    ensures
        min_item(n, lo, hi) == min_item(
            lines,
            lo,
            if hi < lines.len() {
                hi
            } else {
                lines.len() as int
            },
        ),
    decreases hi - lo,
{
    if hi > lo {
        lemma_min_item_append(lines, n, l, lo, hi - 1);
        if hi - 1 < lines.len() {
            assert(n[hi - 1] == lines[hi - 1]);
        } else {
            lemma_blank_not_item(n[hi - 1]);
        }
    }
}

proof fn lemma_child_starts_append(
    lines: Seq<Seq<char>>,
    n: Seq<Seq<char>>,
    l: int,
    cb: nat,
    lo: int,
    hi: int,
)
    requires
        continues_with_item(lines, n, l),
        0 <= lo <= lines.len(),
        lo <= hi <= l,
    ensures
        child_starts(n, cb, lo, hi) == child_starts(
            lines,
            cb,
            lo,
            if hi < lines.len() {
                hi
            } else {
                lines.len() as int
            },
        ),
    decreases hi - lo,
{
    if hi > lo {
        lemma_child_starts_append(lines, n, l, cb, lo, hi - 1);
        if hi - 1 < lines.len() {
            assert(n[hi - 1] == lines[hi - 1]);
        } else {
            lemma_blank_not_item(n[hi - 1]);
        }
    }
}

proof fn lemma_insert_rows_append(lines: Seq<Seq<char>>, n: Seq<Seq<char>>, l: int, x: int)
    requires
        continues_with_item(lines, n, l),
        0 <= x < lines.len(),
        is_item(lines[x]),
    ensures
        insert_rows(n, x, after_append(lines.len() as int, l, block_end(lines, x)))
            == rows_after_append(lines.len() as int, l, insert_rows(lines, x, block_end(lines, x))),
{
    let n0 = lines.len() as int;
    let end = block_end(lines, x);
    let end2 = after_append(n0, l, end);
    lemma_end_scan(lines, indent(lines[x]), x + 1);
    lemma_min_item_append(lines, n, l, x + 1, end2);
    match min_item(lines, x + 1, end) {
        None => {
            assert(rows_after_append(n0, l, insert_rows(lines, x, end)) =~= Seq::<RowSpec>::empty());
        },
        Some(cb) => {
            lemma_child_starts_append(lines, n, l, cb, x + 1, end2);
            let st = child_starts(lines, cb, x + 1, end);
            lemma_child_starts_items(lines, cb, x + 1, end);
            let lhs = insert_rows(n, x, end2);
            let rhs = rows_after_append(n0, l, insert_rows(lines, x, end));
            assert forall|k: int| 0 <= k < st.len() implies #[trigger] lhs[k] == rhs[k] by {
                let st_k = st[k];
                assert(n[st_k] == lines[st_k]);
                lemma_scan_append(lines, n, l, cb, st_k + 1);
                lemma_end_scan(lines, cb, st_k + 1);
            }
            assert(lhs =~= rhs);
        },
    }
}

proof fn lemma_rows_from_blank_run(n: Seq<Seq<char>>, b: nat, i: int, l: int)
    requires
        0 <= i <= l <= n.len(),
        forall|j: int| i <= j < l ==> is_blank(#[trigger] n[j]),
    ensures
        rows_from(n, b, i) == rows_from(n, b, l),
    decreases l - i,
{
    if i < l {
        lemma_blank_not_item(n[i]);
        lemma_rows_from_blank_run(n, b, i + 1, l);
    }
}

proof fn lemma_rows_from_append(lines: Seq<Seq<char>>, n: Seq<Seq<char>>, l: int, i: int)
    requires
        continues_with_item(lines, n, l),
        0 <= i <= lines.len(),
    ensures
        rows_from(n, 0, i) == rows_after_append(lines.len() as int, l, rows_from(lines, 0, i))
            + rows_from(n, 0, l),
    decreases lines.len() - i,
{
    let n0 = lines.len() as int;
    if i == n0 {
        lemma_rows_from_blank_run(n, 0, i, l);
        assert(rows_after_append(n0, l, rows_from(lines, 0, i)) =~= Seq::<RowSpec>::empty());
        assert(rows_from(n, 0, l) =~= Seq::<RowSpec>::empty() + rows_from(n, 0, l));
    } else {
        assert(n[i] == lines[i]);
        if indent(lines[i]) != 0 || !is_item(lines[i]) {
            lemma_rows_from_append(lines, n, l, i + 1);
        } else {
            let end = block_end(lines, i);
            lemma_end_scan(lines, 0, i + 1);
            lemma_scan_append(lines, n, l, 0, i + 1);
            let end2 = after_append(n0, l, end);
            assert(block_end(n, i) == end2);
            let head = if is_insert(lines[i]) {
                insert_rows(lines, i, end)
            } else {
                seq![((i, end), (i, end))]
            };
            if is_insert(lines[i]) {
                lemma_insert_rows_append(lines, n, l, i);
            } else {
                assert(rows_after_append(n0, l, head) =~= seq![((i, end2), (i, end2))]);
            }
            let tail = rows_from(lines, 0, end);
            if end < n0 {
                lemma_rows_from_append(lines, n, l, end);
            } else {
                assert(tail =~= Seq::<RowSpec>::empty());
                assert(rows_after_append(n0, l, tail) =~= Seq::<RowSpec>::empty());
            }
            assert(rows_from(lines, 0, i) == head + tail);
            assert(rows_after_append(n0, l, head + tail) =~= rows_after_append(n0, l, head)
                + rows_after_append(n0, l, tail));
        }
    }
}

proof fn lemma_key_line_append(
    lines: Seq<Seq<char>>,
    n: Seq<Seq<char>>,
    l: int,
    r0: int,
    r1: int,
    p: Seq<char>,
    j: int,
)
    requires
        continues_with_item(lines, n, l),
        0 <= r0 < j,
        r0 < r1 <= lines.len(),
        p.len() > 0,
    ensures
        key_line_from(n, r0, after_append(lines.len() as int, l, r1), p, j) == key_line_from(
            lines,
            r0,
            r1,
            p,
            j,
        ),
    decreases l - j,
{
    let n0 = lines.len() as int;
    let r2 = after_append(n0, l, r1);
    assert(n[r0] == lines[r0]);
    if j >= r2 {
    } else if j >= n0 {
        lemma_blank_not_item(n[j]);
        lemma_key_line_append(lines, n, l, r0, r1, p, j + 1);
    } else {
        assert(n[j] == lines[j]);
        lemma_key_line_append(lines, n, l, r0, r1, p, j + 1);
    }
}

proof fn lemma_row_matches_append(
    lines: Seq<Seq<char>>,
    n: Seq<Seq<char>>,
    l: int,
    row: RowSpec,
    id: Seq<char>,
)
    requires
        continues_with_item(lines, n, l),
        row_shaped(lines, row),
    ensures
        row_matches(
            n,
            (
                (after_append(lines.len() as int, l, row.0.0), after_append(lines.len() as int, l, row.0.1)),
                (after_append(lines.len() as int, l, row.1.0), after_append(lines.len() as int, l, row.1.1)),
            ),
            id,
        ) == row_matches(lines, row, id),
{
    let (r0, r1) = row.0;
    assert(n[r0] == lines[r0]);
    lemma_key_line_append(lines, n, l, r0, r1, key_id().push(':'), r0 + 1);
    lemma_key_line_append(lines, n, l, r0, r1, key_name().push(':'), r0 + 1);
}

proof fn lemma_first_match_none(lines: Seq<Seq<char>>, rows: Seq<RowSpec>, id: Seq<char>, k: int)
    requires
        0 <= k,
        first_match(lines, rows, id, k) is None,
    ensures
        forall|m: int| k <= m < rows.len() ==> !row_matches(lines, #[trigger] rows[m], id),
    decreases rows.len() - k,
{
    if k < rows.len() {
        lemma_first_match_none(lines, rows, id, k + 1);
    }
}

proof fn lemma_first_match_at(lines: Seq<Seq<char>>, rows: Seq<RowSpec>, id: Seq<char>, k: int, t: int)
    requires
        0 <= k <= t < rows.len(),
        forall|m: int| k <= m < t ==> !row_matches(lines, #[trigger] rows[m], id),
        row_matches(lines, rows[t], id),
    ensures
        first_match(lines, rows, id, k) == Some(t),
    decreases t - k,
{
    if k < t {
        assert(!row_matches(lines, rows[k], id));
        lemma_first_match_at(lines, rows, id, k + 1, t);
    }
}

proof fn lemma_rows_from_no_item(d: Seq<Seq<char>>, b: nat, i: int)
    requires
        0 <= i,
        forall|j: int| i <= j < d.len() ==> !(is_item(#[trigger] d[j]) && indent(d[j]) == b),
    ensures
        rows_from(d, b, i) =~= Seq::<RowSpec>::empty(),
    decreases d.len() - i,
{
    if i < d.len() {
        assert(!(is_item(d[i]) && indent(d[i]) == b));
        lemma_rows_from_no_item(d, b, i + 1);
    }
}

/// A line made of `n` spaces and a text that starts with no whitespace.
pub proof fn lemma_spaced_line(n: nat, rest: Seq<char>)
    requires
        rest.len() > 0,
        !is_ws(rest[0]),
    ensures
        indent(spaces(n) + rest) == n,
        trim_start(spaces(n) + rest) == rest,
        !is_blank(spaces(n) + rest),
{
    lemma_ws_count_spaces(n, rest);
    let line = spaces(n) + rest;
    assert(line.take(n as int) =~= spaces(n));
    lemma_width_spaces(n);
    assert(trim_start(line) =~= rest);
    assert(line[n as int] == rest[0]);
}

/// An end scan over lines all deeper than its base runs to the end.
pub proof fn lemma_scan_to_end(d: Seq<Seq<char>>, base: nat, j: int)
    requires
        0 <= j,
        forall|t: int| j <= t < d.len() ==> !is_blank(#[trigger] d[t]) && indent(d[t]) > base,
    ensures
        end_scan(d, base, j) == d.len(),
    decreases d.len() - j,
{
    if j < d.len() {
        assert(!is_blank(d[j]) && indent(d[j]) > base);
        lemma_scan_to_end(d, base, j + 1);
    }
}

/// The single-row tail of a document: an item at `s` followed only by
/// deeper key lines.
proof fn lemma_item_tail(d: Seq<Seq<char>>, s: int, hi: int)
    requires
        0 <= s < hi <= d.len(),
        is_item(d[s]),
        forall|t: int| s < t < hi ==> !is_item(#[trigger] d[t]),
    ensures
        min_item(d, s, hi) == Some(indent(d[s])),
        child_starts(d, indent(d[s]), s, hi) == seq![s],
    decreases hi - s,
{
    if hi > s + 1 {
        assert(!is_item(d[hi - 1]));
        lemma_item_tail(d, s, hi - 1);
    } else {
        assert(min_item(d, s, s) == None::<nat>);
        assert(child_starts(d, indent(d[s]), s, s) =~= Seq::<int>::empty());
        assert(child_starts(d, indent(d[s]), s, hi) =~= seq![s]);
    }
}

/// A fresh insert block appended to a patch where the plugin is not yet
/// mounted is read back as the plugin's row, with the flag it was written
/// with — given that YAML reads the quoted name as the name and `true` as
/// the boolean.
pub proof fn lemma_appended_block_reads(lines: Seq<Seq<char>>, id: Seq<char>, disabled: bool)
    requires
        find_block_spec(lines, id) is None,
        yaml_value(seq!['\''] + id + seq!['\'']) == Ok::<YamlScalarView, Seq<char>>(
            YamlScalarView::Text(id),
        ),
        yaml_value(true_word()) == Ok::<YamlScalarView, Seq<char>>(YamlScalarView::Flag(true)),
    ensures
        registration_spec(with_separator(lines) + insert_block_spec(id, disabled), id) == Some(
            disabled,
        ),
        flag_row_agrees(with_separator(lines) + insert_block_spec(id, disabled), id),
        single_flag_line(with_separator(lines) + insert_block_spec(id, disabled), id),
{
    let n0 = lines.len() as int;
    let w = with_separator(lines);
    let blk = insert_block_spec(id, disabled);
    let n = w + blk;
    let l = w.len() as int;
    let len = n.len() as int;
    // The block's lines.
    let b0 = insert_opener();
    let rest1 = seq!['-', ' ', 'i', 'd', ':', ' '] + loader_id(id);
    let b1 = spaces(4) + rest1;
    let rest2 = seq!['n', 'a', 'm', 'e', ':', ' ', '\''] + id + seq!['\''];
    let b2 = spaces(6) + rest2;
    assert(b0 =~= spaces(0) + b0);
    lemma_spaced_line(0, b0);
    assert(rest1[0] == '-');
    lemma_spaced_line(4, rest1);
    assert(rest2[0] == 'n');
    lemma_spaced_line(6, rest2);
    assert(n[l] == b0);
    assert(n[l + 1] == b1);
    assert(n[l + 2] == b2);
    assert(b0.take(2) =~= dash_space());
    assert(is_item(b0));
    assert(is_insert(b0));
    assert(rest1.take(2) =~= dash_space());
    assert(is_item(b1));
    if is_item(b2) {
        assert(rest2.take(2)[0] == rest2[0]);
    }
    if disabled {
        lemma_disabled_line(6);
        lemma_disabled_key_line(disabled_line(6), 6);
        assert(n[l + 3] == disabled_line(6));
        assert(len == l + 4);
    } else {
        assert(len == l + 3);
    }
    // `n` continues `lines` with the block.
    assert forall|j: int| 0 <= j < n0 implies #[trigger] n[j] == lines[j] by {
        assert(w[j] == lines[j]);
    }
    assert forall|j: int| n0 <= j < l implies is_blank(#[trigger] n[j]) by {
        assert(n[j] == w[j]);
        assert(w[j] =~= Seq::<char>::empty());
    }
    assert(continues_with_item(lines, n, l));
    // The document's base is column 0.
    lemma_min_item_bounds(n, 0, len);
    let bm = min_item(n, 0, len)->0;
    assert(bm <= indent(n[l]));
    assert(bm == 0);
    // The block is one mount row.
    assert forall|t: int| l + 1 <= t < len implies !is_blank(#[trigger] n[t]) && indent(n[t]) > 0 by {
        if t == l + 1 {
        } else if t == l + 2 {
        } else {
            assert(n[t] == disabled_line(6));
        }
    }
    lemma_scan_to_end(n, 0, l + 1);
    assert forall|t: int| l + 2 <= t < len implies !is_blank(#[trigger] n[t]) && indent(n[t]) > 4 by {
        if t == l + 2 {
        } else {
            assert(n[t] == disabled_line(6));
        }
    }
    lemma_scan_to_end(n, 4, l + 2);
    assert forall|t: int| l + 1 < t < len implies !is_item(#[trigger] n[t]) by {
        if t == l + 2 {
        } else {
            assert(n[t] == disabled_line(6));
        }
    }
    lemma_item_tail(n, l + 1, len);
    let newrow: RowSpec = ((l + 1, len), (l, len));
    assert(insert_rows(n, l, len) =~= seq![newrow]);
    assert(rows_from(n, 0, len) =~= Seq::<RowSpec>::empty());
    assert(rows_from(n, 0, l) =~= seq![newrow]);
    lemma_rows_from_append(lines, n, l, 0);
    let r0s = rows_from(lines, 0, 0);
    let pre = rows_after_append(n0, l, r0s);
    let rows = mount_rows_spec(n);
    assert(rows == pre + seq![newrow]);
    // No earlier row is the plugin's.
    lemma_rows_from_shaped(lines, 0, 0);
    match min_item(lines, 0, n0) {
        Some(b) => {
            if b == 0 {
                assert(mount_rows_spec(lines) == r0s);
                lemma_first_match_none(lines, r0s, id, 0);
            } else {
                lemma_min_item_bounds(lines, 0, n0);
                lemma_rows_from_no_item(lines, 0, 0);
            }
        },
        None => {
            lemma_min_item_bounds(lines, 0, n0);
            lemma_rows_from_no_item(lines, 0, 0);
        },
    }
    assert forall|m: int| 0 <= m < pre.len() implies !row_matches(n, #[trigger] rows[m], id) by {
        assert(rows[m] == pre[m]);
        lemma_row_matches_append(lines, n, l, r0s[m], id);
    }
    // The new row is declared under its name.
    assert(rest1.skip(2)[0] == 'i');
    assert(!starts_with(rest1.skip(2), key_name().push(':'))) by {
        if starts_with(rest1.skip(2), key_name().push(':')) {
            assert(rest1.skip(2).take(5)[0] == rest1.skip(2)[0]);
        }
    }
    assert(!starts_with(rest1.skip(2), key_disabled().push(':'))) by {
        if starts_with(rest1.skip(2), key_disabled().push(':')) {
            assert(rest1.skip(2).take(9)[0] == rest1.skip(2)[0]);
        }
    }
    assert(rest2.take(5) =~= key_name().push(':'));
    let v = rest2.skip(5);
    assert(v =~= seq![' '] + (seq!['\''] + id + seq!['\'']));
    let qv = seq!['\''] + id + seq!['\''];
    assert(qv[0] == '\'');
    assert(v.drop_first() =~= qv);
    assert(ws_count(qv) == 0);
    assert(ws_count(v) == 1);
    assert(trim_start(v) =~= qv);
    assert(qv.last() == '\'');
    assert(trailing_ws_count(qv) == 0);
    assert(trim(v) =~= qv);
    assert(raw_value(n, l + 1, len, key_name()) == Some(v));
    assert(row_matches(n, newrow, id));
    lemma_first_match_at(n, rows, id, 0, pre.len() as int);
    // And it carries the flag it was written with.
    assert(!starts_with(rest2, key_disabled().push(':'))) by {
        if starts_with(rest2, key_disabled().push(':')) {
            assert(rest2.take(9)[0] == rest2[0]);
        }
    }
    if disabled {
        lemma_disabled_key_from_first(n, 6, l + 2, len, l + 3);
        lemma_key_line_disabled(n, l + 1, len, l + 2);
        assert(raw_value(n, l + 1, len, key_disabled()) == Some(
            trim_start(disabled_line(6)).skip(disabled_prefix().len() as int),
        ));
    } else {
        assert(!is_disabled_key(n[l + 2], 6));
        lemma_disabled_key_from_facts(n, 6, l + 2, len);
        lemma_key_line_disabled(n, l + 1, len, l + 2);
        assert(raw_value(n, l + 1, len, key_disabled()).is_none());
    }
    // The row is the one the flag editor writes.
    assert(first_item_from(n, l + 1, len) == Some(l + 1));
    assert(item_row_range_spec(n, l, len) == (l + 1, len));
    assert(child_indent_spec(n, l, len) == 6);
    assert(!is_insert(b1)) by {
        if is_insert(b1) {
            assert(rest1.take(9)[3] == rest1[3]);
        }
    }
    assert(!is_disabled_key(n[l + 2], 6));
    if disabled {
        lemma_disabled_key_from_first(n, 6, l + 2, len, l + 3);
        assert(disabled_key_from(n, 6, l + 4, len) is None);
    } else {
        lemma_disabled_key_from_facts(n, 6, l + 2, len);
    }
}

/// What YAML reads a single-quoted `id` as.
pub open spec fn quoted(id: Seq<char>) -> Seq<char> {
    seq!['\''] + id + seq!['\'']
}

/// Disabling a plugin is read back: after `set disabled` with `true` the
/// registration reader finds the plugin, disabled — whether it was mounted
/// (its row being the one the editor writes, [`flag_row_agrees`]) or gets
/// mounted by the edit. Given that YAML reads `true` as the boolean and,
/// for a fresh mount, the quoted id as the id.
pub proof fn lemma_disable_reads_back(lines: Seq<Seq<char>>, id: Seq<char>)
    requires
        yaml_value(true_word()) == Ok::<YamlScalarView, Seq<char>>(YamlScalarView::Flag(true)),
        find_block_spec(lines, id) is Some ==> flag_row_agrees(lines, id),
        find_block_spec(lines, id) is None ==> yaml_value(quoted(id)) == Ok::<
            YamlScalarView,
            Seq<char>,
        >(YamlScalarView::Text(id)),
    ensures
        set_disabled_spec(lines, id, true) is Some,
        registration_spec(set_disabled_spec(lines, id, true)->0, id) == Some(true),
{
    if find_block_spec(lines, id) is Some {
        lemma_disable_mounted_reads_back(lines, id);
    } else {
        assert(quoted(id) == seq!['\''] + id + seq!['\'']);
        lemma_appended_block_reads(lines, id, true);
    }
}

/// Enabling a plugin is read back: after `set disabled` with `false` the
/// registration reader finds the plugin, enabled, when it was mounted (its
/// row being the one the editor writes and carrying at most one
/// `disabled:` line at its key level); an unmounted plugin is left
/// unmounted and nothing is written.
pub proof fn lemma_enable_reads_back(lines: Seq<Seq<char>>, id: Seq<char>)
    requires
        find_block_spec(lines, id) is Some ==> flag_row_agrees(lines, id) && single_flag_line(
            lines,
            id,
        ),
    ensures
        match set_disabled_spec(lines, id, false) {
            Some(n) => registration_spec(n, id) == Some(false),
            None => registration_spec(lines, id) is None,
        },
{
    if find_block_spec(lines, id) is Some {
        lemma_enable_mounted_reads_back(lines, id);
    }
}

/// Registering a plugin is read back: once mounted by `register`, the
/// registration reader finds it, disabled exactly when it was registered
/// as disabled. Given that YAML reads the quoted id as the id and `true`
/// as the boolean.
pub proof fn lemma_register_reads_back(lines: Seq<Seq<char>>, id: Seq<char>, disabled: Option<bool>)
    requires
        register_spec(lines, id, disabled) is Some,
        yaml_value(quoted(id)) == Ok::<YamlScalarView, Seq<char>>(YamlScalarView::Text(id)),
        yaml_value(true_word()) == Ok::<YamlScalarView, Seq<char>>(YamlScalarView::Flag(true)),
    ensures
        registration_spec(register_spec(lines, id, disabled)->0, id) == Some(disabled == Some(true)),
{
    lemma_appended_block_reads(lines, id, disabled == Some(true));
}

proof fn lemma_lookup_shift(a: Seq<(Seq<char>, bool)>, b: Seq<(Seq<char>, bool)>, id: Seq<char>, j: int)
    requires
        0 <= j,
    ensures
        lookup_from(a + b, id, a.len() + j) == lookup_from(b, id, j),
    decreases b.len() - j,
{
    if j < b.len() {
        assert((a + b)[a.len() + j] == b[j]);
        lemma_lookup_shift(a, b, id, j + 1);
    }
}

proof fn lemma_lookup_concat_from(a: Seq<(Seq<char>, bool)>, b: Seq<(Seq<char>, bool)>, id: Seq<char>, k: int)
    requires
        0 <= k <= a.len(),
    ensures
        lookup_from(a + b, id, k) == (match lookup_from(a, id, k) {
            Some(x) => Some(x),
            None => lookup_from(b, id, 0),
        }),
    decreases a.len() - k,
{
    if k < a.len() {
        assert((a + b)[k] == a[k]);
        lemma_lookup_concat_from(a, b, id, k + 1);
    } else {
        lemma_lookup_shift(a, b, id, 0);
    }
}

/// The first declaration of `id` in two lists one after the other.
proof fn lemma_lookup_concat(a: Seq<(Seq<char>, bool)>, b: Seq<(Seq<char>, bool)>, id: Seq<char>)
    ensures
        lookup(a + b, id) == (match lookup(a, id) {
            Some(x) => Some(x),
            None => lookup(b, id),
        }),
{
    lemma_lookup_concat_from(a, b, id, 0);
}

proof fn lemma_lookup_single(x: (Seq<char>, bool), id: Seq<char>)
    ensures
        lookup(seq![x], id) == (if x.0 == id {
            Some(x.1)
        } else {
            None
        }),
{
    assert(seq![x][0] == x);
    assert(lookup_from(seq![x], id, 1) is None);
}

proof fn lemma_row_declarations_lookup(lines: Seq<Seq<char>>, row: RowSpec, id: Seq<char>)
    ensures
        lookup(row_declarations(lines, row), id) == (if row_matches(lines, row, id) {
            Some(row_disabled(lines, row))
        } else {
            None
        }),
{
    let d = row_disabled(lines, row);
    let va = row_value_spec(lines, row.0.0, row.0.1, key_id());
    let vb = row_value_spec(lines, row.0.0, row.0.1, key_name());
    let a = match va {
        Some(YamlScalarView::Text(s)) => seq![(s, d)],
        _ => Seq::empty(),
    };
    let b = match vb {
        Some(YamlScalarView::Text(s)) => seq![(s, d)],
        _ => Seq::empty(),
    };
    assert(row_declarations(lines, row) == a + b);
    lemma_lookup_concat(a, b, id);
    if let Some(YamlScalarView::Text(s)) = va {
        lemma_lookup_single((s, d), id);
    }
    if let Some(YamlScalarView::Text(s)) = vb {
        lemma_lookup_single((s, d), id);
    }
}

proof fn lemma_first_match_first(lines: Seq<Seq<char>>, rows: Seq<RowSpec>, id: Seq<char>, k: int)
    requires
        0 <= k,
    ensures
        match first_match(lines, rows, id, k) {
            Some(m) => forall|j: int| k <= j < m ==> !row_matches(lines, #[trigger] rows[j], id),
            None => true,
        },
    decreases rows.len() - k,
{
    if k < rows.len() && !row_matches(lines, rows[k], id) {
        lemma_first_match_first(lines, rows, id, k + 1);
    }
}

proof fn lemma_declarations_upto_lookup(lines: Seq<Seq<char>>, rows: Seq<RowSpec>, id: Seq<char>, n: int)
    requires
        0 <= n <= rows.len(),
    ensures
        lookup(declarations_upto(lines, rows, n), id) == (match first_match(lines, rows, id, 0) {
            Some(k) => if k < n {
                Some(row_disabled(lines, rows[k]))
            } else {
                None
            },
            None => None,
        }),
    decreases n,
{
    if n > 0 {
        lemma_declarations_upto_lookup(lines, rows, id, n - 1);
        let prev = declarations_upto(lines, rows, n - 1);
        let rd = row_declarations(lines, rows[n - 1]);
        assert(declarations_upto(lines, rows, n) == prev + rd);
        lemma_lookup_concat(prev, rd, id);
        lemma_row_declarations_lookup(lines, rows[n - 1], id);
        lemma_first_match_found(lines, rows, id, 0);
        lemma_first_match_first(lines, rows, id, 0);
        lemma_first_match_none_or_later(lines, rows, id);
        match first_match(lines, rows, id, 0) {
            Some(k) => {
                if k > n - 1 {
                    assert(!row_matches(lines, rows[n - 1], id));
                }
            },
            None => {
                assert(!row_matches(lines, rows[n - 1], id));
            },
        }
    } else {
        lemma_first_match_found(lines, rows, id, 0);
        assert(lookup_from(declarations_upto(lines, rows, 0), id, 0) is None);
    }
}

proof fn lemma_first_match_none_or_later(lines: Seq<Seq<char>>, rows: Seq<RowSpec>, id: Seq<char>)
    ensures
        first_match(lines, rows, id, 0) is None ==> forall|m: int|
            0 <= m < rows.len() ==> !row_matches(lines, #[trigger] rows[m], id),
{
    if first_match(lines, rows, id, 0) is None {
        lemma_first_match_none(lines, rows, id, 0);
    }
}

/// In a list with each id once, an id is listed disabled exactly when its
/// entry says so.
proof fn lemma_disabled_ids_distinct(s: Seq<(Seq<char>, bool)>, id: Seq<char>)
    requires
        forall|i: int, j: int| 0 <= i < j < s.len() ==> #[trigger] s[i].0 != #[trigger] s[j].0,
    ensures
        disabled_ids(s).contains(id) <==> lookup(s, id) == Some(true),
        (forall|j: int| 0 <= j < s.len() ==> #[trigger] s[j].0 != id) ==> !disabled_ids(s).contains(id),
    decreases s.len(),
{
    if s.len() > 0 {
        let t = s.drop_last();
        let x = s.last();
        assert(s == t.push(x));
        lemma_disabled_ids_distinct(t, id);
        lemma_lookup_concat(t, seq![x], id);
        assert(t + seq![x] == s);
        lemma_lookup_single(x, id);
        lemma_lookup_found(t, id, 0);
        if x.0 == id {
            assert forall|j: int| 0 <= j < t.len() implies #[trigger] t[j].0 != id by {
                assert(s[j] == t[j]);
                assert(s[j].0 != s[s.len() - 1].0);
            }
        } else {
            if forall|j: int| 0 <= j < s.len() ==> #[trigger] s[j].0 != id {
                assert forall|j: int| 0 <= j < t.len() implies #[trigger] t[j].0 != id by {
                    assert(s[j] == t[j]);
                }
            }
        }
        if x.1 {
            assert(disabled_ids(s) == disabled_ids(t).push(x.0));
            assert(disabled_ids(s).contains(id) <==> (disabled_ids(t).contains(id) || x.0 == id)) by {
                if x.0 == id {
                    assert(disabled_ids(s)[disabled_ids(t).len() as int] == x.0);
                }
                if disabled_ids(s).contains(id) && x.0 != id {
                    let w = choose|w: int| 0 <= w < disabled_ids(s).len() && disabled_ids(s)[w] == id;
                    assert(disabled_ids(t)[w] == id);
                }
                if disabled_ids(t).contains(id) {
                    let w = choose|w: int| 0 <= w < disabled_ids(t).len() && disabled_ids(t)[w] == id;
                    assert(disabled_ids(s)[w] == id);
                }
            }
        } else {
            assert(disabled_ids(s) == disabled_ids(t));
        }
    }
}

/// The two readers of a patch agree: a plugin is among the ids read as
/// disabled exactly when its registration reads as disabled.
pub proof fn lemma_readers_agree(lines: Seq<Seq<char>>, id: Seq<char>)
    ensures
        disabled_ids(first_wins(declarations(lines))).contains(id) <==> registration_spec(lines, id)
            == Some(true),
{
    let rows = mount_rows_spec(lines);
    lemma_declarations_upto_lookup(lines, rows, id, rows.len() as int);
    lemma_first_match_found(lines, rows, id, 0);
    lemma_first_wins_lookup(declarations(lines), id);
    lemma_first_wins_distinct(declarations(lines));
    lemma_disabled_ids_distinct(first_wins(declarations(lines)), id);
}

/// Dropping scaffold placeholders from lines that hold none changes nothing.
proof fn lemma_no_placeholders(d: Seq<Seq<char>>)
    requires
        forall|k: int| 0 <= k < d.len() ==> !is_placeholder(#[trigger] d[k]),
    ensures
        drop_placeholders(d) == d,
    decreases d.len(),
{
    if d.len() > 0 {
        lemma_no_placeholders(d.drop_last());
        assert(d.drop_last().push(d.last()) =~= d);
    }
}

/// A line that starts with a space or a dash is no scaffold placeholder.
proof fn lemma_not_placeholder(line: Seq<char>)
    requires
        line.len() > 0,
        line[0] == ' ' || line[0] == '-',
    ensures
        !is_placeholder(line),
{
    if is_placeholder(line) {
        crate::text::lemma_trailing_bound(line);
        let t = line.take(line.len() - trailing_ws_count(line));
        assert(t == trim_end(line));
        assert(t.len() == 2);
        assert(t[0] == line[0]);
        assert(t[0] == '[');
    }
}

/// Restoring a registration snapshot is read back: after restoring
/// `Some(disabled)`, the registration reader finds the plugin with that
/// flag — for a plugin still mounted whose row is the one the editor writes
/// (with at most one `disabled:` key line when restoring `false`), or for
/// one mounted afresh into a patch without scaffold placeholders. Given
/// that YAML reads `true` as the boolean and the quoted id as the id.
pub proof fn lemma_restore_reads_back(lines: Seq<Seq<char>>, id: Seq<char>, disabled: bool)
    requires
        yaml_value(true_word()) == Ok::<YamlScalarView, Seq<char>>(YamlScalarView::Flag(true)),
        yaml_value(quoted(id)) == Ok::<YamlScalarView, Seq<char>>(YamlScalarView::Text(id)),
        find_block_spec(lines, id) is Some ==> flag_row_agrees(lines, id) && (!disabled
            ==> single_flag_line(lines, id)),
        find_block_spec(lines, id) is None ==> forall|k: int|
            0 <= k < lines.len() ==> !is_placeholder(#[trigger] lines[k]),
    ensures
        restore_spec(lines, id, Some(disabled)) is Some,
        registration_spec(restore_spec(lines, id, Some(disabled))->0, id) == Some(disabled),
{
    if find_block_spec(lines, id) is Some {
        if disabled {
            lemma_disable_mounted_reads_back(lines, id);
        } else {
            lemma_enable_mounted_reads_back(lines, id);
        }
    } else {
        let w = with_separator(lines);
        let blk = insert_block_spec(id, disabled);
        let n = w + blk;
        assert(quoted(id) == seq!['\''] + id + seq!['\'']);
        lemma_appended_block_reads(lines, id, disabled);
        assert forall|k: int| 0 <= k < n.len() implies !is_placeholder(#[trigger] n[k]) by {
            if k < lines.len() {
                assert(n[k] == lines[k]);
            } else if k < w.len() {
                assert(n[k] == w[k]);
                assert(w[k] =~= Seq::<char>::empty());
                assert(trim_end(w[k]).len() == 0);
            } else {
                let j = k - w.len();
                assert(n[k] == blk[j]);
                if j == 0 {
                    assert(blk[0][0] == '-');
                } else if j == 1 {
                    assert(blk[1][0] == ' ');
                } else if j == 2 {
                    assert(blk[2][0] == ' ');
                } else {
                    assert(blk[3] == disabled_line(6));
                    assert(blk[3][0] == ' ');
                }
                lemma_not_placeholder(n[k]);
            }
        }
        lemma_no_placeholders(n);
        assert(register_spec(lines, id, Some(disabled)) == Some(n));
        assert((Some(disabled) == Some(true)) == disabled);
        if disabled {
            lemma_disable_mounted_reads_back(n, id);
        } else {
            lemma_enable_mounted_reads_back(n, id);
        }
    }
}

proof fn lemma_key_line_found(d: Seq<Seq<char>>, r0: int, r1: int, p: Seq<char>, j: int)
    requires
        0 <= j,
    ensures
        match key_line_from(d, r0, r1, p, j) {
            Some(v) => exists|t: int|
                j <= t < r1 && t < d.len() && starts_with(trim_start(#[trigger] d[t]), p) && v
                    == trim_start(d[t]).skip(p.len() as int),
            None => true,
        },
    decreases r1 - j,
{
    if j < r1 && j < d.len() {
        if !(indent(d[j]) == indent(d[r0]) + 2 && starts_with(trim_start(d[j]), p)) {
            lemma_key_line_found(d, r0, r1, p, j + 1);
        }
    }
}

/// A row declared under `id` has a line in its range that declares it.
proof fn lemma_row_match_has_line(d: Seq<Seq<char>>, row: RowSpec, id: Seq<char>)
    requires
        row_in_bounds_of(d, row),
        row_matches(d, row, id),
    ensures
        exists|j: int| row.0.0 <= j < row.0.1 && line_declares(#[trigger] d[j], id),
{
    let (r0, r1) = row.0;
    let t = trim_start(d[r0]);
    if row_value_spec(d, r0, r1, key_id()) == Some(YamlScalarView::Text(id)) {
        let p = key_id().push(':');
        if starts_with(t, dash_space()) && starts_with(t.skip(2), p) {
            assert(line_declares(d[r0], id));
        } else {
            lemma_key_line_found(d, r0, r1, p, r0 + 1);
            let j = choose|j: int|
                r0 + 1 <= j < r1 && j < d.len() && starts_with(trim_start(#[trigger] d[j]), p)
                    && key_line_from(d, r0, r1, p, r0 + 1)->0 == trim_start(d[j]).skip(p.len() as int);
            assert(line_declares(d[j], id));
        }
    } else {
        let p = key_name().push(':');
        if starts_with(t, dash_space()) && starts_with(t.skip(2), p) {
            assert(line_declares(d[r0], id));
        } else {
            lemma_key_line_found(d, r0, r1, p, r0 + 1);
            let j = choose|j: int|
                r0 + 1 <= j < r1 && j < d.len() && starts_with(trim_start(#[trigger] d[j]), p)
                    && key_line_from(d, r0, r1, p, r0 + 1)->0 == trim_start(d[j]).skip(p.len() as int);
            assert(line_declares(d[j], id));
        }
    }
}

/// Whether line `j` lies in the range, when there is one.
pub open spec fn within(range: Option<(int, int)>, j: int) -> bool {
    match range {
        Some((s, e)) => s <= j < e,
        None => false,
    }
}

pub open spec fn row_in_bounds_of(d: Seq<Seq<char>>, row: RowSpec) -> bool {
    0 <= row.0.0 < row.0.1 <= d.len()
}

/// No line declares `id`: then no row of the patch is the plugin's.
proof fn lemma_undeclared_is_unregistered(d: Seq<Seq<char>>, id: Seq<char>)
    requires
        forall|j: int| 0 <= j < d.len() ==> !line_declares(#[trigger] d[j], id),
    ensures
        registration_spec(d, id) is None,
{
    let rows = mount_rows_spec(d);
    lemma_first_match_found(d, rows, id, 0);
    lemma_mount_rows_shaped(d);
    if let Some(k) = first_match(d, rows, id, 0) {
        assert(row_shaped(d, rows[k]));
        lemma_row_match_has_line(d, rows[k], id);
    }
}

proof fn lemma_trim_blank_tail_prefix(d: Seq<Seq<char>>)
    ensures
        trim_blank_tail(d).len() <= d.len(),
        forall|k: int| 0 <= k < trim_blank_tail(d).len() ==> #[trigger] trim_blank_tail(d)[k] == d[k],
    decreases d.len(),
{
    if d.len() > 0 && is_blank(d.last()) {
        lemma_trim_blank_tail_prefix(d.drop_last());
    }
}

/// Unmounting a plugin is read back: after its row is removed the
/// registration reader no longer finds it, provided no line outside the
/// removed range declares it.
pub proof fn lemma_remove_reads_back(lines: Seq<Seq<char>>, id: Seq<char>)
    requires
        find_block_spec(lines, id) is Some,
        forall|j: int|
            0 <= j < lines.len() && !within(find_block_spec(lines, id), j) ==> !line_declares(
                #[trigger] lines[j],
                id,
            ),
    ensures
        remove_spec(lines, id) is Some,
        registration_spec(remove_spec(lines, id)->0, id) is None,
{
    let (s, e) = find_block_spec(lines, id)->0;
    crate::plugins::cordis::lemma_find_block_bounds(lines, id);
    let x = lines.take(s) + lines.skip(e);
    let n = trim_blank_tail(x);
    lemma_trim_blank_tail_prefix(x);
    assert forall|j: int| 0 <= j < n.len() implies !line_declares(#[trigger] n[j], id) by {
        assert(n[j] == x[j]);
        if j < s {
            assert(x[j] == lines[j]);
        } else {
            assert(x[j] == lines[j + (e - s)]);
        }
    }
    lemma_undeclared_is_unregistered(n, id);
}

/* ------------------------- disabling twice ------------------------- */

/// What the first item from `j` is: an item, with none before it.
proof fn lemma_first_item_facts(a: Seq<Seq<char>>, j: int, r: int)
    requires
        0 <= j,
    ensures
        match first_item_from(a, j, r) {
            Some(x) => j <= x < r && x < a.len() && is_item(a[x]) && forall|m: int|
                j <= m < x ==> !is_item(#[trigger] a[m]),
            None => true,
        },
    decreases r - j,
{
    if !(j >= r || j >= a.len()) && !is_item(a[j]) {
        lemma_first_item_facts(a, j + 1, r);
    }
}

proof fn lemma_first_item_at(b: Seq<Seq<char>>, j: int, rb: int, x: int)
    requires
        0 <= j <= x,
        x < rb,
        x < b.len(),
        is_item(b[x]),
        forall|m: int| j <= m < x ==> !is_item(#[trigger] b[m]),
    ensures
        first_item_from(b, j, rb) == Some(x),
    decreases x - j,
{
    if j < x {
        assert(!is_item(b[j]));
        lemma_first_item_at(b, j + 1, rb, x);
    }
}

/// The first item from `j` is found at `x` in `b` too when `b` agrees with
/// `a` up to `x` and its range reaches past `x`.
proof fn lemma_first_item_prefix(a: Seq<Seq<char>>, b: Seq<Seq<char>>, j: int, ra: int, rb: int, x: int)
    requires
        0 <= j,
        first_item_from(a, j, ra) == Some(x),
        x < rb,
        x < b.len(),
        forall|m: int| j <= m <= x ==> a[m] == b[m],
    ensures
        first_item_from(b, j, rb) == Some(x),
{
    lemma_first_item_facts(a, j, ra);
    assert forall|m: int| j <= m < x implies !is_item(#[trigger] b[m]) by {
        assert(a[m] == b[m]);
    }
    assert(a[x] == b[x]);
    lemma_first_item_at(b, j, rb, x);
}

/// The flag editor finds the same row in `n` as in `lines`: same block,
/// same row opener `r0`, same key indentation.
proof fn lemma_same_block_row(
    lines: Seq<Seq<char>>,
    n: Seq<Seq<char>>,
    s: int,
    e: int,
    e2: int,
    r0: int,
)
    requires
        0 <= s <= r0 < e,
        r0 < e2,
        r0 < n.len(),
        r0 < lines.len(),
        item_row_range_spec(lines, s, e).0 == r0,
        !is_insert(lines[r0]),
        forall|m: int| 0 <= m <= r0 ==> lines[m] == n[m],
    ensures
        item_row_range_spec(n, s, e2).0 == r0,
        child_indent_spec(n, s, e2) == child_indent_spec(lines, s, e),
{
    if is_insert(lines[s]) {
        assert(s != r0);
        match first_item_from(lines, s + 1, e) {
            Some(x) => {
                assert(x == r0);
                lemma_first_item_prefix(lines, n, s + 1, e, e2, r0);
            },
            None => {},
        }
    }
}

/// Disabling a mounted plugin twice writes the same text as disabling it
/// once: the second edit rewrites its own `disabled: true` line with the
/// same line. Stated for a plugin whose row is the one the editor writes
/// ([`flag_row_agrees`]).
#[verifier::spinoff_prover]
#[verifier::rlimit(60)]
pub proof fn lemma_disable_twice_is_disable_once(lines: Seq<Seq<char>>, id: Seq<char>)
    requires
        flag_row_agrees(lines, id),
    ensures
        set_disabled_spec(lines, id, true) is Some,
        set_disabled_spec(set_disabled_spec(lines, id, true)->0, id, true) == set_disabled_spec(lines, id, true),
{
    let rows = mount_rows_spec(lines);
    lemma_first_match_found(lines, rows, id, 0);
    let k = first_match(lines, rows, id, 0)->0;
    lemma_mount_rows_shaped(lines);
    assert(row_shaped(lines, rows[k]));
    let (r0, r1) = rows[k].0;
    let (s, e) = rows[k].1;
    let ci = child_indent_spec(lines, s, e);
    assert(find_block_spec(lines, id) == Some((s, e)));
    let l = disabled_line(ci);
    lemma_disabled_line(ci);
    lemma_disabled_key_line(l, ci);
    lemma_disabled_key_from_facts(lines, ci, r0 + 1, e);
    match disabled_key_from(lines, ci, r0 + 1, e) {
        Some(i) => {
            let n = lines.update(i, l);
            assert(flag_edit(lines, s, e, true) == n);
            lemma_disabled_key_line(lines[i], ci);
            assert(nested_key_line(lines, i, r0));
            assert(nested_key_line(n, i, r0));
            assert(n.remove(i) =~= lines.remove(i));
            lemma_same_row_found(lines, i, r0, id);
            lemma_same_row_found(n, i, r0, id);
            let rn = mount_rows_spec(n);
            lemma_mount_rows_delete(lines, i, r0);
            lemma_mount_rows_delete(n, i, r0);
            lemma_mount_rows_shaped(n);
            assert(rows_after_delete(i, rn)[k] == rows_after_delete(i, rows)[k]);
            assert(row_shaped(n, rn[k]));
            let (q0, q1) = rn[k].0;
            let (s2, e2) = rn[k].1;
            assert(after_delete(i, q0) == r0);
            assert(q0 == r0);
            assert(after_delete(i, q1) == after_delete(i, r1));
            assert(q1 == r1);
            assert(after_delete(i, s2) == s);
            assert(s2 == s);
            assert(after_delete(i, e2) == after_delete(i, e));
            assert(e2 == e);
            assert(find_block_spec(n, id) == Some((s, e)));
            lemma_same_block_row(lines, n, s, e, e, r0);
            lemma_disabled_key_from_first(n, ci, r0 + 1, e, i);
            assert(flag_edit(n, s, e, true) =~= n);
        },
        None => {
            let q = r0 + 1;
            let n = lines.insert(q, l);
            assert(flag_edit(lines, s, e, true) == n);
            assert(nested_key_line(n, q, r0));
            assert(n.remove(q) =~= lines);
            lemma_same_row_found(n, q, r0, id);
            let rn = mount_rows_spec(n);
            lemma_mount_rows_delete(n, q, r0);
            lemma_mount_rows_shaped(n);
            assert(rows_after_delete(q, rn)[k] == rows[k]);
            assert(row_shaped(n, rn[k]));
            let (q0, q1) = rn[k].0;
            let (s2, e2) = rn[k].1;
            assert(q0 == r0);
            assert(q1 > q);
            assert(after_delete(q, s2) == s);
            assert(s2 == s);
            assert(e2 > q);
            assert(find_block_spec(n, id) == Some((s, e2)));
            lemma_same_block_row(lines, n, s, e, e2, r0);
            lemma_disabled_key_from_first(n, ci, q, e2, q);
            assert(flag_edit(n, s, e2, true) =~= n);
        },
    }
}

} // verus!
