//! What the disabled-id reader of a `- id:` block patch gives back after
//! the flag editor and the registration editor have written it.

use vstd::prelude::*;
use crate::plugins::cordis_rows::{
    after_delete, within, lemma_blank_not_item, lemma_disabled_key_from_facts, lemma_disabled_line,
    lemma_scan_delete, lemma_scan_to_end, lemma_spaced_line,
};
use crate::plugins::id_blocks::{
    block_end, block_flagged, block_of, child_indent_from, child_indent_spec, disabled_at,
    disabled_ids_upto, disabled_key_from, disabled_line, disabled_prefix, end_scan, first_row_from,
    id_prefix, is_disabled_key, is_disabled_true, is_id_row, lemma_block_of, lemma_first_row, name_prefix, new_block, register_spec, remove_spec, row_id, set_disabled_spec,
    with_separator,
};
use crate::text::{indent, is_blank, is_ws, spaces, trim_start};

verus! {

/* ------------------------------- spec ------------------------------- */

/// The line that opens a fresh block for `id`.
pub open spec fn id_line(id: Seq<char>) -> Seq<char> {
    id_prefix() + seq![' '] + id
}

/// Apart from the `disabled:` key line the editor would drop, the plugin's
/// block holds no `disabled: true` line at any level.
pub open spec fn no_other_flag_line(lines: Seq<Seq<char>>, id: Seq<char>) -> bool {
    match block_of(lines, id) {
        Some((s, e)) => {
            let key = disabled_key_from(lines, child_indent_spec(lines, s, e), s + 1, e);
            forall|j: int|
                s < j < e && key != Some(j) ==> !is_disabled_true(
                    #[trigger] lines[j],
                    indent(lines[j]),
                )
        },
        None => true,
    }
}

/* ------------------------------ lemmas ------------------------------ */

proof fn lemma_first_row_at(d: Seq<Seq<char>>, id: Seq<char>, j: int, t: int)
    requires
        0 <= j <= t < d.len(),
        is_id_row(d[t], id),
        forall|k: int| j <= k < t ==> !is_id_row(#[trigger] d[k], id),
    ensures
        first_row_from(d, id, j) == Some(t),
    decreases t - j,
{
    if j < t {
        assert(!is_id_row(d[j], id));
        lemma_first_row_at(d, id, j + 1, t);
    }
}

/// The first block of `id` stays first when nothing up to it changes.
proof fn lemma_first_row_same_prefix(d1: Seq<Seq<char>>, d2: Seq<Seq<char>>, id: Seq<char>, s: int)
    requires
        first_row_from(d1, id, 0) == Some(s),
        s < d2.len(),
        forall|k: int| 0 <= k <= s ==> #[trigger] d2[k] == d1[k],
    ensures
        first_row_from(d2, id, 0) == Some(s),
{
    lemma_first_row(d1, id, 0);
    assert forall|k: int| 0 <= k < s implies !is_id_row(#[trigger] d2[k], id) by {
        assert(d2[k] == d1[k]);
    }
    assert(d2[s] == d1[s]);
    lemma_first_row_at(d2, id, 0, s);
}

proof fn lemma_disabled_ids_contains(d: Seq<Seq<char>>, t: int, m: int)
    requires
        0 <= t < m <= d.len(),
        disabled_at(d, t),
    ensures
        disabled_ids_upto(d, m).contains(row_id(d[t])->0),
    decreases m,
{
    let x = row_id(d[t])->0;
    if m == t + 1 {
        let prev = disabled_ids_upto(d, t);
        assert(disabled_ids_upto(d, m) == prev.push(x));
        assert(disabled_ids_upto(d, m)[prev.len() as int] == x);
    } else {
        lemma_disabled_ids_contains(d, t, m - 1);
        let prev = disabled_ids_upto(d, m - 1);
        let w = choose|w: int| 0 <= w < prev.len() && prev[w] == x;
        if disabled_at(d, m - 1) {
            assert(disabled_ids_upto(d, m)[w] == x);
        }
    }
}

proof fn lemma_disabled_ids_only(d: Seq<Seq<char>>, id: Seq<char>, m: int)
    requires
        0 <= m <= d.len(),
        disabled_ids_upto(d, m).contains(id),
    ensures
        exists|t: int| 0 <= t < m && disabled_at(d, t) && #[trigger] row_id(d[t]) == Some(id),
    decreases m,
{
    if m > 0 {
        let prev = disabled_ids_upto(d, m - 1);
        let w = choose|w: int|
            0 <= w < disabled_ids_upto(d, m).len() && disabled_ids_upto(d, m)[w] == id;
        if disabled_at(d, m - 1) && w == prev.len() {
            assert(row_id(d[m - 1]) == Some(id));
        } else {
            assert(prev[w] == id);
            lemma_disabled_ids_only(d, id, m - 1);
        }
    }
}

/// Reading the disabled ids: a plugin whose first block is at `s` is listed
/// exactly when that block is flagged.
proof fn lemma_listed_iff_first_block_flagged(d: Seq<Seq<char>>, id: Seq<char>, s: int)
    requires
        first_row_from(d, id, 0) == Some(s),
        0 <= s < d.len(),
        row_id(d[s]) == Some(id),
    ensures
        disabled_ids_upto(d, d.len() as int).contains(id) <==> disabled_at(d, s),
{
    if disabled_at(d, s) {
        lemma_disabled_ids_contains(d, s, d.len() as int);
    }
    if disabled_ids_upto(d, d.len() as int).contains(id) {
        lemma_disabled_ids_only(d, id, d.len() as int);
        let t = choose|t: int|
            0 <= t < d.len() && disabled_at(d, t) && #[trigger] row_id(d[t]) == Some(id);
        assert(first_row_from(d, id, 0) == Some(t));
    }
}

proof fn lemma_scan_update(d: Seq<Seq<char>>, i: int, l: Seq<char>, base: nat, j: int)
    requires
        0 <= i < d.len(),
        0 <= j,
        (!is_blank(d[i]) && indent(d[i]) <= base) == (!is_blank(l) && indent(l) <= base),
    ensures
        end_scan(d.update(i, l), base, j) == end_scan(d, base, j),
    decreases d.len() - j,
{
    if j < d.len() {
        lemma_scan_update(d, i, l, base, j + 1);
    }
}

proof fn lemma_child_indent_update(
    d: Seq<Seq<char>>,
    i: int,
    l: Seq<char>,
    r0: int,
    r1: int,
    j: int,
)
    requires
        0 <= i < d.len(),
        0 <= r0 < d.len(),
        r0 != i,
        is_blank(d[i]) == is_blank(l),
        indent(d[i]) == indent(l),
    ensures
        child_indent_from(d.update(i, l), r0, r1, j) == child_indent_from(d, r0, r1, j),
    decreases r1 - j,
{
    if j < r1 && j >= 0 && j < d.len() {
        lemma_child_indent_update(d, i, l, r0, r1, j + 1);
    }
}

proof fn lemma_scan_shift(d: Seq<Seq<char>>, p: int, l: Seq<char>, base: nat, t: int)
    requires
        0 <= p <= t,
        p <= d.len(),
    ensures
        end_scan(d.insert(p, l), base, t + 1) == end_scan(d, base, t) + 1,
    decreases d.len() - t,
{
    if t < d.len() {
        assert(d.insert(p, l)[t + 1] == d[t]);
        lemma_scan_shift(d, p, l, base, t + 1);
    }
}

/// The block's children sit deeper than its opener.
proof fn lemma_child_indent_deeper(d: Seq<Seq<char>>, r0: int, r1: int, j: int)
    requires
        0 <= r0 < j,
        r0 < d.len(),
        forall|k: int| j <= k < r1 && k < d.len() ==> is_blank(#[trigger] d[k]) || indent(d[k]) > indent(d[r0]),
    ensures
        child_indent_from(d, r0, r1, j) > indent(d[r0]),
    decreases r1 - j,
{
    if j < r1 && j < d.len() && is_blank(d[j]) {
        lemma_child_indent_deeper(d, r0, r1, j + 1);
    }
}

proof fn lemma_child_indent_first(d: Seq<Seq<char>>, r0: int, r1: int, j: int, t: int)
    requires
        0 <= j <= t < r1,
        t < d.len(),
        !is_blank(d[t]),
        forall|k: int| j <= k < t ==> is_blank(#[trigger] d[k]),
    ensures
        child_indent_from(d, r0, r1, j) == indent(d[t]),
    decreases t - j,
{
    if j < t {
        assert(is_blank(d[j]));
        lemma_child_indent_first(d, r0, r1, j + 1, t);
    }
}

/// A blank line declares no block.
proof fn lemma_blank_no_row(line: Seq<char>)
    requires
        is_blank(line),
    ensures
        row_id(line) is None,
{
    lemma_blank_not_item(line);
}

/// Disabling a registered plugin is read back: its first block is then
/// flagged, and the disabled-id reader lists it.
proof fn lemma_disable_registered_reads_back(lines: Seq<Seq<char>>, id: Seq<char>)
    requires
        block_of(lines, id) is Some,
        id.len() > 0,
    ensures
        set_disabled_spec(lines, id, true) is Some,
        disabled_ids_upto(
            set_disabled_spec(lines, id, true)->0,
            set_disabled_spec(lines, id, true)->0.len() as int,
        ).contains(id),
{
    lemma_block_of(lines, id);
    let (s, e) = block_of(lines, id)->0;
    lemma_first_row(lines, id, 0);
    assert(first_row_from(lines, id, 0) == Some(s));
    assert(row_id(lines[s]) == Some(id));
    let ci = child_indent_spec(lines, s, e);
    lemma_child_indent_deeper(lines, s, e, s + 1);
    let l = disabled_line(ci);
    lemma_disabled_line(ci);
    lemma_disabled_key_from_facts(lines, ci, s + 1, e);
    assert(l[ci as int] == 'd');
    assert(!is_blank(l)) by {
        assert(!is_ws(l[ci as int]));
    }
    match disabled_key_from(lines, ci, s + 1, e) {
        Some(i) => {
            let n = lines.update(i, l);
            assert(set_disabled_spec(lines, id, true) == Some(n));
            let t = trim_start(lines[i]);
            assert(t.take(disabled_prefix().len() as int) == disabled_prefix());
            assert(t[0] == 'd');
            assert(!is_blank(lines[i])) by {
                crate::text::lemma_ws_count_bound(lines[i]);
                assert(lines[i][crate::text::ws_count(lines[i]) as int] == t[0]);
            }
            lemma_first_row_same_prefix(lines, n, id, s);
            assert(n[s] == lines[s]);
            lemma_scan_update(lines, i, l, indent(lines[s]), s + 1);
            assert(block_end(n, s) == e);
            lemma_child_indent_update(lines, i, l, s, e, s + 1);
            assert(child_indent_spec(n, s, e) == ci);
            assert(is_disabled_true(n[i], ci));
            assert(block_flagged(n, s, e));
            assert(disabled_at(n, s));
            lemma_disabled_ids_contains(n, s, n.len() as int);
        },
        None => {
            let p = s + 1;
            let n = lines.insert(p, l);
            assert(set_disabled_spec(lines, id, true) == Some(n));
            lemma_first_row_same_prefix(lines, n, id, s);
            assert(n[s] == lines[s]);
            assert(n[p] == l);
            lemma_scan_shift(lines, p, l, indent(lines[s]), p);
            assert(block_end(n, s) == e + 1);
            lemma_child_indent_first(n, s, e + 1, p, p);
            assert(child_indent_spec(n, s, e + 1) == ci);
            assert(is_disabled_true(n[p], ci));
            assert(block_flagged(n, s, e + 1));
            assert(disabled_at(n, s));
            lemma_disabled_ids_contains(n, s, n.len() as int);
        },
    }
}

/// A fresh block appended for a plugin that had none is read back with the
/// flag it was written with.
proof fn lemma_new_block_reads_back(lines: Seq<Seq<char>>, id: Seq<char>, disabled: bool)
    requires
        block_of(lines, id) is None,
        id.len() > 0,
        row_id(id_line(id)) == Some(id),
    ensures
        ({
            let n = with_separator(lines) + new_block(id, disabled);
            disabled_ids_upto(n, n.len() as int).contains(id) <==> disabled
        }),
{
    let w = with_separator(lines);
    let b = new_block(id, disabled);
    let n = w + b;
    let l = w.len() as int;
    let len = n.len() as int;
    lemma_block_of(lines, id);
    let l0 = id_line(id);
    let rest1 = name_prefix() + seq![' '] + id;
    let l1 = seq![' ', ' '] + name_prefix() + seq![' '] + id;
    assert(l1 =~= spaces(2) + rest1);
    assert(rest1[0] == 'n');
    lemma_spaced_line(2, rest1);
    assert(l0 =~= spaces(0) + l0);
    assert(l0[0] == '-');
    lemma_spaced_line(0, l0);
    assert(n[l] == l0);
    assert(n[l + 1] == l1);
    // The new block is the plugin's first.
    assert forall|k: int| 0 <= k < l implies !is_id_row(#[trigger] n[k], id) by {
        if k < lines.len() {
            assert(n[k] == lines[k]);
        } else {
            assert(n[k] == w[k]);
            assert(w[k] =~= Seq::<char>::empty());
            lemma_blank_no_row(n[k]);
        }
    }
    lemma_first_row_at(n, id, 0, l);
    assert(row_id(n[l]) == Some(id));
    // It spans to the end of the document.
    if disabled {
        lemma_disabled_line(2);
        assert(b[2] == disabled_line(2));
        assert(n[l + 2] == disabled_line(2));
        assert(disabled_line(2)[2] == 'd');
        assert(!is_blank(disabled_line(2))) by {
            assert(!is_ws(disabled_line(2)[2]));
        }
        assert(len == l + 3);
    } else {
        assert(len == l + 2);
    }
    assert forall|t: int| l + 1 <= t < len implies !is_blank(#[trigger] n[t]) && indent(n[t]) > 0 by {
        if t == l + 2 {
            assert(n[t] == disabled_line(2));
        }
    }
    lemma_scan_to_end(n, 0, l + 1);
    assert(block_end(n, l) == len);
    lemma_child_indent_first(n, l, len, l + 1, l + 1);
    assert(child_indent_spec(n, l, len) == 2);
    if disabled {
        assert(is_disabled_true(n[l + 2], 2));
        assert(block_flagged(n, l, len));
    } else {
        assert(trim_start(l1) == rest1);
        if block_flagged(n, l, len) {
            let j = choose|j: int| l < j < len && #[trigger] is_disabled_true(n[j], 2);
            assert(j == l + 1);
            assert(trim_start(l1).take(disabled_prefix().len() as int)[0] == 'n');
        }
    }
    lemma_listed_iff_first_block_flagged(n, id, l);
}

/// Disabling a plugin is read back: after `set disabled` with `true` the
/// disabled-id reader lists it — whether it had a block (the first one
/// gets the flag) or gets one appended, given that its `- id:` line
/// declares it.
pub proof fn lemma_disable_reads_back(lines: Seq<Seq<char>>, id: Seq<char>)
    requires
        id.len() > 0,
        block_of(lines, id) is None ==> row_id(id_line(id)) == Some(id),
    ensures
        set_disabled_spec(lines, id, true) is Some,
        disabled_ids_upto(
            set_disabled_spec(lines, id, true)->0,
            set_disabled_spec(lines, id, true)->0.len() as int,
        ).contains(id),
{
    if block_of(lines, id) is Some {
        lemma_disable_registered_reads_back(lines, id);
    } else {
        lemma_new_block_reads_back(lines, id, true);
    }
}

/// Enabling a plugin is read back: after `set disabled` with `false` the
/// disabled-id reader no longer lists it, when its block holds no other
/// `disabled: true` line than the key the editor drops; a plugin without a
/// block is left alone and nothing is written.
pub proof fn lemma_enable_reads_back(lines: Seq<Seq<char>>, id: Seq<char>)
    requires
        no_other_flag_line(lines, id),
    ensures
        match set_disabled_spec(lines, id, false) {
            Some(n) => !disabled_ids_upto(n, n.len() as int).contains(id),
            None => block_of(lines, id) is None,
        },
{
    lemma_block_of(lines, id);
    if let Some((s, e)) = block_of(lines, id) {
        lemma_first_row(lines, id, 0);
        assert(first_row_from(lines, id, 0) == Some(s));
        assert(row_id(lines[s]) == Some(id));
        let ci = child_indent_spec(lines, s, e);
        lemma_child_indent_deeper(lines, s, e, s + 1);
        lemma_disabled_key_from_facts(lines, ci, s + 1, e);
        match disabled_key_from(lines, ci, s + 1, e) {
            Some(i) => {
                let n = lines.remove(i);
                assert(set_disabled_spec(lines, id, false) == Some(n));
                let t = trim_start(lines[i]);
                assert(t.take(disabled_prefix().len() as int) == disabled_prefix());
                assert(!is_blank(lines[i])) by {
                    crate::text::lemma_ws_count_bound(lines[i]);
                    assert(lines[i][crate::text::ws_count(lines[i]) as int] == t[0]);
                }
                assert forall|k: int| 0 <= k <= s implies #[trigger] n[k] == lines[k] by {}
                lemma_first_row_same_prefix(lines, n, id, s);
                lemma_scan_delete(lines, i, indent(lines[s]), s + 1);
                assert(after_delete(i, s + 1) == s + 1);
                assert(n[s] == lines[s]);
                assert(block_end(n, s) == e - 1);
                if block_flagged(n, s, e - 1) {
                    let j = choose|j: int|
                        s < j < e - 1 && #[trigger] is_disabled_true(
                            n[j],
                            child_indent_spec(n, s, e - 1),
                        );
                    if j < i {
                        assert(n[j] == lines[j]);
                        assert(!is_disabled_true(lines[j], indent(lines[j])));
                    } else {
                        assert(n[j] == lines[j + 1]);
                        assert(!is_disabled_true(lines[j + 1], indent(lines[j + 1])));
                    }
                }
                assert(!disabled_at(n, s));
                lemma_listed_iff_first_block_flagged(n, id, s);
            },
            None => {
                assert(set_disabled_spec(lines, id, false) == Some(lines));
                if block_flagged(lines, s, e) {
                    let j = choose|j: int| s < j < e && #[trigger] is_disabled_true(lines[j], ci);
                    assert(is_disabled_key(lines[j], ci));
                }
                lemma_listed_iff_first_block_flagged(lines, id, s);
            },
        }
    }
}

/// Registering a plugin is read back: the disabled-id reader lists it
/// exactly when it was registered as disabled, given that its `- id:` line
/// declares it.
pub proof fn lemma_register_reads_back(lines: Seq<Seq<char>>, id: Seq<char>, disabled: Option<bool>)
    requires
        register_spec(lines, id, disabled) is Some,
        id.len() > 0,
        row_id(id_line(id)) == Some(id),
    ensures
        ({
            let n = register_spec(lines, id, disabled)->0;
            disabled_ids_upto(n, n.len() as int).contains(id) <==> disabled == Some(true)
        }),
{
    lemma_new_block_reads_back(lines, id, disabled == Some(true));
}

/// Unregistering a plugin is read back: once its block is removed the
/// plugin has no block and is not listed disabled, when no `- id:` line
/// for it stands outside the removed block.
pub proof fn lemma_remove_reads_back(lines: Seq<Seq<char>>, id: Seq<char>)
    requires
        block_of(lines, id) is Some,
        forall|j: int|
            0 <= j < lines.len() && !within(block_of(lines, id), j) ==> !is_id_row(
                #[trigger] lines[j],
                id,
            ),
    ensures
        remove_spec(lines, id) is Some,
        block_of(remove_spec(lines, id)->0, id) is None,
        !disabled_ids_upto(remove_spec(lines, id)->0, remove_spec(lines, id)->0.len() as int).contains(
            id,
        ),
{
    lemma_block_of(lines, id);
    let (s, e) = block_of(lines, id)->0;
    let n = lines.take(s) + lines.skip(e);
    assert(remove_spec(lines, id) == Some(n));
    assert forall|k: int| 0 <= k < n.len() implies !is_id_row(#[trigger] n[k], id) by {
        if k < s {
            assert(n[k] == lines[k]);
        } else {
            assert(n[k] == lines[k + (e - s)]);
        }
    }
    lemma_first_row(n, id, 0);
    assert(first_row_from(n, id, 0) is None);
    if disabled_ids_upto(n, n.len() as int).contains(id) {
        lemma_disabled_ids_only(n, id, n.len() as int);
        let t = choose|t: int|
            0 <= t < n.len() && disabled_at(n, t) && #[trigger] row_id(n[t]) == Some(id);
        assert(is_id_row(n[t], id));
    }
}

} // verus!
