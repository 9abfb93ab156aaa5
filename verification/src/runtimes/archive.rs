//! Where the entries of a runtime archive may land: the archive's top
//! directory is dropped, and an entry that would leave the destination is
//! refused.

use vstd::prelude::*;

use crate::plugins::market::{split_on, split_on_exec};
use crate::sessions::codec::cviews;
use crate::storage::{kept_segments, kept_segments_exec};
use crate::text::{chars_of, concat_chars, string_of};
use crate::verify::join_with;

verus! {

/// An entry name with `\` read as `/`, as archives written on Windows
/// spell their paths.
pub open spec fn slashed(p: Seq<char>) -> Seq<char> {
    p.map_values(|c: char| if c == '\\' { '/' } else { c })
}

/// The named components of an entry path.
pub open spec fn entry_parts(p: Seq<char>) -> Seq<Seq<char>> {
    kept_segments(split_on(slashed(p), '/'))
}

/// The entry path below the archive's top directory, or `None` when the
/// entry names nothing.
pub open spec fn strip_first_spec(p: Seq<char>) -> Option<Seq<char>> {
    if entry_parts(p).len() == 0 {
        None
    } else {
        Some(join_with(entry_parts(p).drop_first(), "/"@))
    }
}

fn slashed_exec(p: &str) -> (r: Vec<char>)
    ensures
        r@ == slashed(p@),
{
    let c = chars_of(p);
    let mut out: Vec<char> = Vec::new();
    let mut i: usize = 0;
    while i < c.len()
        invariant
            i <= c.len(),
            c@ == p@,
            out@ == slashed(c@.take(i as int)),
        decreases c.len() - i,
    {
        assert(slashed(c@.take(i + 1)) =~= slashed(c@.take(i as int)).push(if c@[i as int] == '\\' { '/' } else { c@[i as int] }));
        if c[i] == '\\' {
            out.push('/');
        } else {
            out.push(c[i]);
        }
        i += 1;
    }
    assert(c@.take(i as int) =~= c@);
    out
}

/// Drops the archive's top directory from an entry path (`node-v22/bin/node`
/// becomes `bin/node`); `None` for an entry that names nothing.
pub fn strip_first(path: &str) -> (r: Option<String>)
    ensures
        match r {
            Some(s) => strip_first_spec(path@) == Some(s@),
            None => strip_first_spec(path@).is_none(),
        },
{
    let segs = split_on_exec(&slashed_exec(path), '/');
    assert(cviews(segs@).skip(0) =~= cviews(segs@));
    let parts = kept_segments_exec(&segs, 0);
    let ghost pv = cviews(parts@);
    if parts.len() == 0 {
        return None;
    }
    let mut out: Vec<char> = Vec::new();
    let mut i: usize = 1;
    assert(pv.drop_first().take(0) =~= Seq::<Seq<char>>::empty());
    while i < parts.len()
        invariant
            1 <= i <= parts.len(),
            pv == cviews(parts@),
            out@ == join_with(pv.drop_first().take(i - 1), "/"@),
        decreases parts.len() - i,
    {
        let ghost rest = pv.drop_first();
        assert(rest.take(i as int).drop_last() =~= rest.take(i - 1));
        assert(rest[i - 1] == parts@[i as int]@);
        if i == 1 {
            assert(rest.take(1) =~= seq![rest[0]]);
            out = concat_chars(&out, &parts[i]);
            assert(out@ =~= rest[0]);
        } else {
            out = concat_chars(&concat_chars(&out, &['/']), &parts[i]);
            assert(seq!['/'] =~= "/"@) by {
                reveal_strlit("/");
            }
        }
        i += 1;
    }
    assert(pv.drop_first().take(i - 1) =~= pv.drop_first());
    Some(string_of(&out))
}

/// An entry path that stays inside the destination: relative (no leading
/// separator, no drive like `C:`) and with no `..` component.
pub open spec fn entry_stays_inside(rel: Seq<char>) -> bool {
    &&& !(rel.len() > 0 && (rel[0] == '/' || rel[0] == '\\'))
    &&& !(rel.len() >= 2 && rel[1] == ':')
    &&& forall|k: int| 0 <= k < split_on(slashed(rel), '/').len() ==> #[trigger] split_on(slashed(rel), '/')[k] != seq!['.', '.']
}

pub open spec fn escape_message(rel: Seq<char>) -> Seq<char> {
    "压缩包条目越出目标目录: "@ + rel
}

/// Joins an archive entry to the destination, refusing one that would
/// land outside it.
pub fn safe_join(dest: &str, rel: &str) -> (r: Result<String, String>)
    ensures
        match r {
            Ok(p) => entry_stays_inside(rel@) && p@ == dest@ + "/"@ + rel@,
            Err(e) => !entry_stays_inside(rel@) && e@ == escape_message(rel@),
        },
{
    let c = chars_of(rel);
    let bad_start = (c.len() > 0 && (c[0] == '/' || c[0] == '\\')) || (c.len() >= 2 && c[1] == ':');
    let segs = split_on_exec(&slashed_exec(rel), '/');
    let ghost sv = cviews(segs@);
    let mut dotdot = false;
    let mut k: usize = 0;
    while k < segs.len()
        invariant
            k <= segs.len(),
            sv == cviews(segs@),
            dotdot <==> exists|j: int| 0 <= j < k && sv[j] == seq!['.', '.'],
        decreases segs.len() - k,
    {
        let g = &segs[k];
        assert(sv[k as int] == g@);
        if g.len() == 2 && g[0] == '.' && g[1] == '.' {
            assert(g@ =~= seq!['.', '.']);
            dotdot = true;
        } else {
            assert(g@ != seq!['.', '.']);
        }
        k += 1;
    }
    if bad_start || dotdot {
        proof {
            if dotdot {
                let j = choose|j: int| 0 <= j < k && sv[j] == seq!['.', '.'];
                assert(split_on(slashed(rel@), '/')[j] == seq!['.', '.']);
            }
        }
        return Err(string_of(&concat_chars(&chars_of("压缩包条目越出目标目录: "), &c)));
    }
    assert forall|j: int| 0 <= j < split_on(slashed(rel@), '/').len() implies #[trigger] split_on(slashed(rel@), '/')[j]
        != seq!['.', '.'] by {
        assert(sv[j] == split_on(slashed(rel@), '/')[j]);
    }
    Ok(string_of(&concat_chars(&concat_chars(&chars_of(dest), &chars_of("/")), &c)))
}

} // verus!
