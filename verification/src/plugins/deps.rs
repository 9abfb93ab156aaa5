//! A plugin's own runtime dependencies, as the installer hands them to
//! pnpm: `name@range` for every string-valued entry of `dependencies` in
//! its `package.json`, in ascending order.

use vstd::prelude::*;
use vstd::seq_lib::to_multiset_insert;
use crate::json::{json_object_member, members_view, parse_json_member_object};
use crate::text::{chars_of, concat_chars, lemma_lex_order, lex_lt, lex_lt_exec, string_of, views};

verus! {

/// No entry is below the one before it.
pub open spec fn sorted_le(s: Seq<Seq<char>>) -> bool {
    forall|i: int, j: int| 0 <= i < j < s.len() ==> !lex_lt(#[trigger] s[j], #[trigger] s[i])
}

/// `name@range` for each member whose value is a string, in member order.
pub open spec fn dep_specs(members: Seq<(Seq<char>, Option<Seq<char>>)>) -> Seq<Seq<char>>
    decreases members.len(),
{
    if members.len() == 0 {
        Seq::empty()
    } else {
        let rest = dep_specs(members.drop_last());
        match members.last().1 {
            Some(range) => rest.push(members.last().0 + seq!['@'] + range),
            None => rest,
        }
    }
}

pub open spec fn parse_failure(e: Seq<char>) -> Seq<char> {
    "插件 package.json 解析失败: "@ + e
}

/// Inserts `x` after every entry that is not above it.
fn insert_in_order(out: &mut Vec<String>, x: String)
    requires
        sorted_le(views(old(out)@)),
    ensures
        sorted_le(views(final(out)@)),
        views(final(out)@).to_multiset() == views(old(out)@).to_multiset().insert(x@),
{
    let ghost ov = views(out@);
    let xc = chars_of(x.as_str());
    let mut p: usize = 0;
    while p < out.len() && !lex_lt_exec(&xc, &chars_of(out[p].as_str()))
        invariant
            p <= out.len(),
            ov == views(out@),
            ov.len() == out.len(),
            xc@ == x@,
            forall|i: int| 0 <= i < p ==> !lex_lt(x@, #[trigger] ov[i]),
        decreases out.len() - p,
    {
        assert(ov[p as int] == out@[p as int]@);
        p += 1;
    }
    proof {
        if p < out.len() {
            assert(ov[p as int] == out@[p as int]@);
        }
    }
    out.insert(p, x);
    let ghost nv = views(out@);
    assert(nv =~= ov.insert(p as int, x@));
    proof {
        to_multiset_insert(ov, p as int, x@);
        assert forall|i: int, j: int| 0 <= i < j < nv.len() implies !lex_lt(#[trigger] nv[j], #[trigger] nv[i]) by {
            if i < p && j == p {
                lemma_lex_order(x@, ov[i], ov[i]);
                if x@ != ov[i] {
                    lemma_lex_order(ov[i], x@, x@);
                }
            } else if i == p && j > p {
                // x precedes ov[p], and ov[p] is not above ov[j - 1].
                lemma_lex_order(ov[j - 1], x@, ov[p as int]);
                lemma_lex_order(ov[j - 1], ov[p as int], x@);
                if j - 1 > p {
                    lemma_lex_order(ov[j - 1], ov[p as int], ov[j - 1]);
                    lemma_lex_order(ov[p as int], ov[j - 1], ov[j - 1]);
                    lemma_lex_order(ov[j - 1], ov[p as int], x@);
                    if ov[p as int] != ov[j - 1] {
                        lemma_lex_order(ov[p as int], ov[j - 1], x@);
                        lemma_lex_order(ov[j - 1], x@, ov[p as int]);
                    }
                }
            }
        }
    }
}

/// The `name@range` specs of a plugin's `package.json`, sorted; refused
/// with the parser's message when the text is not JSON.
pub fn dependency_specs_of(text: &str) -> (r: Result<Vec<String>, String>)
    ensures
        match r {
            Ok(v) => {
                &&& json_object_member(text@, "dependencies"@) is Ok
                &&& sorted_le(views(v@))
                &&& views(v@).to_multiset() == match json_object_member(text@, "dependencies"@) {
                    Ok(Some(m)) => dep_specs(m).to_multiset(),
                    _ => vstd::multiset::Multiset::<Seq<char>>::empty(),
                }
            },
            Err(e) => json_object_member(text@, "dependencies"@) matches Err(x) && e@ == parse_failure(x),
        },
{
    let members = match parse_json_member_object(text, "dependencies") {
        Err(e) => {
            return Err(string_of(&concat_chars(&chars_of("插件 package.json 解析失败: "), &chars_of(e.as_str()))));
        },
        Ok(None) => {
            let v: Vec<String> = Vec::new();
            proof {
                broadcast use vstd::seq_lib::group_to_multiset_ensures, vstd::multiset::group_multiset_properties;
            }
            assert(views(v@) =~= Seq::<Seq<char>>::empty());
            assert(views(v@).to_multiset() =~= vstd::multiset::Multiset::<Seq<char>>::empty());
            return Ok(v);
        },
        Ok(Some(m)) => m,
    };
    let ghost mv = members_view(members@);
    let mut out: Vec<String> = Vec::new();
    assert(views(out@) =~= Seq::<Seq<char>>::empty());
    assert(dep_specs(mv.take(0)) =~= Seq::<Seq<char>>::empty());
    proof {
        broadcast use vstd::seq_lib::group_to_multiset_ensures, vstd::multiset::group_multiset_properties;
    }
    let mut k: usize = 0;
    while k < members.len()
        invariant
            k <= members.len(),
            mv == members_view(members@),
            mv.len() == members.len(),
            sorted_le(views(out@)),
            views(out@).to_multiset() == dep_specs(mv.take(k as int)).to_multiset(),
        decreases members.len() - k,
    {
        assert(mv.take(k + 1).drop_last() =~= mv.take(k as int));
        let (name, range) = &members[k];
        assert(mv[k as int].0 == name@);
        match range {
            Some(r) => {
                let spec_chars = concat_chars(&concat_chars(&chars_of(name.as_str()), &['@']), &chars_of(r.as_str()));
                let s = string_of(&spec_chars);
                assert(mv[k as int].1 == Some(r@));
                assert(s@ == mv[k as int].0 + seq!['@'] + r@);
                assert(mv.take(k + 1).last() == mv[k as int]);
                assert(dep_specs(mv.take(k + 1)) == dep_specs(mv.take(k as int)).push(s@));
                proof {
                    vstd::seq_lib::to_multiset_build(dep_specs(mv.take(k as int)), s@);
                }
                insert_in_order(&mut out, s);
            },
            None => {
                assert(mv[k as int].1.is_none());
                assert(mv.take(k + 1).last() == mv[k as int]);
                assert(dep_specs(mv.take(k + 1)) == dep_specs(mv.take(k as int)));
            },
        }
        k += 1;
    }
    assert(mv.take(k as int) =~= mv);
    Ok(out)
}

} // verus!
