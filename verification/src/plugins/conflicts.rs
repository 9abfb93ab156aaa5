//! Known-bad profile configurations: plugin sets that DSH accepts at boot but
//! that break the instance later, far from their cause.
//!
//! Each known configuration lists its plugin rows; each row lists the
//! spellings the same row can be declared with, PHL's short `- id:` handle
//! first, then DSH's package name. The first spelling that is declared and
//! enabled is the handle a repair edits.

use vstd::prelude::*;
use crate::plugins::cordis::{
    declarations, declared_plugin_ids_in, decls_view, lemma_first_wins_lookup, lookup,
    set_disabled_spec, set_plugin_disabled_lines,
};
use crate::text::views;

verus! {

/* ------------------------------- spec ------------------------------- */

/// The two rows of the Browser Use provider pair. Both must be off: the
/// registry entry alone mounts nothing, and the provider entry is what DSH
/// starts per session.
pub open spec fn browser_use_rows() -> Seq<Seq<Seq<char>>> {
    seq![
        seq!["browser-use"@, "@deepseek-ai/dsh-browser-use"@],
        seq![
            "browser-use-chrome-devtools-mcp"@,
            "@deepseek-ai/dsh-experimental-browser-use-chrome-devtools-mcp"@,
        ],
    ]
}

/// Title and symptom of the Browser Use configuration, as one check message.
pub open spec fn browser_use_message() -> Seq<char> {
    "Browser Use（Chrome DevTools MCP） 已启用：该实例只有第一个会话能建成：之后每次在 DSH 里新建会话都会失败（DSH 报 mcp-client(chrome-devtools-mcp) 启动失败），界面上点「新建会话」没有任何反应，磁盘上却会不断留下空白会话目录"@
}

/// The first spelling of a row, from `k` on, that is declared and enabled.
pub open spec fn live_spelling(decls: Seq<(Seq<char>, bool)>, spellings: Seq<Seq<char>>, k: int) -> Option<
    Seq<char>,
>
    decreases spellings.len() - k,
{
    if k < 0 || k >= spellings.len() {
        None
    } else if lookup(decls, spellings[k]) == Some(false) {
        Some(spellings[k])
    } else {
        live_spelling(decls, spellings, k + 1)
    }
}

/// One handle per enabled row among the first `n` rows, in row order.
pub open spec fn live_handles(decls: Seq<(Seq<char>, bool)>, rows: Seq<Seq<Seq<char>>>, n: int) -> Seq<
    Seq<char>,
>
    decreases n,
{
    if n <= 0 || n > rows.len() {
        Seq::empty()
    } else {
        match live_spelling(decls, rows[n - 1], 0) {
            Some(s) => live_handles(decls, rows, n - 1).push(s),
            None => live_handles(decls, rows, n - 1),
        }
    }
}

/// The known configurations enabled in the patch lines: for each, the
/// handles to turn off and the message to show.
pub open spec fn enabled_conflicts_spec(lines: Seq<Seq<char>>) -> Seq<(Seq<Seq<char>>, Seq<char>)> {
    let rows = browser_use_rows();
    let ids = live_handles(declarations(lines), rows, rows.len() as int);
    if ids.len() > 0 {
        seq![(ids, browser_use_message())]
    } else {
        Seq::empty()
    }
}

/* ------------------------------- exec ------------------------------- */

/// One configuration found enabled in a profile's patch file.
#[derive(Debug)]
pub struct ProfileConflict {
    /// The declared spelling to turn off per enabled row, one per row.
    pub ids: Vec<String>,
    /// Title and symptom, as one check message.
    pub message: String,
}

impl ProfileConflict {
    pub open spec fn view(&self) -> (Seq<Seq<char>>, Seq<char>) {
        (views(self.ids@), self.message@)
    }
}

pub open spec fn conflicts_view(v: Seq<ProfileConflict>) -> Seq<(Seq<Seq<char>>, Seq<char>)> {
    v.map_values(|c: ProfileConflict| c.view())
}

fn browser_use_table() -> (r: Vec<Vec<String>>)
    ensures
        r@.len() == browser_use_rows().len(),
        forall|i: int| 0 <= i < r@.len() ==> views(#[trigger] r@[i]@) == browser_use_rows()[i],
{
    let mut a: Vec<String> = Vec::new();
    a.push("browser-use".to_owned());
    a.push("@deepseek-ai/dsh-browser-use".to_owned());
    let mut b: Vec<String> = Vec::new();
    b.push("browser-use-chrome-devtools-mcp".to_owned());
    b.push("@deepseek-ai/dsh-experimental-browser-use-chrome-devtools-mcp".to_owned());
    assert(views(a@) =~= browser_use_rows()[0]);
    assert(views(b@) =~= browser_use_rows()[1]);
    let mut t: Vec<Vec<String>> = Vec::new();
    t.push(a);
    t.push(b);
    t
}

/// `declared.get(s)` on the kept declarations.
fn lookup_exec(decls: &Vec<(String, bool)>, s: &String) -> (r: Option<bool>)
    ensures
        r == lookup(decls_view(decls@), s@),
{
    let ghost dv = decls_view(decls@);
    let mut k: usize = 0;
    while k < decls.len()
        invariant
            k <= decls.len(),
            dv == decls_view(decls@),
            dv.len() == decls.len(),
            lookup(dv, s@) == crate::plugins::cordis::lookup_from(dv, s@, k as int),
        decreases decls.len() - k,
    {
        assert(dv[k as int] == (decls@[k as int].0@, decls@[k as int].1));
        if decls[k].0 == *s {
            return Some(decls[k].1);
        }
        k += 1;
    }
    None
}

fn live_spelling_exec(decls: &Vec<(String, bool)>, spellings: &Vec<String>) -> (r: Option<String>)
    ensures
        match r {
            Some(s) => live_spelling(decls_view(decls@), views(spellings@), 0) == Some(s@),
            None => live_spelling(decls_view(decls@), views(spellings@), 0).is_none(),
        },
{
    let ghost sv = views(spellings@);
    let mut k: usize = 0;
    while k < spellings.len()
        invariant
            k <= spellings.len(),
            sv == views(spellings@),
            sv.len() == spellings.len(),
            live_spelling(decls_view(decls@), sv, 0) == live_spelling(decls_view(decls@), sv, k as int),
        decreases spellings.len() - k,
    {
        assert(sv[k as int] == spellings@[k as int]@);
        if lookup_exec(decls, &spellings[k]) == Some(false) {
            return Some(spellings[k].clone());
        }
        k += 1;
    }
    None
}

/// Known conflicts currently enabled in the lines of a patch file: for each
/// enabled configuration, exactly one handle per enabled row (its first
/// declared, enabled spelling) and the check message.
pub fn enabled_conflicts_in(lines: &[String]) -> (r: Vec<ProfileConflict>)
    ensures
        conflicts_view(r@) == enabled_conflicts_spec(views(lines@)),
{
    let decls = declared_plugin_ids_in(lines);
    let ghost d = declarations(views(lines@));
    let ghost dv = decls_view(decls@);
    proof {
        assert forall|s: Seq<char>| #[trigger] lookup(dv, s) == lookup(d, s) by {
            lemma_first_wins_lookup(d, s);
        }
    }
    let table = browser_use_table();
    let ghost rows = browser_use_rows();
    let mut ids: Vec<String> = Vec::new();
    let mut n: usize = 0;
    while n < table.len()
        invariant
            n <= table.len(),
            table@.len() == rows.len(),
            rows == browser_use_rows(),
            forall|i: int| 0 <= i < table@.len() ==> views(#[trigger] table@[i]@) == rows[i],
            dv == decls_view(decls@),
            forall|s: Seq<char>| #[trigger] lookup(dv, s) == lookup(d, s),
            views(ids@) == live_handles(d, rows, n as int),
        decreases table.len() - n,
    {
        assert(views(table@[n as int]@) == rows[n as int]);
        let found = live_spelling_exec(&decls, &table[n]);
        proof {
            lemma_live_spelling_same(dv, d, rows[n as int], 0);
        }
        match found {
            Some(s) => {
                let ghost before = ids@;
                ids.push(s);
                proof {
                    crate::text::lemma_views_push(before, s);
                }
            },
            None => {},
        }
        n += 1;
    }
    let mut out: Vec<ProfileConflict> = Vec::new();
    if ids.len() > 0 {
        let message = "Browser Use（Chrome DevTools MCP） 已启用：该实例只有第一个会话能建成：之后每次在 DSH 里新建会话都会失败（DSH 报 mcp-client(chrome-devtools-mcp) 启动失败），界面上点「新建会话」没有任何反应，磁盘上却会不断留下空白会话目录".to_owned();
        out.push(ProfileConflict { ids, message });
        assert(conflicts_view(out@) =~= enabled_conflicts_spec(views(lines@)));
    } else {
        assert(conflicts_view(out@) =~= enabled_conflicts_spec(views(lines@)));
    }
    out
}

proof fn lemma_live_spelling_same(
    a: Seq<(Seq<char>, bool)>,
    b: Seq<(Seq<char>, bool)>,
    spellings: Seq<Seq<char>>,
    k: int,
)
    requires
        forall|s: Seq<char>| #[trigger] lookup(a, s) == lookup(b, s),
    ensures
        live_spelling(a, spellings, k) == live_spelling(b, spellings, k),
    decreases spellings.len() - k,
{
    if 0 <= k < spellings.len() {
        assert(lookup(a, spellings[k]) == lookup(b, spellings[k]));
        lemma_live_spelling_same(a, b, spellings, k + 1);
    }
}

/// Every reported configuration has at least one handle to turn off, and
/// every handle is declared enabled in the patch: a repair that disables the
/// reported handles only ever touches live rows.
pub proof fn lemma_reported_handles_are_live(lines: Seq<Seq<char>>)
    ensures
        forall|c: int|
            0 <= c < enabled_conflicts_spec(lines).len() ==> {
                let ids = #[trigger] enabled_conflicts_spec(lines)[c].0;
                &&& ids.len() > 0
                &&& forall|j: int|
                    0 <= j < ids.len() ==> lookup(declarations(lines), #[trigger] ids[j]) == Some(
                        false,
                    )
            },
{
    let rows = browser_use_rows();
    let d = declarations(lines);
    lemma_live_handles(d, rows, rows.len() as int);
}

proof fn lemma_live_spelling(decls: Seq<(Seq<char>, bool)>, spellings: Seq<Seq<char>>, k: int)
    ensures
        match live_spelling(decls, spellings, k) {
            Some(s) => lookup(decls, s) == Some(false),
            None => true,
        },
    decreases spellings.len() - k,
{
    if 0 <= k < spellings.len() && lookup(decls, spellings[k]) != Some(false) {
        lemma_live_spelling(decls, spellings, k + 1);
    }
}

proof fn lemma_live_handles(decls: Seq<(Seq<char>, bool)>, rows: Seq<Seq<Seq<char>>>, n: int)
    ensures
        forall|j: int|
            0 <= j < live_handles(decls, rows, n).len() ==> lookup(
                decls,
                #[trigger] live_handles(decls, rows, n)[j],
            ) == Some(false),
    decreases n,
{
    if 0 < n <= rows.len() {
        lemma_live_handles(decls, rows, n - 1);
        lemma_live_spelling(decls, rows[n - 1], 0);
        let p = live_handles(decls, rows, n - 1);
        assert forall|j: int| 0 <= j < live_handles(decls, rows, n).len() implies lookup(
            decls,
            #[trigger] live_handles(decls, rows, n)[j],
        ) == Some(false) by {
            if j < p.len() {
                assert(live_handles(decls, rows, n)[j] == p[j]);
            }
        }
    }
}

/// The patch lines after disabling each id in turn.
pub open spec fn disable_each(lines: Seq<Seq<char>>, ids: Seq<Seq<char>>) -> Seq<Seq<char>>
    decreases ids.len(),
{
    if ids.len() == 0 {
        lines
    } else {
        match set_disabled_spec(disable_each(lines, ids.drop_last()), ids.last(), true) {
            Some(n) => n,
            None => disable_each(lines, ids.drop_last()),
        }
    }
}

/// The handles a repair turns off: those of every enabled configuration.
pub open spec fn conflict_handles(lines: Seq<Seq<char>>) -> Seq<Seq<char>> {
    let c = enabled_conflicts_spec(lines);
    if c.len() > 0 {
        c[0].0
    } else {
        Seq::empty()
    }
}

/// Turns off every handle of every enabled known configuration: the new
/// patch lines, and the handles disabled, in order.
pub fn disable_all_lines(lines: Vec<String>) -> (r: (Vec<String>, Vec<String>))
    ensures
        views(r.1@) == conflict_handles(views(lines@)),
        views(r.0@) == disable_each(views(lines@), conflict_handles(views(lines@))),
{
    let found = enabled_conflicts_in(&lines);
    let ghost start = views(lines@);
    let mut ids: Vec<String> = Vec::new();
    if found.len() > 0 {
        ids = crate::text::copy_lines(&found[0].ids);
    }
    assert(views(ids@) == conflict_handles(start));
    let mut cur = lines;
    let mut k: usize = 0;
    while k < ids.len()
        invariant
            k <= ids.len(),
            views(ids@) == conflict_handles(start),
            views(cur@) == disable_each(start, views(ids@).take(k as int)),
        decreases ids.len() - k,
    {
        let ghost before = views(cur@);
        assert(views(ids@).take(k + 1).drop_last() =~= views(ids@).take(k as int));
        assert(views(ids@)[k as int] == ids@[k as int]@);
        let copy = crate::text::copy_lines(&cur);
        match set_plugin_disabled_lines(copy, ids[k].as_str(), true) {
            Some(next) => {
                cur = next;
            },
            None => {},
        }
        k += 1;
    }
    assert(views(ids@).take(k as int) =~= views(ids@));
    (cur, ids)
}

} // verus!
