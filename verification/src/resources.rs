//! Resource-level operation mutex.
//!
//! A mutating command atomically acquires the resources it will rewrite
//! before touching the disk, and releases them when it is done. The conflict
//! rules:
//!
//! - the same instance, version or runtime is exclusive with itself;
//! - a data-root migration is exclusive with everything (it moves all three);
//! - unrelated resources run concurrently (different instances never block
//!   each other).

use vstd::prelude::*;
use crate::decimal::{dec_digits, decimal_chars};
use crate::text::{
    chars_of, concat_chars, lemma_lex_order, lemma_views_push, lex_lt, lex_lt_exec, string_of, views,
};

verus! {

/* ------------------------------- keys ------------------------------- */

/// A unit of on-disk state that exactly one mutating operation may rewrite.
#[derive(Debug)]
pub enum Resource {
    Instance(String),
    Version(String),
    Runtime(String),
    /// The whole data root, held by a data-root migration only.
    DataRoot,
}

pub open spec fn instance_word() -> Seq<char> {
    seq!['i', 'n', 's', 't', 'a', 'n', 'c', 'e']
}

pub open spec fn version_word() -> Seq<char> {
    seq!['v', 'e', 'r', 's', 'i', 'o', 'n']
}

pub open spec fn runtime_word() -> Seq<char> {
    seq!['r', 'u', 'n', 't', 'i', 'm', 'e']
}

/// The data-root key. Its special status is defined once, in `conflicts`.
pub open spec fn root_key() -> Seq<char> {
    seq!['r', 'o', 'o', 't']
}

/// The lock key of a resource: `instance:<id>`, `version:<v>`,
/// `runtime:<r>`, or `root`.
pub open spec fn key_spec(r: Resource) -> Seq<char> {
    match r {
        Resource::Instance(id) => instance_word() + seq![':'] + id@,
        Resource::Version(v) => version_word() + seq![':'] + v@,
        Resource::Runtime(x) => runtime_word() + seq![':'] + x@,
        Resource::DataRoot => root_key(),
    }
}

/// Two keys cannot be held at once: the same key, or either is the root.
pub open spec fn conflicts(a: Seq<char>, b: Seq<char>) -> bool {
    a == b || a == root_key() || b == root_key()
}

/// Index of the first `:` at or after `k`.
pub open spec fn first_colon(s: Seq<char>, k: int) -> Option<int>
    decreases s.len() - k,
{
    if k < 0 || k >= s.len() {
        None
    } else if s[k] == ':' {
        Some(k)
    } else {
        first_colon(s, k + 1)
    }
}

/// A held key in the wording the user reads: "实例 main", "版本 0.17.3",
/// "Runtime node-22", or the data root.
pub open spec fn describe_spec(key: Seq<char>) -> Seq<char> {
    match first_colon(key, 0) {
        Some(i) => {
            let kind = key.take(i);
            let name = key.skip(i + 1);
            if kind == instance_word() {
                "实例 "@ + name
            } else if kind == version_word() {
                "版本 "@ + name
            } else if kind == runtime_word() {
                "Runtime "@ + name
            } else {
                "数据目录"@
            }
        },
        None => "数据目录"@,
    }
}

impl Resource {
    /// The lock key of this resource.
    pub fn key(&self) -> (r: String)
        ensures
            r@ == key_spec(*self),
    {
        match self {
            Resource::Instance(id) => {
                let w = vec!['i', 'n', 's', 't', 'a', 'n', 'c', 'e', ':'];
                assert(w@ =~= instance_word() + seq![':']);
                string_of(&concat_chars(&w, &chars_of(id.as_str())))
            },
            Resource::Version(v) => {
                let w = vec!['v', 'e', 'r', 's', 'i', 'o', 'n', ':'];
                assert(w@ =~= version_word() + seq![':']);
                string_of(&concat_chars(&w, &chars_of(v.as_str())))
            },
            Resource::Runtime(x) => {
                let w = vec!['r', 'u', 'n', 't', 'i', 'm', 'e', ':'];
                assert(w@ =~= runtime_word() + seq![':']);
                string_of(&concat_chars(&w, &chars_of(x.as_str())))
            },
            Resource::DataRoot => {
                let w = vec!['r', 'o', 'o', 't'];
                assert(w@ =~= root_key());
                string_of(&w)
            },
        }
    }
}

fn root_chars() -> (r: Vec<char>)
    ensures
        r@ == root_key(),
{
    let w = vec!['r', 'o', 'o', 't'];
    assert(w@ =~= root_key());
    w
}

/// Whether two keys exclude each other.
pub fn conflicts_exec(a: &String, b: &String) -> (r: bool)
    ensures
        r == conflicts(a@, b@),
{
    let root = string_of(&root_chars());
    *a == *b || *a == root || *b == root
}

fn first_colon_exec(s: &[char]) -> (r: Option<usize>)
    ensures
        match r {
            Some(i) => first_colon(s@, 0) == Some(i as int) && i < s.len(),
            None => first_colon(s@, 0).is_none(),
        },
{
    let mut k: usize = 0;
    while k < s.len()
        invariant
            k <= s.len(),
            first_colon(s@, 0) == first_colon(s@, k as int),
        decreases s.len() - k,
    {
        if s[k] == ':' {
            return Some(k);
        }
        k += 1;
    }
    None
}

/// Turns a held key into "实例 main" / "版本 0.17.3" style wording.
pub fn describe(key: &str) -> (r: String)
    ensures
        r@ == describe_spec(key@),
{
    let c = chars_of(key);
    match first_colon_exec(&c) {
        Some(i) => {
            let kind = crate::text::slice_prefix(&c, i);
            let name = crate::text::slice_range(&c, i + 1, c.len());
            assert(name@ =~= c@.skip(i + 1));
            let iw = vec!['i', 'n', 's', 't', 'a', 'n', 'c', 'e'];
            let vw = vec!['v', 'e', 'r', 's', 'i', 'o', 'n'];
            let rw = vec!['r', 'u', 'n', 't', 'i', 'm', 'e'];
            assert(iw@ =~= instance_word());
            assert(vw@ =~= version_word());
            assert(rw@ =~= runtime_word());
            if crate::text::chars_eq(&kind, &iw) {
                string_of(&concat_chars(&chars_of("实例 "), &name))
            } else if crate::text::chars_eq(&kind, &vw) {
                string_of(&concat_chars(&chars_of("版本 "), &name))
            } else if crate::text::chars_eq(&kind, &rw) {
                string_of(&concat_chars(&chars_of("Runtime "), &name))
            } else {
                "数据目录".to_owned()
            }
        },
        None => "数据目录".to_owned(),
    }
}

/// Two resources are the same one: the same kind, naming the same thing.
pub open spec fn same_resource(a: Resource, b: Resource) -> bool {
    match (a, b) {
        (Resource::Instance(x), Resource::Instance(y)) => x@ == y@,
        (Resource::Version(x), Resource::Version(y)) => x@ == y@,
        (Resource::Runtime(x), Resource::Runtime(y)) => x@ == y@,
        (Resource::DataRoot, Resource::DataRoot) => true,
        _ => false,
    }
}

/// Lock keys name resources one to one: two resources share a key exactly
/// when they are the same resource, so the lock table never mistakes one
/// for another (an instance called `root` is not the data root).
pub proof fn lemma_keys_injective(a: Resource, b: Resource)
    ensures
        (key_spec(a) == key_spec(b)) <==> same_resource(a, b),
{
    let ka = key_spec(a);
    let kb = key_spec(b);
    match (a, b) {
        (Resource::Instance(x), Resource::Instance(y)) => {
            if ka == kb {
                assert(ka.skip(9) =~= x@);
                assert(kb.skip(9) =~= y@);
            }
        },
        (Resource::Version(x), Resource::Version(y)) => {
            if ka == kb {
                assert(ka.skip(8) =~= x@);
                assert(kb.skip(8) =~= y@);
            }
        },
        (Resource::Runtime(x), Resource::Runtime(y)) => {
            if ka == kb {
                assert(ka.skip(8) =~= x@);
                assert(kb.skip(8) =~= y@);
            }
        },
        (Resource::DataRoot, Resource::DataRoot) => {},
        _ => {
            if ka == kb {
                assert(ka.len() == kb.len());
                assert(ka[0] == kb[0]);
            }
        },
    }
}

/* ----------------------------- conflicts ----------------------------- */

/// What was busy when an acquisition failed, so the UI can name the wait.
#[derive(Debug)]
pub struct Conflict {
    /// The resource key we tried to acquire.
    pub resource: String,
    /// The key currently held by another operation.
    pub held_by: String,
}

/// The message a refused acquisition shows.
pub open spec fn conflict_message(resource: Seq<char>, held_by: Seq<char>) -> Seq<char> {
    if held_by == root_key() {
        describe_spec(resource) + " 正被数据目录迁移占用，迁移完成后才能操作"@
    } else {
        describe_spec(resource) + " 正被另一个操作占用，请等待其完成后重试"@
    }
}

impl Conflict {
    /// The user-facing wording of the conflict.
    pub fn message(&self) -> (r: String)
        ensures
            r@ == conflict_message(self.resource@, self.held_by@),
    {
        let d = chars_of(describe(self.resource.as_str()).as_str());
        let root = string_of(&root_chars());
        if self.held_by == root {
            string_of(&concat_chars(&d, &chars_of(" 正被数据目录迁移占用，迁移完成后才能操作")))
        } else {
            string_of(&concat_chars(&d, &chars_of(" 正被另一个操作占用，请等待其完成后重试")))
        }
    }
}

/* ------------------------------- locks ------------------------------- */

/// Whether `s` is among `v`.
pub fn contains_string(v: &Vec<String>, s: &String) -> (b: bool)
    ensures
        b == views(v@).contains(s@),
{
    let ghost vv = views(v@);
    let mut j: usize = 0;
    while j < v.len()
        invariant
            j <= v.len(),
            vv == views(v@),
            vv.len() == v.len(),
            forall|w: int| 0 <= w < j ==> #[trigger] vv[w] != s@,
        decreases v.len() - j,
    {
        assert(vv[j as int] == v@[j as int]@);
        if v[j] == *s {
            return true;
        }
        j += 1;
    }
    false
}

/// The keys taken by one successful acquisition; hand it back to
/// [`ResourceLocks::release`] when the operation is done.
#[derive(Debug)]
pub struct Held {
    pub keys: Vec<String>,
}

impl Held {
    pub open spec fn view(&self) -> Seq<Seq<char>> {
        views(self.keys@)
    }
}

/// The set of keys currently held.
#[derive(Debug)]
pub struct ResourceLocks {
    pub held: Vec<String>,
}

/// The keys of a list of resources, in order.
pub open spec fn keys_of(rs: Seq<Resource>) -> Seq<Seq<char>> {
    rs.map_values(|r: Resource| key_spec(r))
}

/// The set of the keys in a sequence.
pub open spec fn key_set(ks: Seq<Seq<char>>) -> Set<Seq<char>> {
    Set::new(|k: Seq<char>| ks.contains(k))
}

/// Whether `k` can be taken while `held` is held.
pub open spec fn free(held: Set<Seq<char>>, k: Seq<char>) -> bool {
    forall|h: Seq<char>| #[trigger] held.contains(h) ==> !conflicts(k, h)
}

/// Whether every key of a request can be taken while `held` is held.
pub open spec fn all_free(held: Set<Seq<char>>, ks: Seq<Seq<char>>) -> bool {
    forall|i: int| 0 <= i < ks.len() ==> free(held, #[trigger] ks[i])
}

/// The first key of a request, from `k` on, that cannot be taken.
pub open spec fn first_busy(held: Set<Seq<char>>, ks: Seq<Seq<char>>, k: int) -> Option<int>
    decreases ks.len() - k,
{
    if k < 0 || k >= ks.len() {
        None
    } else if !free(held, ks[k]) {
        Some(k)
    } else {
        first_busy(held, ks, k + 1)
    }
}

/// Adding a key to a sequence adds it to its set.
pub proof fn lemma_key_set_push(s: Seq<Seq<char>>, x: Seq<char>)
    ensures
        key_set(s.push(x)) == key_set(s).insert(x),
{
    assert forall|k: Seq<char>| key_set(s.push(x)).contains(k) == key_set(s).insert(x).contains(k) by {
        if s.push(x).contains(k) {
            let w = choose|w: int| 0 <= w < s.push(x).len() && s.push(x)[w] == k;
            if w < s.len() {
                assert(s[w] == k);
            }
        }
        if s.contains(k) {
            let w = choose|w: int| 0 <= w < s.len() && s[w] == k;
            assert(s.push(x)[w] == k);
        }
        if k == x {
            assert(s.push(x)[s.len() as int] == k);
        }
    }
    assert(key_set(s.push(x)) =~= key_set(s).insert(x));
}

/// Strictly ascending, hence free of duplicates.
pub open spec fn sorted_strictly(s: Seq<Seq<char>>) -> bool {
    forall|i: int, j: int| 0 <= i < j < s.len() ==> lex_lt(#[trigger] s[i], #[trigger] s[j])
}

/// Inserts `k` into a strictly ascending list unless it is already there.
fn insert_sorted(out: &mut Vec<String>, k: String)
    requires
        sorted_strictly(views(old(out)@)),
    ensures
        sorted_strictly(views(final(out)@)),
        key_set(views(final(out)@)) == key_set(views(old(out)@)).insert(k@),
{
    let ghost ov = views(out@);
    let kc = chars_of(k.as_str());
    let mut p: usize = 0;
    while p < out.len()
        invariant
            p <= out.len(),
            ov == views(out@),
            ov.len() == out.len(),
            kc@ == k@,
            forall|j: int| 0 <= j < p ==> lex_lt(#[trigger] ov[j], k@),
        ensures
            p <= out.len(),
            forall|j: int| 0 <= j < p ==> lex_lt(#[trigger] ov[j], k@),
            p < out.len() ==> !lex_lt(ov[p as int], k@),
        decreases out.len() - p,
    {
        let c = chars_of(out[p].as_str());
        assert(ov[p as int] == out@[p as int]@);
        if !lex_lt_exec(&c, &kc) {
            break;
        }
        p += 1;
    }
    if p < out.len() && out[p] == k {
        proof {
            assert(ov[p as int] == k@);
            assert(key_set(ov).insert(k@) =~= key_set(ov)) by {
                assert(ov.contains(k@));
            }
        }
        return;
    }
    proof {
        assert forall|j: int| p <= j < ov.len() implies lex_lt(k@, #[trigger] ov[j]) by {
            lemma_lex_order(ov[p as int], k@, k@);
            lemma_lex_order(k@, ov[p as int], ov[j]);
            if j > p {
                assert(lex_lt(ov[p as int], ov[j]));
            }
        }
    }
    out.insert(p, k);
    proof {
        let nv = views(out@);
        assert(nv =~= ov.insert(p as int, k@));
        assert forall|i: int, j: int| 0 <= i < j < nv.len() implies lex_lt(
            #[trigger] nv[i],
            #[trigger] nv[j],
        ) by {
            if i < p && j == p {
            } else if i < p && j > p {
                assert(nv[j] == ov[j - 1]);
                assert(nv[i] == ov[i]);
            } else if i == p {
                assert(nv[j] == ov[j - 1]);
            } else if i > p {
                assert(nv[i] == ov[i - 1]);
                assert(nv[j] == ov[j - 1]);
            } else {
                assert(nv[i] == ov[i]);
                assert(nv[j] == ov[j]);
            }
        }
        assert forall|x: Seq<char>| key_set(nv).contains(x) == key_set(ov).insert(k@).contains(x) by {
            if nv.contains(x) {
                let w = choose|w: int| 0 <= w < nv.len() && nv[w] == x;
                if w < p {
                    assert(ov[w] == x);
                } else if w > p {
                    assert(ov[w - 1] == x);
                }
            }
            if ov.contains(x) {
                let w = choose|w: int| 0 <= w < ov.len() && ov[w] == x;
                if w < p {
                    assert(nv[w] == x);
                } else {
                    assert(nv[w + 1] == x);
                }
            }
            if x == k@ {
                assert(nv[p as int] == x);
            }
        }
        assert(key_set(nv) =~= key_set(ov).insert(k@));
    }
}

impl ResourceLocks {
    pub open spec fn view(&self) -> Set<Seq<char>> {
        key_set(views(self.held@))
    }

    /// No resource held.
    pub fn new() -> (r: Self)
        ensures
            r@ == Set::<Seq<char>>::empty(),
    {
        let r = ResourceLocks { held: Vec::new() };
        assert(r@ =~= Set::<Seq<char>>::empty());
        r
    }

    /// The first held key that conflicts with `key`, if any.
    fn busy_with(&self, key: &String) -> (r: Option<String>)
        ensures
            match r {
                Some(h) => self@.contains(h@) && conflicts(key@, h@),
                None => free(self@, key@),
            },
    {
        let ghost hv = views(self.held@);
        let mut i: usize = 0;
        while i < self.held.len()
            invariant
                i <= self.held.len(),
                hv == views(self.held@),
                hv.len() == self.held.len(),
                forall|j: int| 0 <= j < i ==> !conflicts(key@, #[trigger] hv[j]),
            decreases self.held.len() - i,
        {
            assert(hv[i as int] == self.held@[i as int]@);
            if conflicts_exec(key, &self.held[i]) {
                assert(hv.contains(hv[i as int]));
                return Some(self.held[i].clone());
            }
            i += 1;
        }
        assert forall|h: Seq<char>| #[trigger] self@.contains(h) implies !conflicts(key@, h) by {
            let j = choose|j: int| 0 <= j < hv.len() && hv[j] == h;
        }
        None
    }

    /// Atomically take every resource or none. On success every key is
    /// added to the held set; on refusal nothing changes, and the conflict
    /// names the first requested key that is busy and one held key it
    /// collides with.
    pub fn acquire(&mut self, resources: &[Resource]) -> (r: Result<Held, Conflict>)
        ensures
            match r {
                Ok(h) => {
                    &&& all_free(old(self)@, keys_of(resources@))
                    &&& h@ == keys_of(resources@)
                    &&& final(self)@ == old(self)@.union(key_set(keys_of(resources@)))
                },
                Err(c) => {
                    &&& !all_free(old(self)@, keys_of(resources@))
                    &&& final(self)@ == old(self)@
                    &&& first_busy(old(self)@, keys_of(resources@), 0) is Some
                    &&& keys_of(resources@)[first_busy(old(self)@, keys_of(resources@), 0)->0]
                        == c.resource@
                    &&& old(self)@.contains(c.held_by@)
                    &&& conflicts(c.resource@, c.held_by@)
                },
            },
    {
        let ghost ks = keys_of(resources@);
        let ghost start = self@;
        let mut keys: Vec<String> = Vec::new();
        let mut i: usize = 0;
        while i < resources.len()
            invariant
                i <= resources.len(),
                ks == keys_of(resources@),
                ks.len() == resources.len(),
                start == self@,
                views(keys@) == ks.take(i as int),
                forall|j: int| 0 <= j < i ==> free(start, #[trigger] ks[j]),
                first_busy(start, ks, 0) == first_busy(start, ks, i as int),
            decreases resources.len() - i,
        {
            let key = resources[i].key();
            assert(ks[i as int] == key@);
            match self.busy_with(&key) {
                Some(h) => {
                    return Err(Conflict { resource: key, held_by: h });
                },
                None => {},
            }
            let ghost before = keys@;
            keys.push(key);
            proof {
                lemma_views_push(before, key);
            }
            assert(ks.take(i + 1) =~= ks.take(i as int).push(ks[i as int]));
            i += 1;
        }
        assert(ks.take(i as int) =~= ks);
        let mut k: usize = 0;
        while k < keys.len()
            invariant
                k <= keys.len(),
                views(keys@) == ks,
                self@ == start.union(key_set(ks.take(k as int))),
            decreases keys.len() - k,
        {
            let ghost before = self.held@;
            self.held.push(keys[k].clone());
            proof {
                lemma_views_push(before, keys@[k as int]);
                assert(ks.take(k + 1) =~= ks.take(k as int).push(ks[k as int]));
                lemma_key_set_push(views(before), keys@[k as int]@);
                lemma_key_set_push(ks.take(k as int), ks[k as int]);
                assert(self@ =~= start.union(key_set(ks.take(k + 1))));
            }
            k += 1;
        }
        assert(ks.take(k as int) =~= ks);
        Ok(Held { keys })
    }

    /// The held keys, each once, in ascending order — a diagnostic view,
    /// never a basis for check-then-act.
    pub fn snapshot(&self) -> (r: Vec<String>)
        ensures
            key_set(views(r@)) == self@,
            sorted_strictly(views(r@)),
    {
        let mut out: Vec<String> = Vec::new();
        let mut i: usize = 0;
        assert(key_set(views(out@)) =~= key_set(views(self.held@).take(0)));
        while i < self.held.len()
            invariant
                i <= self.held.len(),
                key_set(views(out@)) == key_set(views(self.held@).take(i as int)),
                sorted_strictly(views(out@)),
            decreases self.held.len() - i,
        {
            let ghost hv = views(self.held@);
            let ghost before = views(out@);
            let k = self.held[i].clone();
            assert(hv[i as int] == k@);
            insert_sorted(&mut out, k);
            proof {
                assert(hv.take(i + 1) =~= hv.take(i as int).push(k@));
                lemma_key_set_push(hv.take(i as int), k@);
            }
            i += 1;
        }
        assert(views(self.held@).take(i as int) =~= views(self.held@));
        out
    }

    /// Gives back the keys of one acquisition.
    pub fn release(&mut self, held: Held)
        ensures
            final(self)@ == old(self)@.difference(key_set(held@)),
    {
        let ghost start = self@;
        let ghost gone = key_set(held@);
        let mut kept: Vec<String> = Vec::new();
        let mut i: usize = 0;
        while i < self.held.len()
            invariant
                i <= self.held.len(),
                start == self@,
                gone == key_set(held@),
                key_set(views(kept@)) == key_set(views(self.held@).take(i as int)).difference(gone),
            decreases self.held.len() - i,
        {
            let h = self.held[i].clone();
            let ghost hv = views(self.held@);
            assert(hv[i as int] == h@);
            let found = contains_string(&held.keys, &h);
            let ghost before = kept@;
            if !found {
                kept.push(h);
                proof {
                    lemma_views_push(before, h);
                }
            }
            proof {
                assert(hv.take(i + 1) =~= hv.take(i as int).push(h@));
                lemma_key_set_push(hv.take(i as int), h@);
                lemma_key_set_push(views(before), h@);
                assert(key_set(views(kept@)) =~= key_set(hv.take(i + 1)).difference(gone));
            }
            i += 1;
        }
        assert(views(self.held@).take(i as int) =~= views(self.held@));
        self.held = kept;
    }
}

/* ------------------------------- laws ------------------------------- */

/// The same instance, version or runtime is exclusive with itself: while a
/// key is held, a request that names it is refused.
pub proof fn lemma_held_key_is_exclusive(held: Set<Seq<char>>, ks: Seq<Seq<char>>, i: int)
    requires
        0 <= i < ks.len(),
        held.contains(ks[i]),
    ensures
        !all_free(held, ks),
{
    assert(!free(held, ks[i]));
}

/// A data-root migration is exclusive with everything, both ways: while the
/// root is held nothing else can be taken, and the root cannot be taken
/// while anything is held.
pub proof fn lemma_root_is_exclusive_both_ways(held: Set<Seq<char>>, k: Seq<char>, h: Seq<char>)
    ensures
        held.contains(root_key()) ==> !free(held, k),
        held.contains(h) ==> !free(held, root_key()),
{
    if held.contains(h) {
        assert(conflicts(root_key(), h));
    }
    if held.contains(root_key()) {
        assert(conflicts(k, root_key()));
    }
}

/// Unrelated resources never block each other: a key that is not held and
/// is not the root can be taken whenever the root is not held.
pub proof fn lemma_unrelated_never_block(held: Set<Seq<char>>, k: Seq<char>)
    requires
        !held.contains(k),
        !held.contains(root_key()),
        k != root_key(),
    ensures
        free(held, k),
{
}

/// Releasing what an acquisition took restores the held set exactly as it
/// was before the acquisition.
pub proof fn lemma_release_undoes_acquire(held: Set<Seq<char>>, ks: Seq<Seq<char>>)
    requires
        all_free(held, ks),
    ensures
        held.union(key_set(ks)).difference(key_set(ks)) == held,
{
    assert forall|x: Seq<char>| held.contains(x) implies !key_set(ks).contains(x) by {
        if ks.contains(x) {
            let i = choose|i: int| 0 <= i < ks.len() && ks[i] == x;
            assert(free(held, ks[i]));
            assert(conflicts(ks[i], x));
        }
    }
    assert(held.union(key_set(ks)).difference(key_set(ks)) =~= held);
}

/* ------------------------------ task ids ------------------------------ */

/// `task-<kind>-<n>`.
pub open spec fn task_id_spec(kind: Seq<char>, n: nat) -> Seq<char> {
    seq!['t', 'a', 's', 'k', '-'] + kind + seq!['-'] + dec_digits(n)
}

/// An id for an operation that never had a frontend transfer id, drawn from
/// the counter `seq`, which moves on by one (wrapping).
pub fn next_task_id(kind: &str, seq: &mut u64) -> (r: String)
    ensures
        r@ == task_id_spec(kind@, *old(seq) as nat),
        *final(seq) == (if *old(seq) == u64::MAX {
            0
        } else {
            (*old(seq) + 1) as u64
        }),
{
    let n = *seq;
    *seq = if n == u64::MAX {
        0
    } else {
        n + 1
    };
    let p = vec!['t', 'a', 's', 'k', '-'];
    let a = concat_chars(&p, &chars_of(kind));
    let b = concat_chars(&a, &['-']);
    let c = concat_chars(&b, &decimal_chars(n));
    assert(c@ =~= task_id_spec(kind@, n as nat));
    string_of(&c)
}

/// Ids drawn from different counter values differ.
pub proof fn lemma_task_ids_distinct(kind: Seq<char>, a: nat, b: nat)
    requires
        a != b,
    ensures
        task_id_spec(kind, a) != task_id_spec(kind, b),
{
    let p = seq!['t', 'a', 's', 'k', '-'] + kind + seq!['-'];
    assert(task_id_spec(kind, a).skip(p.len() as int) =~= dec_digits(a));
    assert(task_id_spec(kind, b).skip(p.len() as int) =~= dec_digits(b));
    if task_id_spec(kind, a) == task_id_spec(kind, b) {
        crate::decimal::lemma_dec_digits_injective(a, b);
    }
}

/// The process-wide counter that task ids are drawn from. It starts at 1
/// and moves on by one per id (wrapping, as an atomic `fetch_add` does).
#[derive(Debug)]
pub struct TaskCounter {
    pub next: u64,
}

impl TaskCounter {
    /// A fresh counter: the first id drawn carries 1.
    pub fn new() -> (r: TaskCounter)
        ensures
            r.next == 1,
    {
        TaskCounter { next: 1 }
    }

    /// Draws the next id for an operation of `kind`.
    pub fn next_id(&mut self, kind: &str) -> (r: String)
        ensures
            r@ == task_id_spec(kind@, old(self).next as nat),
            final(self).next == (if old(self).next == u64::MAX {
                0
            } else {
                (old(self).next + 1) as u64
            }),
    {
        next_task_id(kind, &mut self.next)
    }
}

/// Ids drawn from different counter values differ, whatever kinds they
/// were drawn for: the number after the id's last `-` is the counter value,
/// and a kind cannot reach past it.
pub proof fn lemma_task_ids_distinct_across_kinds(k1: Seq<char>, a: nat, k2: Seq<char>, b: nat)
    requires
        a != b,
    ensures
        task_id_spec(k1, a) != task_id_spec(k2, b),
{
    let s1 = task_id_spec(k1, a);
    let s2 = task_id_spec(k2, b);
    let d1 = dec_digits(a);
    let d2 = dec_digits(b);
    let l1: int = 5 + k1.len() as int;
    let l2: int = 5 + k2.len() as int;
    crate::decimal::lemma_dec_digits(a);
    crate::decimal::lemma_dec_digits(b);
    if s1 == s2 {
        assert(s1.len() == l1 + 1 + d1.len());
        assert(s2.len() == l2 + 1 + d2.len());
        assert(s1[l1 as int] == '-');
        assert(s2[l2 as int] == '-');
        if d1.len() == d2.len() {
            assert(s1.skip(l1 + 1) =~= d1);
            assert(s2.skip(l2 + 1) =~= d2);
            crate::decimal::lemma_dec_digits_injective(a, b);
        } else if d1.len() < d2.len() {
            let j = l1 - l2 - 1;
            assert(0 <= j < d2.len());
            assert(s2[l1 as int] == d2[j]);
            assert(crate::decimal::digit_value(d2[j]).is_some());
        } else {
            let j = l2 - l1 - 1;
            assert(0 <= j < d1.len());
            assert(s1[l2 as int] == d1[j]);
            assert(crate::decimal::digit_value(d1[j]).is_some());
        }
    }
}

/// Ids drawn one after another from a counter never repeat, for any kinds,
/// as long as the counter has not gone round (fewer than 2^64 draws).
pub proof fn lemma_successive_ids_differ(k1: Seq<char>, k2: Seq<char>, first: u64, draws: nat)
    requires
        draws >= 1,
        first + draws <= u64::MAX,
    ensures
        task_id_spec(k1, first as nat) != task_id_spec(k2, (first + draws) as nat),
{
    lemma_task_ids_distinct_across_kinds(k1, first as nat, k2, (first + draws) as nat);
}

/* ----------------------------- task outcome ----------------------------- */

/// Where a registered task stands.
#[derive(PartialEq, Eq, Structural, Clone, Copy, Debug)]
pub enum TaskState {
    Running,
    Done,
    Failed,
    Cancelled,
}

/// The error text a body returns when it stopped on a user abort.
pub open spec fn is_cancel_msg(err: Seq<char>) -> bool {
    err == seq!['c', 'a', 'n', 'c', 'e', 'l', 'l', 'e', 'd']
}

/// The recorded state and error of a finished task: Cancelled whenever an
/// abort was requested (through the shared flag, the registry, or a body
/// that reports `cancelled`), otherwise Done, or Failed with its error.
pub open spec fn settle_spec(ok: bool, err: Seq<char>, cancelled: bool) -> (TaskState, Option<Seq<char>>) {
    let c = cancelled || (!ok && is_cancel_msg(err));
    if c {
        (TaskState::Cancelled, None)
    } else if ok {
        (TaskState::Done, None)
    } else {
        (TaskState::Failed, Some(err))
    }
}

/// The outcome a finished task is recorded with; `flag_cancelled` is the
/// shared abort flag and `cancel_requested` the registry's request.
pub fn settle(outcome: Result<(), String>, flag_cancelled: bool, cancel_requested: bool) -> (r: (
    TaskState,
    Option<String>,
))
    ensures
        ({
            let s = match outcome {
                Ok(()) => settle_spec(true, Seq::empty(), flag_cancelled || cancel_requested),
                Err(e) => settle_spec(false, e@, flag_cancelled || cancel_requested),
            };
            &&& r.0 == s.0
            &&& match r.1 {
                Some(e) => s.1 == Some(e@),
                None => s.1.is_none(),
            }
        }),
{
    let cancel_word = vec!['c', 'a', 'n', 'c', 'e', 'l', 'l', 'e', 'd'];
    match outcome {
        Ok(()) => {
            if flag_cancelled || cancel_requested {
                (TaskState::Cancelled, None)
            } else {
                (TaskState::Done, None)
            }
        },
        Err(e) => {
            let ec = chars_of(e.as_str());
            let is_cancel = crate::text::chars_eq(&ec, &cancel_word);
            assert(is_cancel == is_cancel_msg(e@));
            if flag_cancelled || cancel_requested || is_cancel {
                (TaskState::Cancelled, None)
            } else {
                (TaskState::Failed, Some(e))
            }
        },
    }
}

/// A task id that is still running refuses a second registration.
pub fn begin_refused(existing: Option<TaskState>) -> (r: bool)
    ensures
        r == (existing == Some(TaskState::Running)),
{
    match existing {
        Some(TaskState::Running) => true,
        _ => false,
    }
}

/// The message of a refused duplicate registration.
pub fn duplicate_task_message(id: &str) -> (r: String)
    ensures
        r@ == "任务 "@ + id@ + " 正在进行中"@,
{
    let a = concat_chars(&chars_of("任务 "), &chars_of(id));
    string_of(&concat_chars(&a, &chars_of(" 正在进行中")))
}

} // verus!
