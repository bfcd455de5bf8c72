//! The table of loaded model versions, keyed by model name and version.
//! What runs a model (`R`) is left to the caller.
use std::sync::Arc;
use vstd::prelude::*;

use crate::text::{chars_of, string_views};

verus! {

/// `Arc::clone`: another pointer to the same value.
#[verifier::external_body]
fn share<T>(a: &Arc<T>) -> (r: Arc<T>)
    ensures
        *r == **a,
{
    Arc::clone(a)
}

/// The life-cycle state of a loaded model version.
#[derive(Debug, Clone, Copy, PartialEq, Eq, Structural)]
pub enum SessionState {
    Ready,
}

/// A loaded model version.
pub struct ModelSession<R> {
    pub name: String,
    pub version: u32,
    pub state: SessionState,
    pub runner: R,
}

/// The key of a session: its model name and version.
pub open spec fn entry_key<R>(s: Arc<ModelSession<R>>) -> (Seq<char>, u32) {
    (s.name@, s.version)
}

/// Why a model version could not be unloaded.
#[derive(Debug, Clone, Copy, PartialEq, Eq, Structural)]
pub enum PoolError {
    /// No such model version is loaded.
    NotFound,
}

/// The loaded model versions.
pub struct SessionPool<R> {
    sessions: Vec<Arc<ModelSession<R>>>,
}

/// `a` sorts strictly before `b` (the order of `String`'s `Ord`, which is the
/// code-point order for valid text).
pub open spec fn lex_lt(a: Seq<char>, b: Seq<char>) -> bool
    decreases a.len(),
{
    if a.len() == 0 {
        b.len() > 0
    } else if b.len() == 0 {
        false
    } else if (a[0] as u32) < (b[0] as u32) {
        true
    } else if a[0] == b[0] {
        lex_lt(a.drop_first(), b.drop_first())
    } else {
        false
    }
}

pub proof fn lemma_lex_irreflexive(a: Seq<char>)
    ensures
        !lex_lt(a, a),
    decreases a.len(),
{
    if a.len() > 0 {
        lemma_lex_irreflexive(a.drop_first());
    }
}

pub proof fn lemma_lex_total(a: Seq<char>, b: Seq<char>)
    ensures
        lex_lt(a, b) || a == b || lex_lt(b, a),
        !(lex_lt(a, b) && lex_lt(b, a)),
        !lex_lt(a, a),
    decreases a.len(),
{
    lemma_lex_irreflexive(a);
    if a.len() > 0 && b.len() > 0 {
        lemma_lex_total(a.drop_first(), b.drop_first());
        if a[0] == b[0] && a.drop_first() == b.drop_first() {
            assert(a =~= seq![a[0]] + a.drop_first());
            assert(b =~= seq![b[0]] + b.drop_first());
        }
        if a[0] != b[0] {
            vstd::utf8::char_u32_cast(a[0], a[0] as u32);
            vstd::utf8::char_u32_cast(b[0], b[0] as u32);
            assert((a[0] as u32) != (b[0] as u32));
        }
    } else if a.len() == 0 && b.len() == 0 {
        assert(a =~= b);
    }
}

pub proof fn lemma_lex_trans(a: Seq<char>, b: Seq<char>, c: Seq<char>)
    requires
        lex_lt(a, b),
        lex_lt(b, c),
    ensures
        lex_lt(a, c),
    decreases a.len(),
{
    if a.len() > 0 && b.len() > 0 && c.len() > 0 {
        if a[0] == b[0] && b[0] == c[0] {
            lemma_lex_trans(a.drop_first(), b.drop_first(), c.drop_first());
        }
    }
}

/// Strictly ascending names.
pub open spec fn names_ascending(s: Seq<Seq<char>>) -> bool {
    forall|i: int, j: int| 0 <= i < j < s.len() ==> lex_lt(s[i], s[j])
}

/// Strictly ascending numbers.
pub open spec fn strictly_ascending(s: Seq<u32>) -> bool {
    forall|i: int, j: int| 0 <= i < j < s.len() ==> s[i] < s[j]
}

fn lex_less(a: &[char], b: &[char]) -> (r: bool)
    ensures
        r == lex_lt(a@, b@),
{
    let mut i: usize = 0;
    assert(a@.skip(0) =~= a@);
    assert(b@.skip(0) =~= b@);
    while i < a.len() && i < b.len() && a[i] == b[i]
        invariant
            i <= a@.len(),
            i <= b@.len(),
            lex_lt(a@, b@) == lex_lt(a@.skip(i as int), b@.skip(i as int)),
        decreases a.len() - i,
    {
        assert(a@.skip(i as int).drop_first() =~= a@.skip(i + 1));
        assert(b@.skip(i as int).drop_first() =~= b@.skip(i + 1));
        i = i + 1;
    }
    if i == a.len() {
        i < b.len()
    } else if i == b.len() {
        false
    } else {
        assert(a@.skip(i as int)[0] == a@[i as int]);
        assert(b@.skip(i as int)[0] == b@[i as int]);
        (a[i] as u32) < (b[i] as u32)
    }
}

fn insert_unique_u32(v: &mut Vec<u32>, x: u32)
    requires
        strictly_ascending(old(v)@),
    ensures
        strictly_ascending(final(v)@),
        forall|y: u32| final(v)@.contains(y) <==> (old(v)@.contains(y) || y == x),
{
    let mut p: usize = 0;
    while p < v.len() && v[p] < x
        invariant
            p <= v@.len(),
            v@ == old(v)@,
            forall|j: int| 0 <= j < p ==> v@[j] < x,
        decreases v.len() - p,
    {
        p = p + 1;
    }
    if p < v.len() && v[p] == x {
        assert(v@[p as int] == x);
        assert(v@.contains(x));
        return;
    }
    let ghost before = v@;
    v.insert(p, x);
    proof {
        assert(v@ == before.insert(p as int, x));
        assert forall|i: int, j: int| 0 <= i < j < v@.len() implies v@[i] < v@[j] by {
            if j < p {
                assert(v@[i] == before[i] && v@[j] == before[j]);
            } else if j == p {
                assert(v@[i] == before[i]);
            } else if i == p {
                assert(v@[j] == before[j - 1]);
                assert(before[p as int] > x);
                if j - 1 > p {
                    assert(before[p as int] < before[j - 1]);
                }
            } else if i < p {
                assert(v@[i] == before[i] && v@[j] == before[j - 1]);
            } else {
                assert(v@[i] == before[i - 1] && v@[j] == before[j - 1]);
            }
        }
        assert(before == old(v)@);
        assert forall|y: u32| #[trigger] v@.contains(y) <==> (old(v)@.contains(y) || y == x) by {
            if v@.contains(y) {
                let k = choose|k: int| 0 <= k < v@.len() && v@[k] == y;
                if k < p {
                    assert(before[k] == y);
                } else if k > p {
                    assert(before[k - 1] == y);
                }
            }
            if before.contains(y) {
                let k = choose|k: int| 0 <= k < before.len() && before[k] == y;
                if k < p {
                    assert(v@[k] == y);
                } else {
                    assert(v@[k + 1] == y);
                }
            }
            if y == x {
                assert(v@[p as int] == x);
            }
        }
    }
}


fn insert_unique_name(v: &mut Vec<String>, x: String)
    requires
        names_ascending(string_views(old(v)@)),
    ensures
        names_ascending(string_views(final(v)@)),
        forall|y: Seq<char>| string_views(final(v)@).contains(y) <==> (string_views(old(v)@).contains(y) || y == x@),
{
    let ghost before = string_views(v@);
    let xc = chars_of(x.as_str());
    let mut p: usize = 0;
    loop
        invariant
            p <= v@.len(),
            before == string_views(v@),
            xc@ == x@,
            forall|j: int| 0 <= j < p ==> lex_lt(#[trigger] before[j], x@),
        ensures
            p <= v@.len(),
            forall|j: int| 0 <= j < p ==> lex_lt(#[trigger] before[j], x@),
            p < v@.len() ==> !lex_lt(before[p as int], x@),
        decreases v.len() - p,
    {
        if p == v.len() {
            break;
        }
        let vc = chars_of(v[p].as_str());
        assert(before[p as int] == v@[p as int]@);
        if !lex_less(vc.as_slice(), xc.as_slice()) {
            break;
        }
        p = p + 1;
    }
    if p < v.len() {
        let vc = chars_of(v[p].as_str());
        if crate::text::same_chars(vc.as_slice(), xc.as_slice()) {
            assert(before.contains(x@)) by {
                assert(before[p as int] == x@);
            }
            return;
        }
        proof {
            lemma_lex_total(before[p as int], x@);
        }
    }
    let ghost xv = x@;
    v.insert(p, x);
    proof {
        let after = string_views(v@);
        assert(after =~= before.insert(p as int, xv));
        assert forall|i: int, j: int| 0 <= i < j < after.len() implies lex_lt(after[i], after[j]) by {
            if j < p {
                assert(after[i] == before[i] && after[j] == before[j]);
            } else if j == p {
                assert(after[i] == before[i]);
            } else if i == p {
                assert(after[j] == before[j - 1]);
                assert(lex_lt(xv, before[p as int]));
                if j - 1 > p {
                    assert(lex_lt(before[p as int], before[j - 1]));
                    lemma_lex_trans(xv, before[p as int], before[j - 1]);
                }
            } else if i < p {
                assert(after[i] == before[i] && after[j] == before[j - 1]);
            } else {
                assert(after[i] == before[i - 1] && after[j] == before[j - 1]);
            }
        }
        assert forall|y: Seq<char>| after.contains(y) <==> (before.contains(y) || y == xv) by {
            if after.contains(y) {
                let k = choose|k: int| 0 <= k < after.len() && after[k] == y;
                if k < p {
                    assert(before[k] == y);
                } else if k > p {
                    assert(before[k - 1] == y);
                }
            }
            if before.contains(y) {
                let k = choose|k: int| 0 <= k < before.len() && before[k] == y;
                if k < p {
                    assert(after[k] == y);
                } else {
                    assert(after[k + 1] == y);
                }
            }
            if y == xv {
                assert(after[p as int] == xv);
            }
        }
    }
}

/// The view of one listing entry: name, version and state.
pub open spec fn listing_views(v: Seq<(String, u32, SessionState)>) -> Seq<(Seq<char>, u32, SessionState)> {
    v.map_values(|e: (String, u32, SessionState)| (e.0@, e.1, e.2))
}

/// Entry `a` comes strictly before entry `b`: by name, then by version.
pub open spec fn entry_before(a: (Seq<char>, u32, SessionState), b: (Seq<char>, u32, SessionState)) -> bool {
    lex_lt(a.0, b.0) || (a.0 == b.0 && a.1 < b.1)
}

/// No entry comes strictly before an entry listed ahead of it.
pub open spec fn listing_sorted(v: Seq<(Seq<char>, u32, SessionState)>) -> bool {
    forall|i: int, j: int| 0 <= i < j < v.len() ==> !entry_before(v[j], v[i])
}

proof fn lemma_entry_order(a: (Seq<char>, u32, SessionState), b: (Seq<char>, u32, SessionState), c: (Seq<char>, u32, SessionState))
    ensures
        !entry_before(a, a),
        entry_before(a, b) ==> !entry_before(b, a),
        !entry_before(a, b) ==> entry_before(b, a) || (a.0 == b.0 && a.1 == b.1),
        entry_before(a, b) && entry_before(b, c) ==> entry_before(a, c),
        !entry_before(b, a) && !entry_before(c, b) ==> !entry_before(c, a),
{
    lemma_lex_total(a.0, b.0);
    lemma_lex_total(b.0, c.0);
    lemma_lex_total(a.0, c.0);
    if lex_lt(a.0, b.0) && lex_lt(b.0, c.0) {
        lemma_lex_trans(a.0, b.0, c.0);
    }
    if lex_lt(c.0, b.0) && lex_lt(b.0, a.0) {
        lemma_lex_trans(c.0, b.0, a.0);
    }
}

fn entry_less(a: &(String, u32, SessionState), b: &(String, u32, SessionState)) -> (r: bool)
    ensures
        r == entry_before((a.0@, a.1, a.2), (b.0@, b.1, b.2)),
{
    let ac = chars_of(a.0.as_str());
    let bc = chars_of(b.0.as_str());
    if lex_less(ac.as_slice(), bc.as_slice()) {
        true
    } else if crate::text::same_chars(ac.as_slice(), bc.as_slice()) {
        a.1 < b.1
    } else {
        false
    }
}

/// The entries of a listing ordered by name, then version (as the startup
/// table shows them); entries that tie keep their order.
pub fn sort_listing(v: Vec<(String, u32, SessionState)>) -> (r: Vec<(String, u32, SessionState)>)
    ensures
        listing_sorted(listing_views(r@)),
        listing_views(r@).to_multiset() == listing_views(v@).to_multiset(),
{
    let mut r: Vec<(String, u32, SessionState)> = Vec::new();
    let mut rest = v;
    let ghost all = listing_views(rest@);
    proof {
        broadcast use vstd::multiset::group_multiset_axioms;

        assert(listing_views(r@) =~= Seq::<(Seq<char>, u32, SessionState)>::empty());
        vstd::seq_lib::to_multiset_len(listing_views(r@));
        vstd::multiset::lemma_multiset_empty_len(listing_views(r@).to_multiset());
        assert(listing_views(r@).to_multiset().add(all.to_multiset()) =~= all.to_multiset());
    }
    // consume `rest` from the back, inserting each entry after all entries it
    // does not come before
    while rest.len() > 0
        invariant
            listing_sorted(listing_views(r@)),
            listing_views(r@).to_multiset().add(listing_views(rest@).to_multiset()) == all.to_multiset(),
        decreases rest.len(),
    {
        let ghost before_rest = listing_views(rest@);
        let e = rest.pop().unwrap();
        let ghost ev = (e.0@, e.1, e.2);
        assert(listing_views(rest@) =~= before_rest.drop_last());
        assert(before_rest =~= listing_views(rest@).push(ev));
        let ghost lv = listing_views(r@);
        let mut p: usize = r.len();
        while p > 0 && entry_less(&e, &r[p - 1])
            invariant
                p <= r@.len(),
                lv == listing_views(r@),
                ev == (e.0@, e.1, e.2),
                forall|k: int| p <= k < lv.len() ==> entry_before(ev, #[trigger] lv[k]),
            decreases p,
        {
            assert(lv[p - 1] == (r@[p - 1].0@, r@[p - 1].1, r@[p - 1].2));
            p = p - 1;
        }
        proof {
            if p > 0 {
                assert(lv[p - 1] == (r@[p - 1].0@, r@[p - 1].1, r@[p - 1].2));
                assert(!entry_before(ev, lv[p - 1]));
            }
        }
        r.insert(p, e);
        proof {
            let nv = listing_views(r@);
            assert(nv =~= lv.insert(p as int, ev));
            assert forall|i: int, j: int| 0 <= i < j < nv.len() implies !entry_before(nv[j], nv[i]) by {
                let pp = p as int;
                if j < pp {
                    assert(nv[i] == lv[i] && nv[j] == lv[j]);
                } else if j == pp {
                    assert(nv[i] == lv[i]);
                    lemma_entry_order(lv[pp - 1], ev, lv[i]);
                    if i < pp - 1 {
                        assert(!entry_before(lv[pp - 1], lv[i]));
                        lemma_entry_order(ev, lv[i], lv[pp - 1]);
                        lemma_entry_order(lv[i], lv[pp - 1], ev);
                    }
                } else if i == pp {
                    assert(nv[j] == lv[j - 1]);
                    assert(entry_before(ev, lv[j - 1]));
                    lemma_entry_order(ev, lv[j - 1], ev);
                } else if i < pp {
                    assert(nv[i] == lv[i] && nv[j] == lv[j - 1]);
                } else {
                    assert(nv[i] == lv[i - 1] && nv[j] == lv[j - 1]);
                }
            }
            vstd::seq_lib::to_multiset_build(listing_views(rest@), ev);
            assert(before_rest.to_multiset() == listing_views(rest@).to_multiset().insert(ev));
            vstd::seq_lib::to_multiset_insert(lv, p as int, ev);
            assert(nv.to_multiset() == lv.to_multiset().insert(ev));
            assert(nv.to_multiset().add(listing_views(rest@).to_multiset()) =~= lv.to_multiset().add(
                before_rest.to_multiset(),
            ));
        }
    }
    proof {
        broadcast use vstd::multiset::group_multiset_axioms;

        assert(listing_views(rest@) =~= Seq::<(Seq<char>, u32, SessionState)>::empty());
        assert(listing_views(rest@).to_multiset() =~= vstd::multiset::Multiset::empty());
        assert(listing_views(r@).to_multiset() =~= listing_views(r@).to_multiset().add(
            listing_views(rest@).to_multiset(),
        ));
    }
    r
}

impl<R> SessionPool<R> {
    /// Keys are unique and every session is ready.
    pub closed spec fn wf(&self) -> bool {
        &&& forall|i: int, j: int|
            0 <= i < j < self.sessions@.len() ==> entry_key(self.sessions@[i]) != entry_key(
                self.sessions@[j],
            )
        &&& forall|i: int|
            0 <= i < self.sessions@.len() ==> (#[trigger] self.sessions@[i]).state
                == SessionState::Ready
    }

    closed spec fn holds(&self, k: (Seq<char>, u32)) -> bool {
        exists|i: int| 0 <= i < self.sessions@.len() && entry_key(self.sessions@[i]) == k
    }

    closed spec fn index_of(&self, k: (Seq<char>, u32)) -> int {
        choose|i: int| 0 <= i < self.sessions@.len() && entry_key(self.sessions@[i]) == k
    }

    /// The loaded sessions by key.
    pub closed spec fn view(&self) -> Map<(Seq<char>, u32), ModelSession<R>> {
        Map::new(|k: (Seq<char>, u32)| self.holds(k), |k: (Seq<char>, u32)| *self.sessions@[self.index_of(k)])
    }

    proof fn lemma_lookup(&self, i: int)
        requires
            self.wf(),
            0 <= i < self.sessions@.len(),
        ensures
            self@.contains_key(entry_key(self.sessions@[i])),
            self@[entry_key(self.sessions@[i])] == *self.sessions@[i],
    {
        let k = entry_key(self.sessions@[i]);
        assert(self.holds(k));
        let j = self.index_of(k);
        if j != i {
            if j < i {
                assert(entry_key(self.sessions@[j]) != entry_key(self.sessions@[i]));
            } else {
                assert(entry_key(self.sessions@[i]) != entry_key(self.sessions@[j]));
            }
        }
    }

    /// An empty table.
    pub fn new() -> (p: Self)
        ensures
            p.wf(),
            p@ == Map::<(Seq<char>, u32), ModelSession<R>>::empty(),
    {
        let p = SessionPool { sessions: Vec::new() };
        assert(p@ =~= Map::<(Seq<char>, u32), ModelSession<R>>::empty());
        p
    }

    fn find(&self, name: &str, version: u32) -> (r: Option<usize>)
        requires
            self.wf(),
        ensures
            r is None <==> !self@.contains_key((name@, version)),
            r matches Some(i) ==> i < self.sessions@.len() && entry_key(self.sessions@[i as int])
                == (name@, version) && self@[(name@, version)] == *self.sessions@[i as int],
    {
        let target = chars_of(name);
        let mut i: usize = 0;
        while i < self.sessions.len()
            invariant
                i <= self.sessions@.len(),
                target@ == name@,
                self.wf(),
                forall|j: int| 0 <= j < i ==> entry_key(self.sessions@[j]) != (name@, version),
            decreases self.sessions.len() - i,
        {
            let s = &self.sessions[i];
            if s.version == version {
                let sn = chars_of(s.name.as_str());
                if crate::text::same_chars(sn.as_slice(), target.as_slice()) {
                    proof {
                        self.lemma_lookup(i as int);
                    }
                    return Some(i);
                }
            }
            i = i + 1;
        }
        None
    }

    /// The session of `name` at `version`, if loaded.
    pub fn get(&self, name: &str, version: u32) -> (r: Option<Arc<ModelSession<R>>>)
        requires
            self.wf(),
        ensures
            r is Some <==> self@.contains_key((name@, version)),
            r matches Some(s) ==> *s == self@[(name@, version)],
    {
        match self.find(name, version) {
            Some(i) => Some(share(&self.sessions[i])),
            None => None,
        }
    }

    /// The session to reuse when `name` at `version` is asked to load again:
    /// the loaded one, when there is one and it is ready; `None` means that
    /// it has to be built.
    pub fn existing_ready(&self, name: &str, version: u32) -> (r: Option<Arc<ModelSession<R>>>)
        requires
            self.wf(),
        ensures
            r is Some <==> (self@.contains_key((name@, version)) && self@[(name@, version)].state
                == SessionState::Ready),
            r matches Some(s) ==> *s == self@[(name@, version)],
    {
        match self.get(name, version) {
            Some(s) => {
                if s.state == SessionState::Ready {
                    Some(s)
                } else {
                    None
                }
            },
            None => None,
        }
    }

    /// The number of loaded sessions is the size of the table.
    proof fn lemma_len(&self)
        requires
            self.wf(),
        ensures
            self@.dom().finite(),
            self@.len() == self.sessions@.len(),
    {
        let ks = self.sessions@.map_values(|s: Arc<ModelSession<R>>| entry_key(s));
        assert(ks.no_duplicates()) by {
            assert forall|a: int, b: int| 0 <= a < ks.len() && 0 <= b < ks.len() && a != b implies ks[a]
                != ks[b] by {
                if a < b {
                    assert(entry_key(self.sessions@[a]) != entry_key(self.sessions@[b]));
                } else {
                    assert(entry_key(self.sessions@[b]) != entry_key(self.sessions@[a]));
                }
            }
        }
        ks.unique_seq_to_set();
        assert forall|k: (Seq<char>, u32)| #[trigger] self@.dom().contains(k) <==> ks.to_set().contains(k) by {
            if self.holds(k) {
                let i = self.index_of(k);
                assert(ks[i] == k);
            }
            if ks.contains(k) {
                let i = choose|i: int| 0 <= i < ks.len() && ks[i] == k;
                assert(entry_key(self.sessions@[i]) == k);
            }
        }
        assert(self@.dom() =~= ks.to_set());
        vstd::seq_lib::seq_to_set_is_finite(ks);
    }

    /// Takes out the session at position `i`.
    fn remove_at(&mut self, i: usize) -> (s: Arc<ModelSession<R>>)
        requires
            old(self).wf(),
            i < old(self).sessions@.len(),
        ensures
            final(self).wf(),
            s == old(self).sessions@[i as int],
            final(self)@ == old(self)@.remove(entry_key(s)),
            !final(self)@.contains_key(entry_key(s)),
    {
        let ghost before = self.sessions@;
        let s = self.sessions.remove(i);
        proof {
            let mid = self.sessions@;
            let ii = i as int;
            assert(mid == before.remove(ii));
            assert forall|a: int| 0 <= a < mid.len() implies #[trigger] mid[a] == before[if a < ii {
                a
            } else {
                a + 1
            }] by {}
            assert forall|a: int, b: int| 0 <= a < b < mid.len() implies entry_key(mid[a])
                != entry_key(mid[b]) by {
                let a2 = if a < ii { a } else { a + 1 };
                let b2 = if b < ii { b } else { b + 1 };
                assert(mid[a] == before[a2]);
                assert(mid[b] == before[b2]);
            }
            assert forall|a: int| 0 <= a < mid.len() implies (#[trigger] mid[a]).state
                == SessionState::Ready by {
                let a2 = if a < ii { a } else { a + 1 };
                assert(mid[a] == before[a2]);
            }
            assert(self.wf());
            let k = entry_key(s);
            old(self).lemma_lookup(ii);
            assert forall|q: (Seq<char>, u32)| #[trigger] self@.contains_key(q) == old(self)@.remove(
                k,
            ).contains_key(q) && (self@.contains_key(q) ==> self@[q] == old(self)@[q]) by {
                if self@.contains_key(q) {
                    let a = self.index_of(q);
                    self.lemma_lookup(a);
                    let b = if a < ii { a } else { a + 1 };
                    assert(mid[a] == before[b]);
                    old(self).lemma_lookup(b);
                    if b < ii {
                        assert(entry_key(before[b]) != entry_key(before[ii]));
                    } else {
                        assert(entry_key(before[ii]) != entry_key(before[b]));
                    }
                }
                if old(self)@.contains_key(q) && q != k {
                    let b = old(self).index_of(q);
                    old(self).lemma_lookup(b);
                    let a = if b < ii { b } else { b - 1 };
                    assert(mid[a] == before[b]);
                    self.lemma_lookup(a);
                }
            }
            assert(self@ =~= old(self)@.remove(k));
        }
        s
    }

    /// Adds (or replaces) the session of `name` at `version`.
    pub fn insert(&mut self, name: &str, version: u32, runner: R) -> (r: Arc<ModelSession<R>>)
        requires
            old(self).wf(),
        ensures
            final(self).wf(),
            r.name@ == name@ && r.version == version && r.state == SessionState::Ready && r.runner
                == runner,
            final(self)@ == old(self)@.insert((name@, version), *r),
    {
        let k = Ghost((name@, version));
        match self.find(name, version) {
            Some(i) => {
                self.remove_at(i);
            },
            None => {},
        }
        assert(self@ == old(self)@.remove(k@));
        let s = Arc::new(
            ModelSession { name: name.to_owned(), version, state: SessionState::Ready, runner },
        );
        let ghost mid = self.sessions@;
        let ghost mid_view = self@;
        assert forall|a: int| 0 <= a < mid.len() implies entry_key((#[trigger] mid[a])) != k@ by {
            self.lemma_lookup(a);
        }
        self.sessions.push(share(&s));
        proof {
            let n = mid.len() as int;
            assert(self.sessions@[n] == s);
            assert forall|a: int| 0 <= a < n implies #[trigger] self.sessions@[a] == mid[a] by {}
            assert(self.wf());
            self.lemma_lookup(n);
            assert forall|q: (Seq<char>, u32)| q != k@ implies (#[trigger] self@.contains_key(q))
                == mid_view.contains_key(q) && (self@.contains_key(q) ==> self@[q] == mid_view[q]) by {
                if self@.contains_key(q) {
                    let i = self.index_of(q);
                    assert(i < n);
                    self.lemma_lookup(i);
                }
                if mid_view.contains_key(q) {
                    let b = choose|b: int| 0 <= b < mid.len() && entry_key(mid[b]) == q;
                    assert(self.sessions@[b] == mid[b]);
                    self.lemma_lookup(b);
                }
            }
            assert(self@ =~= old(self)@.insert(k@, *s));
        }
        s
    }

    /// Takes the session of `name` at `version` out of the table; fails when
    /// it is not loaded.
    pub fn unload_model(&mut self, name: &str, version: u32) -> (r: Result<(), PoolError>)
        requires
            old(self).wf(),
        ensures
            final(self).wf(),
            r is Ok <==> old(self)@.contains_key((name@, version)),
            r is Err ==> r == Err::<(), PoolError>(PoolError::NotFound),
            final(self)@ == old(self)@.remove((name@, version)),
    {
        match self.find(name, version) {
            Some(i) => {
                self.remove_at(i);
                Ok(())
            },
            None => {
                assert(self@ =~= old(self)@.remove((name@, version)));
                Err(PoolError::NotFound)
            },
        }
    }

    /// How many sessions are loaded.
    pub fn model_count(&self) -> (n: usize)
        requires
            self.wf(),
        ensures
            n == self@.len(),
    {
        proof {
            self.lemma_len();
        }
        self.sessions.len()
    }

    /// The session of `name` with the highest loaded version, if any.
    pub fn get_latest(&self, name: &str) -> (r: Option<Arc<ModelSession<R>>>)
        requires
            self.wf(),
        ensures
            r is None <==> (forall|v: u32| !self@.contains_key((name@, v))),
            r matches Some(s) ==> {
                &&& s.name@ == name@
                &&& self@.contains_key((name@, s.version))
                &&& self@[(name@, s.version)] == *s
                &&& forall|v: u32| self@.contains_key((name@, v)) ==> v <= s.version
            },
    {
        let target = chars_of(name);
        let mut best: Option<usize> = None;
        let mut i: usize = 0;
        while i < self.sessions.len()
            invariant
                i <= self.sessions@.len(),
                target@ == name@,
                self.wf(),
                best matches Some(b) ==> b < i && self.sessions@[b as int].name@ == name@,
                best is None ==> forall|j: int| 0 <= j < i ==> self.sessions@[j].name@ != name@,
                best matches Some(b) ==> forall|j: int|
                    0 <= j < i && self.sessions@[j].name@ == name@ ==> self.sessions@[j].version
                        <= self.sessions@[b as int].version,
            decreases self.sessions.len() - i,
        {
            let s = &self.sessions[i];
            let sn = chars_of(s.name.as_str());
            if crate::text::same_chars(sn.as_slice(), target.as_slice()) {
                let better = match best {
                    None => true,
                    Some(b) => s.version > self.sessions[b].version,
                };
                if better {
                    best = Some(i);
                }
            }
            i = i + 1;
        }
        match best {
            None => {
                assert forall|v: u32| !self@.contains_key((name@, v)) by {
                    if self@.contains_key((name@, v)) {
                        let j = self.index_of((name@, v));
                        assert(self.sessions@[j].name@ == name@);
                    }
                }
                None
            },
            Some(b) => {
                proof {
                    self.lemma_lookup(b as int);
                    assert forall|v: u32| self@.contains_key((name@, v)) implies v
                        <= self.sessions@[b as int].version by {
                        let j = self.index_of((name@, v));
                        assert(self.sessions@[j].name@ == name@);
                    }
                }
                Some(share(&self.sessions[b]))
            },
        }
    }

    /// The loaded versions of `name`, ascending.
    pub fn get_versions(&self, name: &str) -> (r: Vec<u32>)
        requires
            self.wf(),
        ensures
            strictly_ascending(r@),
            forall|v: u32| r@.contains(v) <==> self@.contains_key((name@, v)),
    {
        let target = chars_of(name);
        let mut r: Vec<u32> = Vec::new();
        let mut i: usize = 0;
        while i < self.sessions.len()
            invariant
                i <= self.sessions@.len(),
                target@ == name@,
                self.wf(),
                strictly_ascending(r@),
                forall|v: u32|
                    r@.contains(v) <==> exists|j: int|
                        0 <= j < i && #[trigger] entry_key(self.sessions@[j]) == (name@, v),
            decreases self.sessions.len() - i,
        {
            let s = &self.sessions[i];
            let sn = chars_of(s.name.as_str());
            let ghost prev = r@;
            if crate::text::same_chars(sn.as_slice(), target.as_slice()) {
                insert_unique_u32(&mut r, s.version);
                assert forall|v: u32| r@.contains(v) <==> exists|j: int|
                    0 <= j < i + 1 && #[trigger] entry_key(self.sessions@[j]) == (name@, v) by {
                    if v == s.version {
                        assert(entry_key(self.sessions@[i as int]) == (name@, v));
                    }
                    if exists|j: int| 0 <= j < i + 1 && #[trigger] entry_key(self.sessions@[j]) == (name@, v) {
                        let j = choose|j: int| 0 <= j < i + 1 && #[trigger] entry_key(self.sessions@[j]) == (name@, v);
                        if j < i {
                            assert(prev.contains(v));
                        }
                    }
                }
            } else {
                assert forall|v: u32| r@.contains(v) <==> exists|j: int|
                    0 <= j < i + 1 && #[trigger] entry_key(self.sessions@[j]) == (name@, v) by {
                    if exists|j: int| 0 <= j < i + 1 && #[trigger] entry_key(self.sessions@[j]) == (name@, v) {
                        let j = choose|j: int| 0 <= j < i + 1 && #[trigger] entry_key(self.sessions@[j]) == (name@, v);
                        assert(j != i);
                    }
                }
            }
            i = i + 1;
        }
        assert forall|v: u32| r@.contains(v) <==> self@.contains_key((name@, v)) by {
            if r@.contains(v) {
                let j = choose|j: int| 0 <= j < i && #[trigger] entry_key(self.sessions@[j]) == (name@, v);
                self.lemma_lookup(j);
            }
            if self@.contains_key((name@, v)) {
                let j = self.index_of((name@, v));
                assert(entry_key(self.sessions@[j]) == (name@, v));
            }
        }
        r
    }

    /// The names of the loaded models, each once, ascending.
    pub fn all_model_names(&self) -> (r: Vec<String>)
        requires
            self.wf(),
        ensures
            names_ascending(string_views(r@)),
            forall|y: Seq<char>|
                string_views(r@).contains(y) <==> exists|v: u32| self@.contains_key((y, v)),
    {
        let mut r: Vec<String> = Vec::new();
        let mut i: usize = 0;
        assert(string_views(r@) =~= Seq::<Seq<char>>::empty());
        while i < self.sessions.len()
            invariant
                i <= self.sessions@.len(),
                self.wf(),
                names_ascending(string_views(r@)),
                forall|y: Seq<char>|
                    string_views(r@).contains(y) <==> exists|j: int|
                        0 <= j < i && #[trigger] self.sessions@[j].name@ == y,
            decreases self.sessions.len() - i,
        {
            let ghost prev = string_views(r@);
            let n = self.sessions[i].name.clone();
            insert_unique_name(&mut r, n);
            assert forall|y: Seq<char>| string_views(r@).contains(y) <==> exists|j: int|
                0 <= j < i + 1 && #[trigger] self.sessions@[j].name@ == y by {
                if exists|j: int| 0 <= j < i + 1 && #[trigger] self.sessions@[j].name@ == y {
                    let j = choose|j: int| 0 <= j < i + 1 && #[trigger] self.sessions@[j].name@ == y;
                    if j < i {
                        assert(prev.contains(y));
                    }
                }
            }
            i = i + 1;
        }
        assert forall|y: Seq<char>| string_views(r@).contains(y) <==> exists|v: u32| self@.contains_key((y, v)) by {
            if string_views(r@).contains(y) {
                let j = choose|j: int| 0 <= j < i && #[trigger] self.sessions@[j].name@ == y;
                self.lemma_lookup(j);
                assert(self@.contains_key((y, self.sessions@[j].version)));
            }
            if exists|v: u32| self@.contains_key((y, v)) {
                let v = choose|v: u32| self@.contains_key((y, v));
                let j = self.index_of((y, v));
                assert(self.sessions@[j].name@ == y);
            }
        }
        r
    }

    /// Every loaded session as (name, version, state), each once.
    pub fn list_models(&self) -> (r: Vec<(String, u32, SessionState)>)
        requires
            self.wf(),
        ensures
            r@.len() == self@.len(),
            forall|i: int| 0 <= i < r@.len() ==> {
                &&& #[trigger] self@.contains_key((r@[i].0@, r@[i].1))
                &&& r@[i].2 == self@[(r@[i].0@, r@[i].1)].state
            },
            forall|k: (Seq<char>, u32)| #[trigger] self@.contains_key(k) ==> exists|i: int|
                0 <= i < r@.len() && (r@[i].0@, r@[i].1) == k,
            forall|i: int, j: int| 0 <= i < j < r@.len() ==> (r@[i].0@, r@[i].1) != (r@[j].0@, r@[j].1),
    {
        let mut r: Vec<(String, u32, SessionState)> = Vec::new();
        let mut i: usize = 0;
        while i < self.sessions.len()
            invariant
                i <= self.sessions@.len(),
                self.wf(),
                r@.len() == i,
                forall|j: int| 0 <= j < i ==> (#[trigger] r@[j]).0@ == self.sessions@[j].name@ && r@[j].1
                    == self.sessions@[j].version && r@[j].2 == self.sessions@[j].state,
            decreases self.sessions.len() - i,
        {
            let s = &self.sessions[i];
            r.push((s.name.clone(), s.version, s.state));
            i = i + 1;
        }
        proof {
            self.lemma_len();
            assert forall|i: int| 0 <= i < r@.len() implies {
                &&& #[trigger] self@.contains_key((r@[i].0@, r@[i].1))
                &&& r@[i].2 == self@[(r@[i].0@, r@[i].1)].state
            } by {
                assert(r@[i].0@ == self.sessions@[i].name@);
                self.lemma_lookup(i);
            }
            assert forall|k: (Seq<char>, u32)| #[trigger] self@.contains_key(k) implies exists|i: int|
                0 <= i < r@.len() && (r@[i].0@, r@[i].1) == k by {
                let j = self.index_of(k);
                assert(r@[j].0@ == self.sessions@[j].name@);
                assert((r@[j].0@, r@[j].1) == k);
            }
            assert forall|i: int, j: int| 0 <= i < j < r@.len() implies (r@[i].0@, r@[i].1) != (
            r@[j].0@, r@[j].1) by {
                assert(r@[i].0@ == self.sessions@[i].name@);
                assert(r@[j].0@ == self.sessions@[j].name@);
                assert(entry_key(self.sessions@[i]) != entry_key(self.sessions@[j]));
            }
        }
        r
    }
}

/// Each loaded version stands on its own: loading or unloading one version
/// of a model leaves every other (name, version) entry as it was, and a
/// version reads back as it was loaded until it is unloaded.
pub proof fn law_versions_independent<R>(
    m: Map<(Seq<char>, u32), ModelSession<R>>,
    k: (Seq<char>, u32),
    s: ModelSession<R>,
    other: (Seq<char>, u32),
)
    requires
        other != k,
    ensures
        m.insert(k, s).contains_key(k) && m.insert(k, s)[k] == s,
        !m.remove(k).contains_key(k),
        m.insert(k, s).contains_key(other) == m.contains_key(other),
        m.remove(k).contains_key(other) == m.contains_key(other),
        m.contains_key(other) ==> m.insert(k, s)[other] == m[other] && m.remove(k)[other] == m[other],
{
}

} // verus!
