//! The table of outstanding requests, keyed by correlation id.
use vstd::prelude::*;
use crate::jsonrpc::{Id, IdView};

verus! {

/// Some entry of `s` has the key `k`.
pub open spec fn has_key<C>(s: Seq<(Id, C)>, k: IdView) -> bool {
    exists|i: int| 0 <= i < s.len() && (#[trigger] s[i]).0@ == k
}

/// No two entries of `s` share a key.
pub open spec fn keys_unique<C>(s: Seq<(Id, C)>) -> bool {
    forall|i: int, j: int|
        0 <= i < s.len() && 0 <= j < s.len() && i != j ==> (#[trigger] s[i]).0@ != (#[trigger] s[j]).0@
}

/// The entries of `s` as a map from key to sender.
pub open spec fn entries_map<C>(s: Seq<(Id, C)>) -> Map<IdView, C> {
    Map::new(
        |k: IdView| has_key(s, k),
        |k: IdView| s[choose|i: int| 0 <= i < s.len() && (#[trigger] s[i]).0@ == k].1,
    )
}

pub proof fn lemma_entries_map<C>(s: Seq<(Id, C)>)
    requires
        keys_unique(s),
    ensures
        forall|k: IdView| #[trigger] entries_map(s).contains_key(k) <==> has_key(s, k),
        forall|i: int| 0 <= i < s.len() ==> #[trigger] entries_map(s)[s[i].0@] == s[i].1,
{
    assert forall|i: int| 0 <= i < s.len() implies #[trigger] entries_map(s)[s[i].0@] == s[i].1 by {
        let k = s[i].0@;
        assert(has_key(s, k));
        let j = choose|j: int| 0 <= j < s.len() && (#[trigger] s[j]).0@ == k;
        assert(j == i);
    }
}

/// Outstanding requests: each id maps to the sender that completes its request.
pub struct PendingTable<C> {
    entries: Vec<(Id, C)>,
}

impl<C> View for PendingTable<C> {
    type V = Map<IdView, C>;

    closed spec fn view(&self) -> Map<IdView, C> {
        entries_map(self.entries@)
    }
}

impl<C> PendingTable<C> {
    pub closed spec fn wf(&self) -> bool {
        keys_unique(self.entries@)
    }

    pub fn new() -> (r: PendingTable<C>)
        ensures
            r.wf(),
            r@ == Map::<IdView, C>::empty(),
    {
        let r = PendingTable { entries: Vec::new() };
        assert(r@ =~= Map::<IdView, C>::empty());
        r
    }

    fn find(&self, id: &Id) -> (r: Option<usize>)
        ensures
            match r {
                Some(i) => i < self.entries@.len() && self.entries@[i as int].0@ == id@,
                None => !has_key(self.entries@, id@),
            },
    {
        let mut i: usize = 0;
        while i < self.entries.len()
            invariant
                i <= self.entries@.len(),
                forall|j: int| 0 <= j < i ==> (#[trigger] self.entries@[j]).0@ != id@,
            decreases self.entries.len() - i,
        {
            if self.entries[i].0.same(id) {
                return Some(i);
            }
            i = i + 1;
        }
        None
    }

    /// The number of outstanding requests.
    pub fn len(&self) -> (r: usize)
        requires
            self.wf(),
        ensures
            r == self@.dom().len(),
    {
        proof {
            lemma_entries_map(self.entries@);
            self.lemma_dom_len();
        }
        self.entries.len()
    }

    proof fn lemma_dom_len(&self)
        requires
            self.wf(),
        ensures
            self@.dom().finite(),
            self@.dom().len() == self.entries@.len(),
        decreases self.entries@.len(),
    {
        let s = self.entries@;
        lemma_entries_map(s);
        let keys = s.map_values(|e: (Id, C)| e.0@);
        assert(keys.no_duplicates()) by {
            assert forall|i: int, j: int| 0 <= i < keys.len() && 0 <= j < keys.len() && i != j
                implies keys[i] != keys[j] by {
                assert(s[i].0@ != s[j].0@);
            }
        }
        assert(self@.dom() =~= keys.to_set()) by {
            assert forall|k: IdView| self@.dom().contains(k) implies keys.to_set().contains(k) by {
                let i = choose|i: int| 0 <= i < s.len() && (#[trigger] s[i]).0@ == k;
                assert(keys[i] == k);
            }
            assert forall|k: IdView| keys.to_set().contains(k) implies self@.dom().contains(k) by {
                let i = choose|i: int| 0 <= i < keys.len() && keys[i] == k;
                assert(s[i].0@ == k);
            }
        }
        keys.unique_seq_to_set();
    }

    /// Records the sender for a request about to be written. An entry with the
    /// same id is replaced, and its sender handed back.
    pub fn register(&mut self, id: Id, chan: C) -> (r: Option<C>)
        requires
            old(self).wf(),
        ensures
            final(self).wf(),
            final(self)@ == old(self)@.insert(id@, chan),
            r == (if old(self)@.contains_key(id@) {
                Some(old(self)@[id@])
            } else {
                None::<C>
            }),
    {
        let ghost s0 = self.entries@;
        let ghost k = id@;
        proof {
            lemma_entries_map(s0);
        }
        let replaced = match self.find(&id) {
            Some(i) => {
                let e = self.entries.remove(i);
                Some(e.1)
            },
            None => None,
        };
        self.entries.push((id, chan));
        proof {
            let s = self.entries@;
            assert(keys_unique(s));
            lemma_entries_map(s);
            assert(s[s.len() - 1].0@ == k);
            assert forall|q: IdView| #[trigger] self@.contains_key(q) <==> old(self)@.insert(k, chan).contains_key(q) by {
                if q != k && has_key(s0, q) {
                    let i = choose|i: int| 0 <= i < s0.len() && (#[trigger] s0[i]).0@ == q;
                    let j = if replaced is Some && i > (choose|m: int| 0 <= m < s0.len() && s0[m].0@ == k) { i - 1 } else { i };
                    assert(s[j] == s0[i]);
                }
                if q != k && has_key(s, q) {
                    let j = choose|j: int| 0 <= j < s.len() && (#[trigger] s[j]).0@ == q;
                    assert(j < s.len() - 1);
                }
            }
            assert forall|q: IdView| #[trigger] self@.contains_key(q) implies self@[q] == old(self)@.insert(k, chan)[q] by {
                if q != k {
                    let j = choose|j: int| 0 <= j < s.len() && (#[trigger] s[j]).0@ == q;
                    assert(j < s.len() - 1);
                }
            }
            assert(self@ =~= old(self)@.insert(k, chan));
        }
        replaced
    }

    /// Takes the sender registered for `id`, if any. Every other entry stays as it was.
    pub fn resolve(&mut self, id: &Id) -> (r: Option<C>)
        requires
            old(self).wf(),
        ensures
            final(self).wf(),
            final(self)@ == old(self)@.remove(id@),
            r == (if old(self)@.contains_key(id@) {
                Some(old(self)@[id@])
            } else {
                None::<C>
            }),
    {
        let ghost s0 = self.entries@;
        proof {
            lemma_entries_map(s0);
        }
        match self.find(id) {
            Some(i) => {
                let e = self.entries.remove(i);
                proof {
                    let s = self.entries@;
                    assert(keys_unique(s));
                    lemma_entries_map(s);
                    assert forall|q: IdView| #[trigger] self@.contains_key(q) <==> old(self)@.remove(id@).contains_key(q) by {
                        if q != id@ && has_key(s0, q) {
                            let m = choose|m: int| 0 <= m < s0.len() && (#[trigger] s0[m]).0@ == q;
                            let j = if m > i { m - 1 } else { m };
                            assert(s[j] == s0[m]);
                        }
                        if has_key(s, q) {
                            let j = choose|j: int| 0 <= j < s.len() && (#[trigger] s[j]).0@ == q;
                            let m = if j >= i { j + 1 } else { j };
                            assert(s0[m] == s[j]);
                        }
                    }
                    assert forall|q: IdView| #[trigger] self@.contains_key(q) implies self@[q] == old(self)@.remove(id@)[q] by {
                        let j = choose|j: int| 0 <= j < s.len() && (#[trigger] s[j]).0@ == q;
                        let m = if j >= i { j + 1 } else { j };
                        assert(s0[m] == s[j]);
                    }
                    assert(self@ =~= old(self)@.remove(id@));
                }
                Some(e.1)
            },
            None => {
                assert(old(self)@.remove(id@) =~= old(self)@);
                None
            },
        }
    }

    /// Removes every entry and hands each out once, with its id.
    pub fn drain_all(&mut self) -> (r: Vec<(Id, C)>)
        requires
            old(self).wf(),
        ensures
            final(self).wf(),
            final(self)@ == Map::<IdView, C>::empty(),
            keys_unique(r@),
            entries_map(r@) == old(self)@,
    {
        let mut out: Vec<(Id, C)> = Vec::new();
        std::mem::swap(&mut out, &mut self.entries);
        assert(self@ =~= Map::<IdView, C>::empty());
        out
    }
}


/// The table and the outcomes after responses with the ids of `order` arrive
/// one after another, each handled as `resolve` handles it.
pub open spec fn resolve_all<C>(m: Map<IdView, C>, order: Seq<IdView>) -> (Map<IdView, C>, Seq<Option<C>>)
    decreases order.len(),
{
    if order.len() == 0 {
        (m, Seq::empty())
    } else {
        let (m1, out) = resolve_all(m, order.drop_last());
        let k = order.last();
        (m1.remove(k), out.push(if m1.contains_key(k) { Some(m1[k]) } else { None }))
    }
}

/// Responses may arrive in any order: each one whose id is outstanding and not
/// yet answered completes the request registered under that id, with that
/// request's own sender; a response whose id was never registered or was already
/// answered completes nothing and leaves every other entry as it was.
pub proof fn law_correlation<C>(m: Map<IdView, C>, order: Seq<IdView>)
    ensures
        forall|i: int| 0 <= i < order.len() ==> #[trigger] resolve_all(m, order).1[i] == (
            if m.contains_key(order[i]) && !order.subrange(0, i).contains(order[i]) {
                Some(m[order[i]])
            } else {
                None
            }),
        resolve_all(m, order).1.len() == order.len(),
        forall|k: IdView| #[trigger] resolve_all(m, order).0.contains_key(k)
            <==> m.contains_key(k) && !order.contains(k),
        forall|k: IdView| #[trigger] resolve_all(m, order).0.contains_key(k)
            ==> resolve_all(m, order).0[k] == m[k],
    decreases order.len(),
{
    if order.len() > 0 {
        let init = order.drop_last();
        law_correlation(m, init);
        let (m1, out) = resolve_all(m, init);
        let k = order.last();
        let n = order.len() - 1;
        assert forall|i: int| 0 <= i < order.len() implies #[trigger] resolve_all(m, order).1[i] == (
            if m.contains_key(order[i]) && !order.subrange(0, i).contains(order[i]) {
                Some(m[order[i]])
            } else {
                None
            }) by {
            if i < n {
                assert(order.subrange(0, i) =~= init.subrange(0, i));
                assert(out[i] == resolve_all(m, init).1[i]);
            } else {
                assert(order.subrange(0, i) =~= init);
            }
        }
        assert forall|q: IdView| #[trigger] resolve_all(m, order).0.contains_key(q)
            <==> m.contains_key(q) && !order.contains(q) by {
            if order.contains(q) && q != k {
                let j = choose|j: int| 0 <= j < order.len() && order[j] == q;
                assert(init[j] == q);
            }
            if init.contains(q) {
                let j = choose|j: int| 0 <= j < init.len() && init[j] == q;
                assert(order[j] == q);
            }
            assert(order[n] == k);
        }
    }
}

} // verus!
