//! An association table from `u128` keys to values.
//!
//! Both registries of the interpreter (flows and instances) and every keyed
//! field of the model (condition table, adjacency, children, ...) are stored
//! as such tables. Keys are unique; the view is the corresponding `Map`.

use vstd::prelude::*;
use vstd::pervasive::VecAdditionalExecFns;

verus! {

pub struct KeyTable<V> {
    entries: Vec<(u128, V)>,
}

impl<V> KeyTable<V> {
    /// The stored entries, in insertion order.
    pub closed spec fn entries_seq(&self) -> Seq<(u128, V)> {
        self.entries@
    }

    /// Keys are pairwise distinct.
    pub open spec fn wf(&self) -> bool {
        forall|i: int, j: int|
            0 <= i < j < self.entries_seq().len() ==> (#[trigger] self.entries_seq()[i]).0 != (
            #[trigger] self.entries_seq()[j]).0
    }

    /// The map described by an entry sequence; later entries win.
    pub open spec fn seq_to_map(s: Seq<(u128, V)>) -> Map<u128, V>
        decreases s.len(),
    {
        if s.len() == 0 {
            Map::empty()
        } else {
            Self::seq_to_map(s.drop_last()).insert(s.last().0, s.last().1)
        }
    }

    proof fn lemma_domain(s: Seq<(u128, V)>, k: u128)
        ensures
            Self::seq_to_map(s).contains_key(k) <==> exists|i: int|
                0 <= i < s.len() && (#[trigger] s[i]).0 == k,
        decreases s.len(),
    {
        if s.len() > 0 {
            Self::lemma_domain(s.drop_last(), k);
            if s.last().0 != k {
                if Self::seq_to_map(s).contains_key(k) {
                    let i = choose|i: int| 0 <= i < s.drop_last().len() && (#[trigger] s.drop_last()[i]).0 == k;
                    assert(s[i].0 == k);
                }
                if exists|i: int| 0 <= i < s.len() && (#[trigger] s[i]).0 == k {
                    let i = choose|i: int| 0 <= i < s.len() && (#[trigger] s[i]).0 == k;
                    assert(i < s.len() - 1);
                    assert(s.drop_last()[i].0 == k);
                }
            }
        }
    }

    proof fn lemma_value_at(s: Seq<(u128, V)>, i: int)
        requires
            0 <= i < s.len(),
            forall|p: int, q: int|
                0 <= p < q < s.len() ==> (#[trigger] s[p]).0 != (#[trigger] s[q]).0,
        ensures
            Self::seq_to_map(s).contains_key(s[i].0),
            Self::seq_to_map(s)[s[i].0] == s[i].1,
        decreases s.len(),
    {
        Self::lemma_domain(s, s[i].0);
        if i == s.len() - 1 {
        } else {
            assert(s.drop_last()[i] == s[i]);
            Self::lemma_value_at(s.drop_last(), i);
            assert(s.last().0 != s[i].0);
        }
    }

    proof fn lemma_update_at(s: Seq<(u128, V)>, i: int, v: V)
        requires
            0 <= i < s.len(),
            forall|p: int, q: int|
                0 <= p < q < s.len() ==> (#[trigger] s[p]).0 != (#[trigger] s[q]).0,
        ensures
            Self::seq_to_map(s.update(i, (s[i].0, v))) == Self::seq_to_map(s).insert(s[i].0, v),
        decreases s.len(),
    {
        let k = s[i].0;
        let t = s.update(i, (k, v));
        if i == s.len() - 1 {
            assert(t.drop_last() =~= s.drop_last());
            assert(t.last() == (k, v));
        } else {
            assert(t.drop_last() =~= s.drop_last().update(i, (k, v)));
            assert(s.drop_last()[i] == s[i]);
            Self::lemma_update_at(s.drop_last(), i, v);
            assert(t.last() == s.last());
            assert(s.last().0 != k);
            assert(Self::seq_to_map(t) == Self::seq_to_map(s.drop_last()).insert(k, v).insert(
                s.last().0,
                s.last().1,
            ));
            assert(Self::seq_to_map(s.drop_last()).insert(k, v).insert(s.last().0, s.last().1)
                =~= Self::seq_to_map(s.drop_last()).insert(s.last().0, s.last().1).insert(k, v));
        }
    }

    proof fn lemma_remove_at(s: Seq<(u128, V)>, i: int)
        requires
            0 <= i < s.len(),
            forall|p: int, q: int|
                0 <= p < q < s.len() ==> (#[trigger] s[p]).0 != (#[trigger] s[q]).0,
        ensures
            Self::seq_to_map(s.remove(i)) == Self::seq_to_map(s).remove(s[i].0),
        decreases s.len(),
    {
        let k = s[i].0;
        let t = s.remove(i);
        Self::lemma_domain(s.drop_last(), k);
        if i == s.len() - 1 {
            assert(t =~= s.drop_last());
            assert(!Self::seq_to_map(s.drop_last()).contains_key(k));
            assert(Self::seq_to_map(s.drop_last()).remove(k) =~= Self::seq_to_map(s.drop_last()));
            assert(Self::seq_to_map(s).remove(k) =~= Self::seq_to_map(s.drop_last()).insert(
                k,
                s.last().1,
            ).remove(k));
        } else {
            assert(t.drop_last() =~= s.drop_last().remove(i));
            assert(s.drop_last()[i] == s[i]);
            Self::lemma_remove_at(s.drop_last(), i);
            assert(t.last() == s.last());
            assert(s.last().0 != k);
            assert(Self::seq_to_map(t) == Self::seq_to_map(s.drop_last()).remove(k).insert(
                s.last().0,
                s.last().1,
            ));
            assert(Self::seq_to_map(s.drop_last()).remove(k).insert(s.last().0, s.last().1)
                =~= Self::seq_to_map(s.drop_last()).insert(s.last().0, s.last().1).remove(k));
        }
    }

    proof fn lemma_push_fresh(s: Seq<(u128, V)>, k: u128, v: V)
        requires
            forall|i: int| 0 <= i < s.len() ==> (#[trigger] s[i]).0 != k,
        ensures
            Self::seq_to_map(s.push((k, v))) == Self::seq_to_map(s).insert(k, v),
    {
        assert(s.push((k, v)).drop_last() =~= s);
    }

    pub fn new() -> (r: Self)
        ensures
            r.wf(),
            r@ == Map::<u128, V>::empty(),
            r.entries_seq() == Seq::<(u128, V)>::empty(),
    {
        KeyTable { entries: Vec::new() }
    }

    /// Look up `k`; `None` when no entry carries that key.
    pub fn get(&self, k: u128) -> (r: Option<&V>)
        requires
            self.wf(),
        ensures
            match r {
                Some(v) => self@.contains_key(k) && *v == self@[k],
                None => !self@.contains_key(k),
            },
    {
        let ghost s = self.entries_seq();
        let mut idx: usize = 0;
        while idx < self.entries.len()
            invariant
                idx <= s.len(),
                s == self.entries_seq(),
                self.wf(),
                forall|j: int| 0 <= j < idx ==> (#[trigger] s[j]).0 != k,
            decreases s.len() - idx,
        {
            if self.entries[idx].0 == k {
                proof {
                    Self::lemma_value_at(s, idx as int);
                }
                return Some(&self.entries[idx].1);
            }
            idx += 1;
        }
        proof {
            Self::lemma_domain(s, k);
        }
        None
    }

    /// Whether an entry carries key `k`.
    pub fn contains_key(&self, k: u128) -> (r: bool)
        requires
            self.wf(),
        ensures
            r == self@.contains_key(k),
    {
        self.get(k).is_some()
    }

    /// Bind `k` to `v`, replacing any previous binding.
    pub fn insert(&mut self, k: u128, v: V)
        requires
            old(self).wf(),
        ensures
            final(self).wf(),
            final(self)@ == old(self)@.insert(k, v),
            !old(self)@.contains_key(k) ==> final(self).entries_seq() == old(self).entries_seq().push((k, v)),
    {
        let ghost s = self.entries_seq();
        let mut idx: usize = 0;
        while idx < self.entries.len()
            invariant
                idx <= s.len(),
                s == self.entries_seq(),
                s == old(self).entries_seq(),
                self.wf(),
                forall|j: int| 0 <= j < idx ==> (#[trigger] s[j]).0 != k,
            decreases s.len() - idx,
        {
            if self.entries[idx].0 == k {
                proof {
                    Self::lemma_value_at(s, idx as int);
                    Self::lemma_update_at(s, idx as int, v);
                    Self::lemma_domain(s, k);
                }
                self.entries.set(idx, (k, v));
                return ;
            }
            idx += 1;
        }
        proof {
            Self::lemma_push_fresh(s, k, v);
            Self::lemma_domain(s, k);
        }
        self.entries.push((k, v));
    }

    /// Remove and return the binding of `k`, if any.
    pub fn take(&mut self, k: u128) -> (r: Option<V>)
        requires
            old(self).wf(),
        ensures
            final(self).wf(),
            match r {
                Some(v) => old(self)@.contains_key(k) && v == old(self)@[k]
                    && final(self)@ == old(self)@.remove(k),
                None => !old(self)@.contains_key(k) && final(self)@ == old(self)@
                    && final(self).entries_seq() == old(self).entries_seq(),
            },
    {
        let ghost s = self.entries_seq();
        let mut idx: usize = 0;
        while idx < self.entries.len()
            invariant
                idx <= s.len(),
                s == self.entries_seq(),
                s == old(self).entries_seq(),
                self.wf(),
                forall|j: int| 0 <= j < idx ==> (#[trigger] s[j]).0 != k,
            decreases s.len() - idx,
        {
            if self.entries[idx].0 == k {
                proof {
                    Self::lemma_value_at(s, idx as int);
                    Self::lemma_remove_at(s, idx as int);
                }
                let pair = self.entries.remove(idx);
                return Some(pair.1);
            }
            idx += 1;
        }
        proof {
            Self::lemma_domain(s, k);
        }
        None
    }

    /// Number of entries (equals the size of the view's domain).
    pub fn len(&self) -> (r: usize)
        ensures
            r == self.entries_seq().len(),
    {
        self.entries.len()
    }

    /// The entry at position `i`, in insertion order.
    pub fn entry_at(&self, i: usize) -> (r: &(u128, V))
        requires
            i < self.entries_seq().len(),
        ensures
            *r == self.entries_seq()[i as int],
    {
        &self.entries[i]
    }

    /// The entry list fits in memory.
    pub proof fn lemma_len_bounded(&self)
        ensures
            self.entries_seq().len() <= usize::MAX,
    {
        vstd::std_specs::vec::axiom_spec_len(&self.entries);
    }

    /// Each stored entry is visible in the view.
    pub proof fn lemma_entry_view(&self, i: int)
        requires
            self.wf(),
            0 <= i < self.entries_seq().len(),
        ensures
            self@.contains_key(self.entries_seq()[i].0),
            self@[self.entries_seq()[i].0] == self.entries_seq()[i].1,
    {
        Self::lemma_value_at(self.entries_seq(), i);
    }

    /// The view's domain is exactly the set of stored keys.
    pub proof fn lemma_contains_iff(&self, k: u128)
        ensures
            self@.contains_key(k) <==> exists|i: int|
                0 <= i < self.entries_seq().len() && (#[trigger] self.entries_seq()[i]).0 == k,
    {
        Self::lemma_domain(self.entries_seq(), k);
    }
}

impl<V> View for KeyTable<V> {
    type V = Map<u128, V>;

    open spec fn view(&self) -> Map<u128, V> {
        Self::seq_to_map(self.entries_seq())
    }
}

} // verus!
