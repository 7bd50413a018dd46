//! `Idata`: the per-instance runtime record.
//!
//! An instance carries two `u128` markings (tokens on edges and started
//! activities), its upward linkage (parent instance, flow definition, index
//! in the parent flow), the live child instances per sub-process element,
//! and the remaining instance count per multi-instance element.

use vstd::prelude::*;
use crate::table::KeyTable;
use crate::codec::{
    spec_enc_u128, spec_enc_opt, spec_enc_u128_pairs, spec_enc_list_pairs, spec_dec_u128,
    spec_dec_opt, spec_dec_u128_pairs, spec_dec_list_pairs, spec_dec_keyed_pairs,
    spec_dec_list_items, enc_u128_into, enc_opt_into, enc_u128_seq_into, dec_u128_at, dec_opt_at,
    dec_u128_seq_at, has_key, keys_unique, list_pairs_bounded, lemma_dec_enc_u128,
    lemma_dec_enc_opt, lemma_dec_enc_u128_pairs, lemma_dec_enc_list_pairs,
    lemma_dec_keyed_pairs_stuck, lemma_dec_list_items_stuck, spec_enc_pair_items,
    spec_enc_list_items,
};

verus! {

/// Copy a list of indices or instance ids.
pub fn copy_u128s(v: &Vec<u128>) -> (r: Vec<u128>)
    ensures
        r@ == v@,
{
    let mut r: Vec<u128> = Vec::new();
    let mut i: usize = 0;
    while i < v.len()
        invariant
            i <= v@.len(),
            r@ == v@.subrange(0, i as int),
        decreases v@.len() - i,
    {
        r.push(v[i]);
        i += 1;
    }
    assert(r@ =~= v@);
    r
}

pub struct Idata {
    tokens_on_edges: u128,
    started_activities: u128,
    idata_parent: Option<u128>,
    iflow_node: u128,
    index_in_parent: u128,
    children: KeyTable<Vec<u128>>,
    instance_count: KeyTable<u128>,
}

impl Idata {
    /// Primary marking: bit `k` set iff a token sits on edge `k`.
    pub closed spec fn tokens(&self) -> u128 {
        self.tokens_on_edges
    }

    /// Secondary marking: bit `k` set iff sub-process element `k` has a
    /// live child instance.
    pub closed spec fn started(&self) -> u128 {
        self.started_activities
    }

    pub closed spec fn parent_id(&self) -> Option<u128> {
        self.idata_parent
    }

    pub closed spec fn flow_node(&self) -> u128 {
        self.iflow_node
    }

    pub closed spec fn index(&self) -> u128 {
        self.index_in_parent
    }

    /// Live child instances per sub-process element.
    pub closed spec fn children_map(&self) -> Map<u128, Seq<u128>> {
        Map::new(|k: u128| self.children@.contains_key(k), |k: u128| self.children@[k]@)
    }

    /// The child list of element `e`; empty when none was recorded.
    pub open spec fn children_of(&self, e: u128) -> Seq<u128> {
        if self.children_map().contains_key(e) {
            self.children_map()[e]
        } else {
            Seq::empty()
        }
    }

    /// Remaining/pending instance count per multi-instance element.
    pub closed spec fn counts_map(&self) -> Map<u128, u128> {
        self.instance_count@
    }

    /// The recorded count of element `e`, zero when none was recorded.
    pub open spec fn count_of(&self, e: u128) -> u128 {
        if self.counts_map().contains_key(e) {
            self.counts_map()[e]
        } else {
            0
        }
    }

    pub closed spec fn tables_wf(&self) -> bool {
        self.children.wf() && self.instance_count.wf()
    }

    /// Tables carry unique keys; the index in the parent can address a
    /// marking bit.
    pub open spec fn wf(&self) -> bool {
        self.tables_wf() && self.index() < 128
    }

    /// Everything but the two markings agrees between `a` and `b`.
    pub open spec fn same_but_markings(a: Idata, b: Idata) -> bool {
        a.parent_id() == b.parent_id() && a.flow_node() == b.flow_node() && a.index() == b.index()
            && a.children_map() == b.children_map() && a.counts_map() == b.counts_map()
    }

    /// Both markings are zero: the instance is terminated.
    pub open spec fn is_cleared(&self) -> bool {
        self.tokens() == 0 && self.started() == 0
    }

    pub fn new() -> (r: Self)
        ensures
            r.wf(),
            r.tokens() == 0,
            r.started() == 0,
            r.parent_id() == Option::<u128>::None,
            r.flow_node() == 0,
            r.index() == 0,
            r.children_map() =~= Map::<u128, Seq<u128>>::empty(),
            r.counts_map() =~= Map::<u128, u128>::empty(),
    {
        let r = Idata {
            tokens_on_edges: 0,
            started_activities: 0,
            idata_parent: None,
            iflow_node: 0,
            index_in_parent: 0,
            children: KeyTable::new(),
            instance_count: KeyTable::new(),
        };
        assert forall|k: u128| !r.children_map().contains_key(k) by {}
        r
    }

    pub fn set_marking(&mut self, n_marking: u128)
        ensures
            final(self).tokens() == n_marking,
            final(self).started() == old(self).started(),
            Self::same_but_markings(*old(self), *final(self)),
            final(self).wf() == old(self).wf(),
            n_marking == old(self).tokens() ==> *final(self) == *old(self),
    {
        self.tokens_on_edges = n_marking;
    }

    pub fn set_activity_marking(&mut self, n_marking: u128)
        ensures
            final(self).started() == n_marking,
            final(self).tokens() == old(self).tokens(),
            Self::same_but_markings(*old(self), *final(self)),
            final(self).wf() == old(self).wf(),
            n_marking == old(self).started() ==> *final(self) == *old(self),
    {
        self.started_activities = n_marking;
    }

    pub fn set_parent(&mut self, idata_parent: Option<u128>, iflow_node: u128, index_in_parent: u128)
        requires
            index_in_parent < 128,
        ensures
            final(self).parent_id() == idata_parent,
            final(self).flow_node() == iflow_node,
            final(self).index() == index_in_parent,
            final(self).tokens() == old(self).tokens(),
            final(self).started() == old(self).started(),
            final(self).children_map() == old(self).children_map(),
            final(self).counts_map() == old(self).counts_map(),
            old(self).wf() ==> final(self).wf(),
    {
        self.index_in_parent = index_in_parent;
        self.idata_parent = idata_parent;
        self.iflow_node = iflow_node;
    }

    /// Record a new live child of element `element_index` and bump that
    /// element's instance count.
    pub fn add_child(&mut self, element_index: u128, child_id: u128)
        requires
            old(self).wf(),
        ensures
            final(self).wf(),
            final(self).children_of(element_index) == old(self).children_of(element_index).push(
                child_id,
            ),
            forall|e: u128|
                e != element_index ==> final(self).children_of(e) == old(self).children_of(e),
            final(self).count_of(element_index) == Self::incremented(
                old(self).count_of(element_index),
            ),
            forall|e: u128| e != element_index ==> final(self).count_of(e) == old(self).count_of(e),
            final(self).tokens() == old(self).tokens(),
            final(self).started() == old(self).started(),
            final(self).parent_id() == old(self).parent_id(),
            final(self).flow_node() == old(self).flow_node(),
            final(self).index() == old(self).index(),
    {
        match self.children.take(element_index) {
            Some(mut list) => {
                list.push(child_id);
                self.children.insert(element_index, list);
            },
            None => {
                let mut list: Vec<u128> = Vec::new();
                list.push(child_id);
                self.children.insert(element_index, list);
            },
        }
        assert forall|e: u128|
            e != element_index implies #[trigger] self.children_of(e) == old(self).children_of(
            e,
        ) by {}
        self.increment_instance_count(element_index);
    }

    /// `c + 1`, capped at the top of the `u128` range.
    pub open spec fn incremented(c: u128) -> u128 {
        if c == u128::MAX {
            u128::MAX
        } else {
            (c + 1) as u128
        }
    }

    /// `c - 1`, floored at zero.
    pub open spec fn decremented(c: u128) -> u128 {
        if c == 0 {
            0
        } else {
            (c - 1) as u128
        }
    }

    pub fn increment_instance_count(&mut self, element_index: u128)
        requires
            old(self).wf(),
        ensures
            final(self).wf(),
            final(self).count_of(element_index) == Self::incremented(
                old(self).count_of(element_index),
            ),
            forall|e: u128| e != element_index ==> final(self).count_of(e) == old(self).count_of(e),
            final(self).children_map() == old(self).children_map(),
            final(self).tokens() == old(self).tokens(),
            final(self).started() == old(self).started(),
            final(self).parent_id() == old(self).parent_id(),
            final(self).flow_node() == old(self).flow_node(),
            final(self).index() == old(self).index(),
    {
        match self.instance_count.get(element_index) {
            Some(c) => {
                let n = if *c == u128::MAX {
                    u128::MAX
                } else {
                    *c + 1
                };
                self.instance_count.insert(element_index, n);
            },
            None => {
                self.instance_count.insert(element_index, 1);
            },
        }
    }

    /// Decrement an element's count; a missing entry stays missing and a
    /// zero count stays zero.
    pub fn decrement_instance_count(&mut self, element_index: u128)
        requires
            old(self).wf(),
        ensures
            final(self).wf(),
            final(self).count_of(element_index) == Self::decremented(
                old(self).count_of(element_index),
            ),
            forall|e: u128| e != element_index ==> final(self).count_of(e) == old(self).count_of(e),
            final(self).children_map() == old(self).children_map(),
            final(self).tokens() == old(self).tokens(),
            final(self).started() == old(self).started(),
            final(self).parent_id() == old(self).parent_id(),
            final(self).flow_node() == old(self).flow_node(),
            final(self).index() == old(self).index(),
    {
        match self.instance_count.get(element_index) {
            Some(c) => {
                let n = if *c == 0 {
                    0
                } else {
                    *c - 1
                };
                self.instance_count.insert(element_index, n);
            },
            None => {},
        }
    }

    pub fn set_instance_count(&mut self, element_index: u128, new_instance_count: u128)
        requires
            old(self).wf(),
        ensures
            final(self).wf(),
            final(self).count_of(element_index) == new_instance_count,
            forall|e: u128| e != element_index ==> final(self).count_of(e) == old(self).count_of(e),
            final(self).children_map() == old(self).children_map(),
            final(self).tokens() == old(self).tokens(),
            final(self).started() == old(self).started(),
            final(self).parent_id() == old(self).parent_id(),
            final(self).flow_node() == old(self).flow_node(),
            final(self).index() == old(self).index(),
    {
        self.instance_count.insert(element_index, new_instance_count);
    }

    pub fn get_marking(&self) -> (r: u128)
        ensures
            r == self.tokens(),
    {
        self.tokens_on_edges
    }

    pub fn get_started_activities(&self) -> (r: u128)
        ensures
            r == self.started(),
    {
        self.started_activities
    }

    pub fn get_index_in_parent(&self) -> (r: u128)
        ensures
            r == self.index(),
    {
        self.index_in_parent
    }

    pub fn get_flow_node(&self) -> (r: u128)
        ensures
            r == self.flow_node(),
    {
        self.iflow_node
    }

    pub fn get_idata_parent(&self) -> (r: Option<u128>)
        ensures
            r == self.parent_id(),
    {
        self.idata_parent
    }

    pub fn get_instance_count(&self, element_index: u128) -> (r: u128)
        requires
            self.wf(),
        ensures
            r == self.count_of(element_index),
    {
        match self.instance_count.get(element_index) {
            Some(c) => *c,
            None => 0,
        }
    }

    /// The live children of element `element_index`, empty when none.
    pub fn get_child_process_instances(&self, element_index: u128) -> (r: Vec<u128>)
        requires
            self.wf(),
        ensures
            r@ == self.children_of(element_index),
    {
        match self.children.get(element_index) {
            Some(list) => copy_u128s(list),
            None => Vec::new(),
        }
    }

    /// The record's abstract content, as its wire format carries it.
    pub closed spec fn model(&self) -> IdataModel {
        IdataModel {
            tokens: self.tokens_on_edges,
            started: self.started_activities,
            parent: self.idata_parent,
            flow: self.iflow_node,
            index: self.index_in_parent,
            children: self.children.entries_seq().map_values(
                |p: (u128, Vec<u128>)| (p.0, p.1@),
            ),
            counts: self.instance_count.entries_seq(),
        }
    }

    /// A well-formed record's model is valid for the wire format.
    pub proof fn lemma_model_valid(&self)
        requires
            self.wf(),
        ensures
            self.model().valid(),
    {
        self.children.lemma_len_bounded();
        self.instance_count.lemma_len_bounded();
        assert forall|i: int, j: int| 0 <= i < j < self.model().children.len() implies (
        #[trigger] self.model().children[i]).0 != (#[trigger] self.model().children[j]).0 by {
            assert(self.children.entries_seq()[i].0 != self.children.entries_seq()[j].0);
        }
        assert forall|i: int| 0 <= i < self.model().children.len() implies (
        #[trigger] self.model().children[i]).1.len() <= u64::MAX by {
            let v = self.children.entries_seq()[i].1;
            vstd::std_specs::vec::axiom_spec_len(&v);
            assert(self.model().children[i].1 == v@);
        }
    }

    /// Serialise the record.
    pub fn encode_idata(&self) -> (r: Vec<u8>)
        ensures
            r@ == spec_enc_idata(self.model()),
    {
        let ghost m = self.model();
        let mut out: Vec<u8> = Vec::new();
        enc_u128_into(&mut out, self.tokens_on_edges);
        enc_u128_into(&mut out, self.started_activities);
        enc_opt_into(&mut out, self.idata_parent);
        enc_u128_into(&mut out, self.iflow_node);
        enc_u128_into(&mut out, self.index_in_parent);
        let ghost head = out@;
        enc_u128_into(&mut out, self.children.len() as u128);
        let mut i: usize = 0;
        while i < self.children.len()
            invariant
                i <= m.children.len(),
                m == self.model(),
                m.children.len() == self.children.entries_seq().len(),
                out@ == head + spec_enc_u128(m.children.len() as u128) + spec_enc_list_items(
                    m.children.subrange(0, i as int),
                ),
            decreases m.children.len() - i,
        {
            let ghost pre = m.children.subrange(0, i as int);
            let entry = self.children.entry_at(i);
            enc_u128_into(&mut out, entry.0);
            enc_u128_seq_into(&mut out, &entry.1);
            proof {
                let cur = m.children.subrange(0, i + 1);
                assert(cur.drop_last() =~= pre);
                assert(cur.last() == m.children[i as int]);
                assert(m.children[i as int] == (entry.0, entry.1@));
                assert(out@ =~= head + spec_enc_u128(m.children.len() as u128)
                    + spec_enc_list_items(cur));
            }
            i += 1;
        }
        proof {
            assert(m.children.subrange(0, m.children.len() as int) =~= m.children);
        }
        let ghost head2 = out@;
        enc_u128_into(&mut out, self.instance_count.len() as u128);
        let mut j: usize = 0;
        while j < self.instance_count.len()
            invariant
                j <= m.counts.len(),
                m == self.model(),
                m.counts == self.instance_count.entries_seq(),
                out@ == head2 + spec_enc_u128(m.counts.len() as u128) + spec_enc_pair_items(
                    m.counts.subrange(0, j as int),
                ),
            decreases m.counts.len() - j,
        {
            let ghost pre = m.counts.subrange(0, j as int);
            let entry = self.instance_count.entry_at(j);
            enc_u128_into(&mut out, entry.0);
            enc_u128_into(&mut out, entry.1);
            proof {
                let cur = m.counts.subrange(0, j + 1);
                assert(cur.drop_last() =~= pre);
                assert(cur.last() == m.counts[j as int]);
                assert(out@ =~= head2 + spec_enc_u128(m.counts.len() as u128)
                    + spec_enc_pair_items(cur));
            }
            j += 1;
        }
        proof {
            assert(m.counts.subrange(0, m.counts.len() as int) =~= m.counts);
            assert(out@ =~= spec_enc_idata(m));
        }
        out
    }

    /// Read a record back from its wire encoding; `None` when the bytes
    /// are cut short, repeat a table key, or carry an oversized index.
    pub fn decode_idata(bytes: &Vec<u8>) -> (r: Option<Idata>)
        ensures
            match r {
                Some(d) => spec_dec_idata(bytes@) == Some(d.model()) && d.wf(),
                None => spec_dec_idata(bytes@) is None,
            },
    {
        let (tokens, p1) = match dec_u128_at(bytes, 0) {
            Some(x) => x,
            None => return None,
        };
        let (started, p2) = match dec_u128_at(bytes, p1) {
            Some(x) => x,
            None => return None,
        };
        let (parent, p3) = match dec_opt_at(bytes, p2) {
            Some(x) => x,
            None => return None,
        };
        let (flow, p4) = match dec_u128_at(bytes, p3) {
            Some(x) => x,
            None => return None,
        };
        let (index, p5) = match dec_u128_at(bytes, p4) {
            Some(x) => x,
            None => return None,
        };
        // the children table
        let (cn, mut cp) = match dec_u128_at(bytes, p5) {
            Some(x) => x,
            None => return None,
        };
        let ghost cp0 = cp as int;
        let mut children: KeyTable<Vec<u128>> = KeyTable::new();
        let mut k: u128 = 0;
        while k < cn
            invariant
                k <= cn,
                children.wf(),
                spec_dec_u128(bytes@, 0) == Some((tokens, p1 as int)),
                spec_dec_u128(bytes@, p1 as int) == Some((started, p2 as int)),
                spec_dec_opt(bytes@, p2 as int) == Some((parent, p3 as int)),
                spec_dec_u128(bytes@, p3 as int) == Some((flow, p4 as int)),
                spec_dec_u128(bytes@, p4 as int) == Some((index, p5 as int)),
                spec_dec_u128(bytes@, p5 as int) == Some((cn, cp0)),
                spec_dec_list_items(bytes@, cp0, k as int) == Some(
                    (
                        children.entries_seq().map_values(|p: (u128, Vec<u128>)| (p.0, p.1@)),
                        cp as int,
                    ),
                ),
            decreases cn - k,
        {
            let ghost sofar = children.entries_seq().map_values(
                |p: (u128, Vec<u128>)| (p.0, p.1@),
            );
            match dec_u128_at(bytes, cp) {
                Some((key, q)) => {
                    match dec_u128_seq_at(bytes, q) {
                        Some((v, r2)) => {
                            if children.contains_key(key) {
                                proof {
                                    children.lemma_contains_iff(key);
                                    let wi = choose|i: int|
                                        0 <= i < children.entries_seq().len() && (
                                        #[trigger] children.entries_seq()[i]).0 == key;
                                    assert(sofar[wi].0 == key);
                                    assert(has_key(sofar, key));
                                    lemma_dec_list_items_stuck(bytes@, cp0, k as int, cn as int);
                                }
                                return None;
                            }
                            proof {
                                children.lemma_contains_iff(key);
                                if has_key(sofar, key) {
                                    let wi = choose|i: int|
                                        0 <= i < sofar.len() && (#[trigger] sofar[i]).0 == key;
                                    assert(children.entries_seq()[wi].0 == key);
                                    assert(false);
                                }
                            }
                            children.insert(key, v);
                            proof {
                                assert(children.entries_seq().map_values(
                                    |p: (u128, Vec<u128>)| (p.0, p.1@),
                                ) =~= sofar.push((key, v@)));
                            }
                            cp = r2;
                        },
                        None => {
                            proof {
                                lemma_dec_list_items_stuck(bytes@, cp0, k as int, cn as int);
                            }
                            return None;
                        },
                    }
                },
                None => {
                    proof {
                        lemma_dec_list_items_stuck(bytes@, cp0, k as int, cn as int);
                    }
                    return None;
                },
            };
            k = k + 1;
        }
        let ghost childm = children.entries_seq().map_values(|p: (u128, Vec<u128>)| (p.0, p.1@));
        proof {
            assert(spec_dec_list_pairs(bytes@, p5 as int) == Some((childm, cp as int)));
        }
        // the counts table
        let (tn, mut tp) = match dec_u128_at(bytes, cp) {
            Some(x) => x,
            None => return None,
        };
        let ghost tp0 = tp as int;
        let mut counts: KeyTable<u128> = KeyTable::new();
        let mut t: u128 = 0;
        while t < tn
            invariant
                t <= tn,
                counts.wf(),
                spec_dec_u128(bytes@, 0) == Some((tokens, p1 as int)),
                spec_dec_u128(bytes@, p1 as int) == Some((started, p2 as int)),
                spec_dec_opt(bytes@, p2 as int) == Some((parent, p3 as int)),
                spec_dec_u128(bytes@, p3 as int) == Some((flow, p4 as int)),
                spec_dec_u128(bytes@, p4 as int) == Some((index, p5 as int)),
                spec_dec_list_pairs(bytes@, p5 as int) == Some((childm, cp as int)),
                spec_dec_u128(bytes@, cp as int) == Some((tn, tp0)),
                spec_dec_keyed_pairs(bytes@, tp0, t as int) == Some(
                    (counts.entries_seq(), tp as int),
                ),
            decreases tn - t,
        {
            let ghost sofar = counts.entries_seq();
            match dec_u128_at(bytes, tp) {
                Some((key, q)) => {
                    match dec_u128_at(bytes, q) {
                        Some((v, r2)) => {
                            if counts.contains_key(key) {
                                proof {
                                    counts.lemma_contains_iff(key);
                                    assert(has_key(sofar, key));
                                    lemma_dec_keyed_pairs_stuck(bytes@, tp0, t as int, tn as int);
                                }
                                return None;
                            }
                            proof {
                                counts.lemma_contains_iff(key);
                                if has_key(sofar, key) {
                                    let wi = choose|i: int|
                                        0 <= i < sofar.len() && (#[trigger] sofar[i]).0 == key;
                                    assert(counts.entries_seq()[wi].0 == key);
                                    assert(false);
                                }
                            }
                            counts.insert(key, v);
                            tp = r2;
                        },
                        None => {
                            proof {
                                lemma_dec_keyed_pairs_stuck(bytes@, tp0, t as int, tn as int);
                            }
                            return None;
                        },
                    }
                },
                None => {
                    proof {
                        lemma_dec_keyed_pairs_stuck(bytes@, tp0, t as int, tn as int);
                    }
                    return None;
                },
            }
            t = t + 1;
        }
        if index >= 128 {
            return None;
        }
        let d = Idata {
            tokens_on_edges: tokens,
            started_activities: started,
            idata_parent: parent,
            iflow_node: flow,
            index_in_parent: index,
            children,
            instance_count: counts,
        };
        Some(d)
    }
}

/// The abstract content of an instance record, as the wire format carries
/// it: plain values and the two tables as key-ordered entry lists.
pub ghost struct IdataModel {
    pub tokens: u128,
    pub started: u128,
    pub parent: Option<u128>,
    pub flow: u128,
    pub index: u128,
    pub children: Seq<(u128, Seq<u128>)>,
    pub counts: Seq<(u128, u128)>,
}

impl IdataModel {
    /// List lengths fit their length prefixes and the keys are unique, as
    /// they are for every record the engine builds.
    pub open spec fn valid(self) -> bool {
        &&& self.index < 128
        &&& self.children.len() <= u64::MAX
        &&& self.counts.len() <= u64::MAX
        &&& keys_unique(self.children)
        &&& keys_unique(self.counts)
        &&& list_pairs_bounded(self.children)
    }
}

/// The wire encoding of an instance record.
pub open spec fn spec_enc_idata(m: IdataModel) -> Seq<u8> {
    spec_enc_u128(m.tokens) + spec_enc_u128(m.started) + spec_enc_opt(m.parent) + spec_enc_u128(
        m.flow,
    ) + spec_enc_u128(m.index) + spec_enc_list_pairs(m.children) + spec_enc_u128_pairs(m.counts)
}

/// Read an instance record back from its wire encoding; trailing bytes
/// are ignored. Repeated table keys or an oversized index reject the
/// input.
pub open spec fn spec_dec_idata(b: Seq<u8>) -> Option<IdataModel> {
    match spec_dec_u128(b, 0) {
        Some((tokens, p1)) => match spec_dec_u128(b, p1) {
            Some((started, p2)) => match spec_dec_opt(b, p2) {
                Some((parent, p3)) => match spec_dec_u128(b, p3) {
                    Some((flow, p4)) => match spec_dec_u128(b, p4) {
                        Some((index, p5)) => match spec_dec_list_pairs(b, p5) {
                            Some((children, p6)) => match spec_dec_u128_pairs(b, p6) {
                                Some((counts, _p7)) => if index < 128 {
                                    Some(
                                        IdataModel {
                                            tokens,
                                            started,
                                            parent,
                                            flow,
                                            index,
                                            children,
                                            counts,
                                        },
                                    )
                                } else {
                                    None
                                },
                                None => None,
                            },
                            None => None,
                        },
                        None => None,
                    },
                    None => None,
                },
                None => None,
            },
            None => None,
        },
        None => None,
    }
}

/// Serialising a valid record model and reading it back yields an equal
/// value.
pub proof fn lemma_idata_round_trip(m: IdataModel)
    requires
        m.valid(),
    ensures
        spec_dec_idata(spec_enc_idata(m)) == Some(m),
{
    let b = spec_enc_idata(m);
    let e1 = spec_enc_u128(m.tokens);
    let e2 = spec_enc_u128(m.started);
    let e3 = spec_enc_opt(m.parent);
    let e4 = spec_enc_u128(m.flow);
    let e5 = spec_enc_u128(m.index);
    let e6 = spec_enc_list_pairs(m.children);
    let e7 = spec_enc_u128_pairs(m.counts);
    let p1 = e1.len() as int;
    let p2 = p1 + e2.len();
    let p3 = p2 + e3.len();
    let p4 = p3 + e4.len();
    let p5 = p4 + e5.len();
    let p6 = p5 + e6.len();
    let p7 = p6 + e7.len();
    assert(b == e1 + e2 + e3 + e4 + e5 + e6 + e7);
    assert(b.subrange(0, p1) =~= e1);
    lemma_dec_enc_u128(b, 0, m.tokens);
    assert(b.subrange(p1, p2) =~= e2);
    lemma_dec_enc_u128(b, p1, m.started);
    assert(b.subrange(p2, p3) =~= e3);
    lemma_dec_enc_opt(b, p2, m.parent);
    assert(b.subrange(p3, p4) =~= e4);
    lemma_dec_enc_u128(b, p3, m.flow);
    assert(b.subrange(p4, p5) =~= e5);
    lemma_dec_enc_u128(b, p4, m.index);
    assert(b.subrange(p5, p6) =~= e6);
    lemma_dec_enc_list_pairs(b, p5, m.children);
    assert(b.subrange(p6, p7) =~= e7);
    lemma_dec_enc_u128_pairs(b, p6, m.counts);
}

} // verus!
