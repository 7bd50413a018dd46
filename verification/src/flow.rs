//! `Iflow`: the immutable-after-link description of one BPMN sub-process,
//! and `Ifactory`: the handle used to materialise its data contract.
//!
//! A flow is populated element by element through `set_element` and wired to
//! its child sub-processes through `link_sub_process`. Every element carries
//! a `(pre_condition, post_condition, type_info)` triple; `type_info` is a
//! packed bitmask (bit 0 activity, 1 gateway, 2 event, 3 throw/split,
//! 4 interrupting/exclusive, 5 start/sub-process, 6 parallel
//! multi-instance/inclusive, 7 sequential multi-instance/intermediate,
//! 8 boundary, 9 end, 10 default, 11 terminate/user task, 12 event
//! sub-process/message/script, 13 service/error, 14 receive, 15 signal).

use vstd::prelude::*;
use crate::table::KeyTable;
use crate::instance::copy_u128s;
use crate::codec::u128_to_le_bytes;
use crate::codec::{
    spec_enc_u128, spec_enc_opt, spec_enc_u128_pairs, spec_enc_list_pairs, spec_enc_triples,
    spec_enc_b32_pairs, spec_enc_bytes, spec_dec_u128, spec_dec_opt, spec_dec_u128_pairs,
    spec_dec_list_pairs, spec_dec_triples, spec_dec_b32_pairs, spec_dec_b32, spec_dec_bytes,
    enc_u128_into, enc_opt_into, enc_u128_seq_into, enc_b32_into, enc_bytes_into,
    enc_pair_table_into, enc_list_table_into, enc_triple_table_into, enc_b32_table_into,
    dec_u128_at,
    dec_opt_at, dec_u128_seq_at, dec_b32_at, dec_bytes_at, dec_u128_pairs_at, dec_list_pairs_at,
    dec_triples_at, dec_b32_pairs_at, keys_unique, list_pairs_bounded, b32_values,
    spec_enc_pair_items, spec_enc_list_items, spec_enc_triple_items, spec_enc_b32_items,
    lemma_dec_enc_u128, lemma_dec_enc_opt, lemma_dec_enc_u128_pairs, lemma_dec_enc_list_pairs,
    lemma_dec_enc_triples, lemma_dec_enc_b32_pairs, lemma_dec_enc_b32, lemma_dec_enc_bytes,
    lemma_dec_enc_u128_seq, spec_enc_u128_seq, spec_dec_u128_seq, le_byte,
};
use crate::Errors;
use crate::Host;

verus! {

/// Compare two 32-byte event codes.
pub fn bytes32_eq(a: &[u8; 32], b: &[u8; 32]) -> (r: bool)
    ensures
        r == (a@ == b@),
{
    let mut i: usize = 0;
    while i < 32
        invariant
            i <= 32,
            forall|j: int| 0 <= j < i ==> a@[j] == b@[j],
        decreases 32 - i,
    {
        if a[i] != b[i] {
            return false;
        }
        i += 1;
    }
    assert(a@ =~= b@);
    true
}

/// The factory handle of a flow: the hash of the data & scripts contract,
/// the selectors to call it with, and the contract account once one was
/// materialised.
pub struct Ifactory {
    data_hash: [u8; 32],
    address: Option<u128>,
    instantiate_selector: Vec<u8>,
    execute_script_selector: Vec<u8>,
    inst_log: Ghost<Seq<Seq<u8>>>,
}

impl Ifactory {
    pub closed spec fn hash(&self) -> Seq<u8> {
        self.data_hash@
    }

    pub closed spec fn addr(&self) -> Option<u128> {
        self.address
    }

    pub closed spec fn isel(&self) -> Seq<u8> {
        self.instantiate_selector@
    }

    pub closed spec fn ssel(&self) -> Seq<u8> {
        self.execute_script_selector@
    }

    /// The input bytes handed to the host for each instantiation, oldest
    /// first, kept in ghost state so that contracts can speak of them.
    pub closed spec fn inst_calls(&self) -> Seq<Seq<u8>> {
        self.inst_log@
    }

    /// The immutable part of two factories agrees.
    pub open spec fn same_setup(a: Ifactory, b: Ifactory) -> bool {
        a.hash() == b.hash() && a.isel() == b.isel() && a.ssel() == b.ssel()
    }

    /// Once an address is cached it never changes.
    pub open spec fn addr_monotone(a: Ifactory, b: Ifactory) -> bool {
        a.addr() is Some ==> b.addr() == a.addr()
    }

    pub fn new(data_hash: [u8; 32], instantiate_selector: Vec<u8>, execute_script_selector: Vec<u8>) -> (r: Self)
        ensures
            r.hash() == data_hash@,
            r.addr() is None,
            r.isel() == instantiate_selector@,
            r.ssel() == execute_script_selector@,
            r.inst_calls() == Seq::<Seq<u8>>::empty(),
    {
        Ifactory {
            data_hash,
            address: None,
            instantiate_selector,
            execute_script_selector,
            inst_log: Ghost(Seq::empty()),
        }
    }

    pub fn set_instantiate_selector(&mut self, instantiate_selector: Vec<u8>)
        ensures
            final(self).isel() == instantiate_selector@,
            final(self).hash() == old(self).hash(),
            final(self).addr() == old(self).addr(),
            final(self).ssel() == old(self).ssel(),
    {
        self.instantiate_selector = instantiate_selector;
    }

    pub fn get_address(&self) -> (r: Option<u128>)
        ensures
            r == self.addr(),
    {
        self.address
    }

    pub fn get_instantiate_selector(&self) -> (r: &Vec<u8>)
        ensures
            r@ == self.isel(),
    {
        &self.instantiate_selector
    }

    pub fn get_execute_script_selector(&self) -> (r: &Vec<u8>)
        ensures
            r@ == self.ssel(),
    {
        &self.execute_script_selector
    }

    /// Materialise (or reuse) the data-contract instance behind this
    /// factory. A cached address is returned as is; otherwise the host is
    /// asked to instantiate `data_hash`, handing it the instantiate
    /// selector followed by the 16 little-endian bytes of `flow_id`.
    pub fn new_instance<H: Host>(&mut self, host: &mut H, flow_id: u128) -> (r: Result<
        u128,
        Errors,
    >)
        ensures
            Self::same_setup(*old(self), *final(self)),
            Self::addr_monotone(*old(self), *final(self)),
            match r {
                Ok(c) => final(self).addr() == Some(c),
                Err(e) => e == Errors::InstantiationFailure && final(self).addr() is None && old(self).addr() is None,
            },
            old(self).addr() matches Some(a) ==> r == Ok::<u128, Errors>(a) && *final(self) == *old(self),
            old(self).addr() is None ==> final(self).inst_calls() == old(self).inst_calls().push(
                old(self).isel() + spec_enc_u128(flow_id),
            ),
            old(self).addr() is Some ==> final(self).inst_calls() == old(self).inst_calls(),
    {
        match self.address {
            Some(address) => Ok(address),
            None => {
                let mut input_data: Vec<u8> = Vec::new();
                let mut i: usize = 0;
                while i < self.instantiate_selector.len()
                    invariant
                        i <= self.instantiate_selector@.len(),
                        input_data@ == self.instantiate_selector@.subrange(0, i as int),
                    decreases self.instantiate_selector@.len() - i,
                {
                    input_data.push(self.instantiate_selector[i]);
                    i += 1;
                }
                proof {
                    assert(input_data@ =~= self.instantiate_selector@);
                }
                let id_bytes = u128_to_le_bytes(flow_id);
                let ghost sel_part = input_data@;
                let mut j: usize = 0;
                while j < id_bytes.len()
                    invariant
                        j <= id_bytes@.len(),
                        id_bytes@.len() == 16,
                        forall|x: int| 0 <= x < 16 ==> id_bytes@[x] == le_byte(flow_id, x),
                        input_data@ == sel_part + id_bytes@.subrange(0, j as int),
                    decreases id_bytes@.len() - j,
                {
                    input_data.push(id_bytes[j]);
                    proof {
                        assert(input_data@ =~= sel_part + id_bytes@.subrange(0, j + 1));
                    }
                    j += 1;
                }
                proof {
                    assert(id_bytes@.subrange(0, 16) =~= id_bytes@);
                    assert(id_bytes@ =~= spec_enc_u128(flow_id));
                    assert(input_data@ =~= self.instantiate_selector@ + spec_enc_u128(flow_id));
                }
                self.inst_log = Ghost(self.inst_log@.push(input_data@));
                match host.instantiate(self.data_hash, input_data) {
                    Some(contract) => {
                        self.address = Some(contract);
                        Ok(contract)
                    },
                    None => Err(Errors::InstantiationFailure),
                }
            },
        }
    }
}

impl Default for Ifactory {
    fn default() -> (r: Self)
        ensures
            r.hash() == Seq::new(32, |i: int| 0u8),
            r.addr() is None,
            r.isel() == Seq::<u8>::empty(),
            r.ssel() == Seq::<u8>::empty(),
    {
        let r = Ifactory {
            data_hash: [0u8; 32],
            address: None,
            instantiate_selector: Vec::new(),
            execute_script_selector: Vec::new(),
            inst_log: Ghost(Seq::empty()),
        };
        proof {
            assert(r.data_hash@ =~= Seq::new(32, |i: int| 0u8));
        }
        r
    }
}

/// The static model of one sub-process.
pub struct Iflow {
    start_evt: u128,
    /// element index -> (pre condition, post condition, type info)
    cond_table: KeyTable<(u128, u128, u128)>,
    /// element index -> elements that may become enabled when it completes
    next_elem: KeyTable<Vec<u128>>,
    /// indexes of the sub-process elements
    subprocesses: Vec<u128>,
    /// indexes of the event elements; event-sub-process start events must
    /// appear before boundary events (catching takes the first match)
    events: Vec<u128>,
    /// event index -> index of the element the event is attached to
    attached_to: KeyTable<u128>,
    /// event index -> 32-byte code identifying the event
    event_code: KeyTable<[u8; 32]>,
    /// sub-process index -> flow id of the child sub-process
    parent_references: KeyTable<u128>,
    /// sub-process index -> configured instance count (also read as a
    /// packed flag field by the event handlers)
    instance_count: KeyTable<u128>,
    factory: Ifactory,
}

impl Iflow {
    pub closed spec fn start_event(&self) -> u128 {
        self.start_evt
    }

    pub closed spec fn cond_map(&self) -> Map<u128, (u128, u128, u128)> {
        self.cond_table@
    }

    pub closed spec fn next_map(&self) -> Map<u128, Seq<u128>> {
        Map::new(|k: u128| self.next_elem@.contains_key(k), |k: u128| self.next_elem@[k]@)
    }

    pub closed spec fn subs(&self) -> Seq<u128> {
        self.subprocesses@
    }

    pub closed spec fn events_list(&self) -> Seq<u128> {
        self.events@
    }

    pub closed spec fn attached_map(&self) -> Map<u128, u128> {
        self.attached_to@
    }

    pub closed spec fn codes_map(&self) -> Map<u128, Seq<u8>> {
        Map::new(|k: u128| self.event_code@.contains_key(k), |k: u128| self.event_code@[k]@)
    }

    pub closed spec fn refs_map(&self) -> Map<u128, u128> {
        self.parent_references@
    }

    pub closed spec fn counts_map(&self) -> Map<u128, u128> {
        self.instance_count@
    }

    pub closed spec fn factory_of(&self) -> Ifactory {
        self.factory
    }

    pub open spec fn pre_of(&self, e: u128) -> u128 {
        if self.cond_map().contains_key(e) {
            self.cond_map()[e].0
        } else {
            0
        }
    }

    pub open spec fn post_of(&self, e: u128) -> u128 {
        if self.cond_map().contains_key(e) {
            self.cond_map()[e].1
        } else {
            0
        }
    }

    pub open spec fn type_of(&self, e: u128) -> u128 {
        if self.cond_map().contains_key(e) {
            self.cond_map()[e].2
        } else {
            0
        }
    }

    pub open spec fn next_of(&self, e: u128) -> Seq<u128> {
        if self.next_map().contains_key(e) {
            self.next_map()[e]
        } else {
            Seq::empty()
        }
    }

    pub open spec fn attached_of(&self, e: u128) -> u128 {
        if self.attached_map().contains_key(e) {
            self.attached_map()[e]
        } else {
            0
        }
    }

    pub open spec fn code_of(&self, e: u128) -> Seq<u8> {
        if self.codes_map().contains_key(e) {
            self.codes_map()[e]
        } else {
            Seq::new(32, |i: int| 0u8)
        }
    }

    pub open spec fn count_of(&self, e: u128) -> u128 {
        if self.counts_map().contains_key(e) {
            self.counts_map()[e]
        } else {
            0
        }
    }

    /// Keys are unique in every table.
    pub closed spec fn tables_wf(&self) -> bool {
        &&& self.cond_table.wf()
        &&& self.next_elem.wf()
        &&& self.attached_to.wf()
        &&& self.event_code.wf()
        &&& self.parent_references.wf()
        &&& self.instance_count.wf()
    }

    /// Element indexes stay below 128 so that they can address marking
    /// bits; keys are unique in every table.
    pub open spec fn wf(&self) -> bool {
        &&& self.tables_wf()
        &&& self.start_event() < 128
        &&& forall|k: u128| self.cond_map().contains_key(k) ==> k < 128
        &&& forall|i: int| 0 <= i < self.events_list().len() ==> self.events_list()[i] < 128
        &&& forall|i: int| 0 <= i < self.subs().len() ==> self.subs()[i] < 128
        &&& forall|k: u128| self.attached_map().contains_key(k) ==> self.attached_map()[k] < 128
        &&& forall|k: u128| self.refs_map().contains_key(k) ==> k < 128
    }

    /// Well-formedness carries over to a flow whose graph agrees.
    pub proof fn lemma_wf_preserved(a: Iflow, b: Iflow)
        requires
            a.wf(),
            b.tables_wf(),
            b.start_event() == a.start_event(),
            b.cond_map() == a.cond_map(),
            b.events_list() == a.events_list(),
            b.subs() == a.subs(),
            b.attached_map() == a.attached_map(),
            b.refs_map() == a.refs_map(),
        ensures
            b.wf(),
    {
        assert forall|k: u128| b.refs_map().contains_key(k) implies k < 128 by {
            assert(a.refs_map().contains_key(k));
        }
        assert forall|k: u128| b.cond_map().contains_key(k) implies k < 128 by {
            assert(a.cond_map().contains_key(k));
        }
        assert forall|i: int| 0 <= i < b.events_list().len() implies b.events_list()[i] < 128 by {
            assert(b.events_list()[i] == a.events_list()[i]);
        }
        assert forall|i: int| 0 <= i < b.subs().len() implies b.subs()[i] < 128 by {
            assert(b.subs()[i] == a.subs()[i]);
        }
        assert forall|k: u128| b.attached_map().contains_key(k) implies b.attached_map()[k]
            < 128 by {
            assert(a.attached_map().contains_key(k));
            assert(a.attached_map()[k] < 128);
        }
    }

    /// The start event has no adjacent element: seeding an instance of
    /// this flow sets its marking and immediately returns.
    pub open spec fn start_inert(&self) -> bool {
        self.next_of(self.start_event()).len() == 0
    }

    /// Every AND join consumes at least one edge. A join with an empty
    /// pre-set would fire out of nothing; the upstream diagram compiler
    /// never produces one.
    pub open spec fn joins_safe(&self) -> bool {
        forall|e: u128|
            #[trigger] self.cond_map().contains_key(e) && self.cond_map()[e].2 & 42 == 42
                ==> self.cond_map()[e].0 != 0
    }

    /// Everything but the factory's cached address agrees between `a` and
    /// `b`: execution never rewires a flow.
    pub open spec fn same_graph(a: Iflow, b: Iflow) -> bool {
        &&& a.start_event() == b.start_event()
        &&& a.cond_map() == b.cond_map()
        &&& a.next_map() == b.next_map()
        &&& a.subs() == b.subs()
        &&& a.events_list() == b.events_list()
        &&& a.attached_map() == b.attached_map()
        &&& a.codes_map() == b.codes_map()
        &&& a.refs_map() == b.refs_map()
        &&& a.counts_map() == b.counts_map()
        &&& Ifactory::same_setup(a.factory_of(), b.factory_of())
    }

    pub fn new() -> (r: Self)
        ensures
            r.wf(),
            r.start_event() == 0,
            r.cond_map() =~= Map::<u128, (u128, u128, u128)>::empty(),
            r.next_map() =~= Map::<u128, Seq<u128>>::empty(),
            r.subs() == Seq::<u128>::empty(),
            r.events_list() == Seq::<u128>::empty(),
            r.attached_map() =~= Map::<u128, u128>::empty(),
            r.codes_map() =~= Map::<u128, Seq<u8>>::empty(),
            r.refs_map() =~= Map::<u128, u128>::empty(),
            r.counts_map() =~= Map::<u128, u128>::empty(),
            r.factory_of().addr() is None,
    {
        Iflow {
            start_evt: 0,
            cond_table: KeyTable::new(),
            next_elem: KeyTable::new(),
            subprocesses: Vec::new(),
            events: Vec::new(),
            attached_to: KeyTable::new(),
            event_code: KeyTable::new(),
            parent_references: KeyTable::new(),
            instance_count: KeyTable::new(),
            factory: Ifactory::default(),
        }
    }

    pub fn get_pre_condition(&self, element_index: u128) -> (r: u128)
        requires
            self.wf(),
        ensures
            r == self.pre_of(element_index),
    {
        match self.cond_table.get(element_index) {
            Some(cond) => cond.0,
            None => 0,
        }
    }

    pub fn get_post_condition(&self, element_index: u128) -> (r: u128)
        requires
            self.wf(),
        ensures
            r == self.post_of(element_index),
    {
        match self.cond_table.get(element_index) {
            Some(cond) => cond.1,
            None => 0,
        }
    }

    pub fn get_type_info(&self, element_index: u128) -> (r: u128)
        requires
            self.wf(),
        ensures
            r == self.type_of(element_index),
    {
        match self.cond_table.get(element_index) {
            Some(cond) => cond.2,
            None => 0,
        }
    }

    /// The condition triple and adjacency of one element; zeroes and an
    /// empty list when the element was never set.
    pub fn get_element_info(&self, element_index: u128) -> (r: ((u128, u128, u128), Vec<u128>))
        requires
            self.wf(),
        ensures
            r.0.0 == self.pre_of(element_index),
            r.0.1 == self.post_of(element_index),
            r.0.2 == self.type_of(element_index),
            r.1@ == self.next_of(element_index),
    {
        let cond = match self.cond_table.get(element_index) {
            Some(cond) => *cond,
            None => (0, 0, 0),
        };
        let next = match self.next_elem.get(element_index) {
            Some(list) => copy_u128s(list),
            None => Vec::new(),
        };
        (cond, next)
    }

    pub fn get_first_elem(&self) -> (r: u128)
        ensures
            r == self.start_event(),
    {
        self.start_evt
    }

    pub fn get_ady_elements(&self, element_index: u128) -> (r: Vec<u128>)
        requires
            self.wf(),
        ensures
            r@ == self.next_of(element_index),
    {
        match self.next_elem.get(element_index) {
            Some(list) => copy_u128s(list),
            None => Vec::new(),
        }
    }

    /// The first adjacent element, if the element has any.
    pub fn get_first_ady_element(&self, element_index: u128) -> (r: Option<u128>)
        requires
            self.wf(),
        ensures
            self.next_of(element_index).len() == 0 ==> r is None,
            self.next_of(element_index).len() > 0 ==> r == Some(self.next_of(element_index)[0]),
    {
        match self.next_elem.get(element_index) {
            Some(list) => {
                if list.len() > 0 {
                    Some(list[0])
                } else {
                    None
                }
            },
            None => None,
        }
    }

    pub fn get_attached_to(&self, element_index: u128) -> (r: u128)
        requires
            self.wf(),
        ensures
            r == self.attached_of(element_index),
    {
        match self.attached_to.get(element_index) {
            Some(host_elem) => *host_elem,
            None => 0,
        }
    }

    /// The child flow linked behind a sub-process element, if any.
    pub fn get_sub_process_instance(&self, element_index: u128) -> (r: Option<u128>)
        requires
            self.wf(),
        ensures
            self.refs_map().contains_key(element_index) ==> r == Some(self.refs_map()[element_index]),
            !self.refs_map().contains_key(element_index) ==> r is None,
    {
        match self.parent_references.get(element_index) {
            Some(child) => Some(*child),
            None => None,
        }
    }

    pub fn get_sub_process_list(&self) -> (r: Vec<u128>)
        ensures
            r@ == self.subs(),
    {
        copy_u128s(&self.subprocesses)
    }

    pub fn get_event_code(&self, element_index: u128) -> (r: [u8; 32])
        requires
            self.wf(),
        ensures
            r@ == self.code_of(element_index),
    {
        match self.event_code.get(element_index) {
            Some(code) => *code,
            None => {
                let zero = [0u8; 32];
                proof {
                    assert(zero@ =~= Seq::new(32, |i: int| 0u8));
                }
                zero
            },
        }
    }

    pub fn get_event_list(&self) -> (r: Vec<u128>)
        ensures
            r@ == self.events_list(),
    {
        copy_u128s(&self.events)
    }

    pub fn get_instance_count(&self, element_index: u128) -> (r: u128)
        requires
            self.wf(),
        ensures
            r == self.count_of(element_index),
    {
        match self.instance_count.get(element_index) {
            Some(c) => *c,
            None => 0,
        }
    }

    pub fn get_factory_instance(&self) -> (r: &Ifactory)
        ensures
            *r == self.factory_of(),
    {
        &self.factory
    }

    pub fn set_factory_instance(&mut self, factory: Ifactory)
        ensures
            final(self).factory_of() == factory,
            final(self).start_event() == old(self).start_event(),
            final(self).cond_map() == old(self).cond_map(),
            final(self).next_map() == old(self).next_map(),
            final(self).subs() == old(self).subs(),
            final(self).events_list() == old(self).events_list(),
            final(self).attached_map() == old(self).attached_map(),
            final(self).codes_map() == old(self).codes_map(),
            final(self).refs_map() == old(self).refs_map(),
            final(self).counts_map() == old(self).counts_map(),
            old(self).wf() ==> final(self).wf(),
    {
        self.factory = factory;
        proof {
            if old(self).wf() {
                Self::lemma_wf_preserved(*old(self), *self);
            }
        }
    }

    /// Materialise the factory's data contract for this flow (see
    /// `Ifactory::new_instance`).
    pub fn new_factory_instance<H: Host>(&mut self, host: &mut H, flow_id: u128) -> (r: Result<
        u128,
        Errors,
    >)
        ensures
            Self::same_graph(*old(self), *final(self)),
            Ifactory::addr_monotone(old(self).factory_of(), final(self).factory_of()),
            old(self).wf() ==> final(self).wf(),
            match r {
                Ok(c) => final(self).factory_of().addr() == Some(c),
                Err(e) => e == Errors::InstantiationFailure && final(self).factory_of().addr() is None && old(self).factory_of().addr() is None,
            },
            old(self).factory_of().addr() matches Some(a) ==> r == Ok::<u128, Errors>(a) && *final(self) == *old(self),
            old(self).factory_of().addr() is None ==> final(self).factory_of().inst_calls() == old(self).factory_of().inst_calls().push(
                old(self).factory_of().isel() + spec_enc_u128(flow_id),
            ),
    {
        let r = self.factory.new_instance(host, flow_id);
        proof {
            if old(self).wf() {
                Self::lemma_wf_preserved(*old(self), *self);
            }
        }
        r
    }

    /// The success-path transformation of `set_element`: how each part of
    /// the flow relates to its previous value.
    pub open spec fn set_element_rel(
        pre: Iflow,
        post: Iflow,
        element_index: u128,
        pre_condition: u128,
        post_condition: u128,
        type_info: u128,
        event_code: [u8; 32],
        next: Seq<u128>,
    ) -> bool {
        let fresh = pre.type_of(element_index) == 0;
        &&& post.cond_map() == pre.cond_map().insert(
            element_index,
            (pre_condition, post_condition, type_info),
        )
        &&& post.next_map() == pre.next_map().insert(element_index, next)
        &&& post.events_list() == if fresh && type_info & 4 == 4 {
            pre.events_list().push(element_index)
        } else {
            pre.events_list()
        }
        &&& post.codes_map() == if fresh && type_info & 4 == 4 {
            pre.codes_map().insert(element_index, event_code@)
        } else {
            pre.codes_map()
        }
        &&& post.start_event() == if fresh && type_info & 36 == 36 {
            element_index
        } else {
            pre.start_event()
        }
        &&& post.subs() == if fresh && type_info & 4 != 4 && type_info & 33 == 33 {
            pre.subs().push(element_index)
        } else {
            pre.subs()
        }
        &&& post.attached_map() == pre.attached_map()
        &&& post.refs_map() == pre.refs_map()
        &&& post.counts_map() == pre.counts_map()
        &&& post.factory_of() == pre.factory_of()
    }

    /// Register or re-register one element. A fresh element (stored
    /// `type_info` zero) is classified: events join the event list and get
    /// their code recorded, a start event becomes the flow's start,
    /// sub-process activities join the sub-process list. Re-registering is
    /// allowed only with the stored `type_info`; the condition triple and
    /// adjacency are then overwritten in place.
    pub fn set_element(
        &mut self,
        element_index: u128,
        pre_condition: u128,
        post_condition: u128,
        type_info: u128,
        event_code: [u8; 32],
        next_elem: Vec<u128>,
    ) -> (r: Result<(), Errors>)
        requires
            old(self).wf(),
            element_index < 128,
        ensures
            final(self).wf(),
            r == Ok::<(), Errors>(()) <==> (old(self).type_of(element_index) == 0 || old(self).type_of(element_index) == type_info),
            match r {
                Ok(()) => Self::set_element_rel(
                    *old(self),
                    *final(self),
                    element_index,
                    pre_condition,
                    post_condition,
                    type_info,
                    event_code,
                    next_elem@,
                ),
                Err(e) => e == Errors::TypeMismatch && *final(self) == *old(self),
            },
    {
        proof {
            assert(type_info & 36 == 36 ==> type_info & 4 == 4) by (bit_vector);
        }
        let stored = self.get_type_info(element_index);
        if stored == 0 {
            if type_info & 4 == 4 {
                self.events.push(element_index);
                if type_info & 36 == 36 {
                    self.start_evt = element_index;
                }
                self.event_code.insert(element_index, event_code);
            } else if type_info & 33 == 33 {
                self.subprocesses.push(element_index);
            }
        } else if type_info != stored {
            return Err(Errors::TypeMismatch);
        }
        self.cond_table.insert(element_index, (pre_condition, post_condition, type_info));
        self.next_elem.insert(element_index, next_elem);
        proof {
            assert(self.next_map() =~= old(self).next_map().insert(element_index, next_elem@));
            assert(self.codes_map() =~= if old(self).type_of(element_index) == 0 && type_info & 4
                == 4 {
                old(self).codes_map().insert(element_index, event_code@)
            } else {
                old(self).codes_map()
            });
            assert(self.tables_wf());
            assert forall|k: u128| self.cond_map().contains_key(k) implies k < 128 by {
                if k != element_index {
                    assert(old(self).cond_map().contains_key(k));
                }
            }
            assert forall|i: int| 0 <= i < self.events_list().len() implies self.events_list()[i]
                < 128 by {
                if i < old(self).events_list().len() {
                    assert(self.events_list()[i] == old(self).events_list()[i]);
                } else {
                    assert(self.events_list()[i] == element_index);
                }
            }
            assert forall|i: int| 0 <= i < self.subs().len() implies self.subs()[i] < 128 by {
                if i < old(self).subs().len() {
                    assert(self.subs()[i] == old(self).subs()[i]);
                } else {
                    assert(self.subs()[i] == element_index);
                }
            }
            assert forall|k: u128| self.attached_map().contains_key(k)
                implies self.attached_map()[k] < 128 by {
                assert(old(self).attached_map().contains_key(k));
                assert(old(self).attached_map()[k] < 128);
            }
            assert forall|k: u128| self.refs_map().contains_key(k) implies k < 128 by {
                assert(old(self).refs_map().contains_key(k));
            }
            assert(self.wf());
        }
        Ok(())
    }

    /// `attached` with every event in `evs` attached to `parent`.
    pub open spec fn link_attached(attached: Map<u128, u128>, evs: Seq<u128>, parent: u128) -> Map<
        u128,
        u128,
    >
        decreases evs.len(),
    {
        if evs.len() == 0 {
            attached
        } else {
            Self::link_attached(attached, evs.drop_last(), parent).insert(evs.last(), parent)
        }
    }

    /// Wire a sub-process element to the flow it instantiates, attach its
    /// events, and record its configured instance count. Fails when the
    /// element is not a registered sub-process activity. An attachment is
    /// recorded only when the host element's own `type_info` carries the
    /// event bit; the guard reads the host's type, not the attached
    /// event's.
    pub fn link_sub_process(
        &mut self,
        parent_index: u128,
        child_flow_inst: u128,
        attached_events: Vec<u128>,
        count_instances: u128,
    ) -> (r: Result<(), Errors>)
        requires
            old(self).wf(),
        ensures
            final(self).wf(),
            r == Ok::<(), Errors>(()) <==> old(self).type_of(parent_index) & 33 == 33,
            match r {
                Ok(()) => {
                    &&& final(self).refs_map() == old(self).refs_map().insert(
                        parent_index,
                        child_flow_inst,
                    )
                    &&& final(self).counts_map() == old(self).counts_map().insert(
                        parent_index,
                        count_instances,
                    )
                    &&& final(self).attached_map() == if old(self).type_of(parent_index) & 4 == 4 {
                        Self::link_attached(
                            old(self).attached_map(),
                            attached_events@,
                            parent_index,
                        )
                    } else {
                        old(self).attached_map()
                    }
                    &&& final(self).start_event() == old(self).start_event()
                    &&& final(self).cond_map() == old(self).cond_map()
                    &&& final(self).next_map() == old(self).next_map()
                    &&& final(self).subs() == old(self).subs()
                    &&& final(self).events_list() == old(self).events_list()
                    &&& final(self).codes_map() == old(self).codes_map()
                    &&& final(self).factory_of() == old(self).factory_of()
                },
                Err(e) => e == Errors::SubprocessToLinkNotFound && *final(self) == *old(self),
            },
    {
        let ti = self.get_type_info(parent_index);
        if ti & 33 != 33 {
            return Err(Errors::SubprocessToLinkNotFound);
        }
        assert(ti != 0) by {
            assert(0u128 & 33 != 33) by (bit_vector);
        }
        assert(parent_index < 128);
        self.parent_references.insert(parent_index, child_flow_inst);
        proof {
            assert(self.tables_wf());
            assert forall|k: u128| self.refs_map().contains_key(k) implies k < 128 by {
                if k != parent_index {
                    assert(old(self).refs_map().contains_key(k));
                }
            }
            assert forall|k: u128| self.cond_map().contains_key(k) implies k < 128 by {
                assert(old(self).cond_map().contains_key(k));
            }
            assert forall|k: u128| self.attached_map().contains_key(k)
                implies self.attached_map()[k] < 128 by {
                assert(old(self).attached_map().contains_key(k));
                assert(old(self).attached_map()[k] < 128);
            }
            assert forall|i: int| 0 <= i < self.events_list().len() implies self.events_list()[i]
                < 128 by {
                assert(self.events_list()[i] == old(self).events_list()[i]);
            }
            assert forall|i: int| 0 <= i < self.subs().len() implies self.subs()[i] < 128 by {
                assert(self.subs()[i] == old(self).subs()[i]);
            }
            assert(self.wf());
        }
        let ghost mid = *self;
        let mut i: usize = 0;
        while i < attached_events.len()
            invariant
                i <= attached_events@.len(),
                self.wf(),
                self.type_of(parent_index) == ti,
                parent_index < 128,
                ti & 33 == 33,
                self.attached_map() == if ti & 4 == 4 {
                    Self::link_attached(
                        mid.attached_map(),
                        attached_events@.subrange(0, i as int),
                        parent_index,
                    )
                } else {
                    mid.attached_map()
                },
                self.start_event() == mid.start_event(),
                self.cond_map() == mid.cond_map(),
                self.next_map() == mid.next_map(),
                self.subs() == mid.subs(),
                self.events_list() == mid.events_list(),
                self.codes_map() == mid.codes_map(),
                self.refs_map() == mid.refs_map(),
                self.counts_map() == mid.counts_map(),
                self.factory_of() == mid.factory_of(),
            decreases attached_events@.len() - i,
        {
            let ghost prefix = attached_events@.subrange(0, i as int);
            let ghost before = *self;
            if self.get_type_info(parent_index) & 4 == 4 {
                self.attached_to.insert(attached_events[i], parent_index);
                proof {
                    assert(self.tables_wf());
                    assert forall|k: u128| self.attached_map().contains_key(k)
                        implies self.attached_map()[k] < 128 by {
                        if k != attached_events@[i as int] {
                            assert(before.attached_map().contains_key(k));
                            assert(before.attached_map()[k] < 128);
                        }
                    }
                    assert forall|k: u128| self.cond_map().contains_key(k) implies k < 128 by {
                        assert(before.cond_map().contains_key(k));
                    }
                    assert forall|k: u128| self.refs_map().contains_key(k) implies k < 128 by {
                        assert(before.refs_map().contains_key(k));
                    }
                    assert forall|j: int| 0 <= j < self.events_list().len()
                        implies self.events_list()[j] < 128 by {
                        assert(self.events_list()[j] == before.events_list()[j]);
                    }
                    assert forall|j: int| 0 <= j < self.subs().len() implies self.subs()[j]
                        < 128 by {
                        assert(self.subs()[j] == before.subs()[j]);
                    }
                    assert(self.wf());
                }
            }
            proof {
                let longer = attached_events@.subrange(0, i + 1);
                assert(longer.drop_last() =~= prefix);
                assert(longer.last() == attached_events@[i as int]);
            }
            i += 1;
        }
        proof {
            assert(attached_events@.subrange(0, attached_events@.len() as int)
                =~= attached_events@);
        }
        self.instance_count.insert(parent_index, count_instances);
        Ok(())
    }

    /// An event that catches `code` thrown by the sub-process at
    /// `sub_index`: its code matches and it is either an event-sub-process
    /// start event or a boundary event attached to that sub-process.
    pub open spec fn is_catch(&self, code: Seq<u8>, sub_index: u128, e: u128) -> bool {
        &&& self.code_of(e) == code
        &&& (self.type_of(e) & 6 == 6 || (self.type_of(e) & 256 == 256 && self.attached_of(e)
            == sub_index))
    }

    /// The first catching event in the event list at or after position `i`.
    pub open spec fn catch_choice_from(&self, code: Seq<u8>, sub_index: u128, i: int) -> Option<
        u128,
    >
        decreases self.events_list().len() - i,
    {
        if i < 0 || i >= self.events_list().len() {
            None
        } else if self.is_catch(code, sub_index, self.events_list()[i]) {
            Some(self.events_list()[i])
        } else {
            self.catch_choice_from(code, sub_index, i + 1)
        }
    }

    /// The event that catches `code`, determined by event-list order.
    pub open spec fn catch_choice(&self, code: Seq<u8>, sub_index: u128) -> Option<u128> {
        self.catch_choice_from(code, sub_index, 0)
    }

    /// An event-sub-process start event whose code matches.
    pub open spec fn is_esp_catch(&self, code: Seq<u8>, e: u128) -> bool {
        self.code_of(e) == code && self.type_of(e) & 6 == 6
    }

    /// Event-sub-process start events precede every boundary event in the
    /// event list: the ordering `try_catch_event` relies on.
    pub open spec fn events_ordered(&self) -> bool {
        forall|i: int, j: int|
            0 <= i < self.events_list().len() && 0 <= j < self.events_list().len()
                && self.type_of(#[trigger] self.events_list()[i]) & 6 == 6 && self.type_of(
                #[trigger] self.events_list()[j],
            ) & 6 != 6 && self.type_of(self.events_list()[j]) & 256 == 256 ==> i < j
    }

    proof fn lemma_catch_priority_from(&self, code: Seq<u8>, sub_index: u128, i: int)
        requires
            0 <= i,
            exists|j: int|
                i <= j < self.events_list().len() && self.is_esp_catch(
                    code,
                    #[trigger] self.events_list()[j],
                ),
            self.events_ordered(),
        ensures
            self.catch_choice_from(code, sub_index, i) matches Some(e) && self.type_of(e) & 6 == 6,
        decreases self.events_list().len() - i,
    {
        let j = choose|j: int|
            i <= j < self.events_list().len() && self.is_esp_catch(
                code,
                #[trigger] self.events_list()[j],
            );
        assert(i < self.events_list().len());
        let e = self.events_list()[i];
        if self.is_catch(code, sub_index, e) {
            if self.type_of(e) & 6 == 6 {
            } else {
                // a boundary event before a matching event-sub-process
                // start would contradict the list ordering
                assert(self.type_of(e) & 256 == 256);
                assert(self.type_of(self.events_list()[j]) & 6 == 6);
                assert(j < i);
                assert(false);
            }
        } else {
            assert(j != i);
            self.lemma_catch_priority_from(code, sub_index, i + 1);
        }
    }

    /// Catch priority is decided by event-list order: with the list
    /// ordered as required (event-sub-process starts first) and a matching
    /// event-sub-process start present, the catch choice is always an
    /// event-sub-process start, never a boundary event bearing the same
    /// code.
    pub proof fn lemma_catch_priority(&self, code: Seq<u8>, sub_index: u128)
        requires
            exists|j: int|
                0 <= j < self.events_list().len() && self.is_esp_catch(
                    code,
                    #[trigger] self.events_list()[j],
                ),
            self.events_ordered(),
        ensures
            self.catch_choice(code, sub_index) matches Some(e) && self.type_of(e) & 6 == 6,
    {
        self.lemma_catch_priority_from(code, sub_index, 0);
    }

    /// Registering the same element twice with identical arguments leaves
    /// the flow exactly as the first registration did: `set_element` is
    /// idempotent for identical inputs (and a differing `type_info` is
    /// rejected outright, per its contract).
    pub proof fn lemma_set_element_idempotent(
        f0: Iflow,
        f1: Iflow,
        f2: Iflow,
        element_index: u128,
        pre_condition: u128,
        post_condition: u128,
        type_info: u128,
        event_code: [u8; 32],
        next: Seq<u128>,
    )
        requires
            Iflow::set_element_rel(
                f0,
                f1,
                element_index,
                pre_condition,
                post_condition,
                type_info,
                event_code,
                next,
            ),
            Iflow::set_element_rel(
                f1,
                f2,
                element_index,
                pre_condition,
                post_condition,
                type_info,
                event_code,
                next,
            ),
        ensures
            f2.start_event() == f1.start_event(),
            f2.cond_map() == f1.cond_map(),
            f2.next_map() == f1.next_map(),
            f2.subs() == f1.subs(),
            f2.events_list() == f1.events_list(),
            f2.attached_map() == f1.attached_map(),
            f2.codes_map() == f1.codes_map(),
            f2.refs_map() == f1.refs_map(),
            f2.counts_map() == f1.counts_map(),
            f2.factory_of() == f1.factory_of(),
    {
        assert(f1.cond_map().contains_key(element_index));
        assert(f1.type_of(element_index) == type_info);
        assert(f2.cond_map() =~= f1.cond_map());
        assert(f2.next_map() =~= f1.next_map());
        if type_info == 0 {
            assert(0u128 & 4 != 4 && 0u128 & 33 != 33 && 0u128 & 36 != 36) by (bit_vector);
        }
        assert(f2.codes_map() =~= f1.codes_map());
    }

    /// The flow's abstract content, as its wire format carries it.
    pub closed spec fn model(&self) -> IflowModel {
        IflowModel {
            start: self.start_evt,
            cond: self.cond_table.entries_seq(),
            next: self.next_elem.entries_seq().map_values(|p: (u128, Vec<u128>)| (p.0, p.1@)),
            subs: self.subprocesses@,
            events: self.events@,
            attached: self.attached_to.entries_seq(),
            codes: self.event_code.entries_seq().map_values(|p: (u128, [u8; 32])| (p.0, p.1@)),
            refs: self.parent_references.entries_seq(),
            counts: self.instance_count.entries_seq(),
            fhash: self.factory.hash(),
            faddr: self.factory.addr(),
            fisel: self.factory.isel(),
            fssel: self.factory.ssel(),
        }
    }

    /// A well-formed flow's model is valid for the wire format.
    pub proof fn lemma_model_valid(&self)
        requires
            self.wf(),
        ensures
            self.model().valid(),
    {
        let m = self.model();
        self.cond_table.lemma_len_bounded();
        self.next_elem.lemma_len_bounded();
        self.attached_to.lemma_len_bounded();
        self.event_code.lemma_len_bounded();
        self.parent_references.lemma_len_bounded();
        self.instance_count.lemma_len_bounded();
        vstd::std_specs::vec::axiom_spec_len(&self.subprocesses);
        vstd::std_specs::vec::axiom_spec_len(&self.events);
        vstd::std_specs::vec::axiom_spec_len(&self.factory.instantiate_selector);
        vstd::std_specs::vec::axiom_spec_len(&self.factory.execute_script_selector);
        assert forall|i: int| 0 <= i < m.cond.len() implies (#[trigger] m.cond[i]).0 < 128 by {
            self.cond_table.lemma_entry_view(i);
            assert(self.cond_map().contains_key(m.cond[i].0));
        }
        assert forall|i: int| 0 <= i < m.attached.len() implies (#[trigger] m.attached[i]).1
            < 128 by {
            self.attached_to.lemma_entry_view(i);
            assert(self.attached_map().contains_key(m.attached[i].0));
            assert(self.attached_map()[m.attached[i].0] == m.attached[i].1);
        }
        assert forall|i: int| 0 <= i < m.refs.len() implies (#[trigger] m.refs[i]).0 < 128 by {
            self.parent_references.lemma_entry_view(i);
            assert(self.refs_map().contains_key(m.refs[i].0));
        }
        assert forall|i: int, j: int| 0 <= i < j < m.next.len() implies (#[trigger] m.next[i]).0
            != (#[trigger] m.next[j]).0 by {
            assert(self.next_elem.entries_seq()[i].0 != self.next_elem.entries_seq()[j].0);
        }
        assert forall|i: int, j: int| 0 <= i < j < m.codes.len() implies (#[trigger] m.codes[i]).0
            != (#[trigger] m.codes[j]).0 by {
            assert(self.event_code.entries_seq()[i].0 != self.event_code.entries_seq()[j].0);
        }
        assert forall|i: int| 0 <= i < m.next.len() implies (#[trigger] m.next[i]).1.len()
            <= u64::MAX by {
            let v = self.next_elem.entries_seq()[i].1;
            vstd::std_specs::vec::axiom_spec_len(&v);
            assert(m.next[i].1 == v@);
        }
        assert forall|i: int| 0 <= i < m.codes.len() implies (#[trigger] m.codes[i]).1.len()
            == 32 by {
            let v = self.event_code.entries_seq()[i].1;
            assert(m.codes[i].1 == v@);
        }
        assert forall|i: int| 0 <= i < m.subs.len() implies m.subs[i] < 128 by {
            assert(self.subs()[i] < 128);
        }
        assert forall|i: int| 0 <= i < m.events.len() implies m.events[i] < 128 by {
            assert(self.events_list()[i] < 128);
        }
        assert forall|i: int, j: int| 0 <= i < j < m.cond.len() implies (#[trigger] m.cond[i]).0
            != (#[trigger] m.cond[j]).0 by {
            assert(self.cond_table.entries_seq()[i].0 != self.cond_table.entries_seq()[j].0);
        }
        assert forall|i: int, j: int| 0 <= i < j < m.attached.len() implies (
        #[trigger] m.attached[i]).0 != (#[trigger] m.attached[j]).0 by {
            assert(self.attached_to.entries_seq()[i].0 != self.attached_to.entries_seq()[j].0);
        }
        assert forall|i: int, j: int| 0 <= i < j < m.refs.len() implies (#[trigger] m.refs[i]).0
            != (#[trigger] m.refs[j]).0 by {
            assert(self.parent_references.entries_seq()[i].0
                != self.parent_references.entries_seq()[j].0);
        }
        assert forall|i: int, j: int| 0 <= i < j < m.counts.len() implies (
        #[trigger] m.counts[i]).0 != (#[trigger] m.counts[j]).0 by {
            assert(self.instance_count.entries_seq()[i].0 != self.instance_count.entries_seq()[j].0);
        }
    }

    /// Serialise the flow definition.
    #[verifier::rlimit(100)]
    pub fn encode_iflow(&self) -> (r: Vec<u8>)
        ensures
            r@ == spec_enc_iflow(self.model()),
    {
        let ghost m = self.model();
        let mut out: Vec<u8> = Vec::new();
        enc_u128_into(&mut out, self.start_evt);
        enc_triple_table_into(&mut out, &self.cond_table);
        enc_list_table_into(&mut out, &self.next_elem);
        enc_u128_seq_into(&mut out, &self.subprocesses);
        enc_u128_seq_into(&mut out, &self.events);
        enc_pair_table_into(&mut out, &self.attached_to);
        enc_b32_table_into(&mut out, &self.event_code);
        enc_pair_table_into(&mut out, &self.parent_references);
        enc_pair_table_into(&mut out, &self.instance_count);
        enc_b32_into(&mut out, &self.factory.data_hash);
        enc_opt_into(&mut out, self.factory.address);
        enc_bytes_into(&mut out, &self.factory.instantiate_selector);
        enc_bytes_into(&mut out, &self.factory.execute_script_selector);
        proof {
            assert(out@ =~= spec_enc_iflow(m));
        }
        out
    }

    /// Read a flow definition back from its wire encoding; `None` when
    /// the bytes are cut short, repeat a table key, or carry an index
    /// that cannot address a marking bit.
    pub fn decode_iflow(bytes: &Vec<u8>) -> (r: Option<Iflow>)
        ensures
            match r {
                Some(f) => spec_dec_iflow(bytes@) == Some(f.model()) && f.wf(),
                None => spec_dec_iflow(bytes@) is None,
            },
    {
        let (start, p1) = match dec_u128_at(bytes, 0) {
            Some(x) => x,
            None => return None,
        };
        let (cond, p2) = match dec_triples_at(bytes, p1) {
            Some(x) => x,
            None => return None,
        };
        let (next, p3) = match dec_list_pairs_at(bytes, p2) {
            Some(x) => x,
            None => return None,
        };
        let (subs, p4) = match dec_u128_seq_at(bytes, p3) {
            Some(x) => x,
            None => return None,
        };
        let (events, p5) = match dec_u128_seq_at(bytes, p4) {
            Some(x) => x,
            None => return None,
        };
        let (attached, p6) = match dec_u128_pairs_at(bytes, p5) {
            Some(x) => x,
            None => return None,
        };
        let (codes, p7) = match dec_b32_pairs_at(bytes, p6) {
            Some(x) => x,
            None => return None,
        };
        let (refs, p8) = match dec_u128_pairs_at(bytes, p7) {
            Some(x) => x,
            None => return None,
        };
        let (counts, p9) = match dec_u128_pairs_at(bytes, p8) {
            Some(x) => x,
            None => return None,
        };
        let (fhash, p10) = match dec_b32_at(bytes, p9) {
            Some(x) => x,
            None => return None,
        };
        let (faddr, p11) = match dec_opt_at(bytes, p10) {
            Some(x) => x,
            None => return None,
        };
        let (fisel, p12) = match dec_bytes_at(bytes, p11) {
            Some(x) => x,
            None => return None,
        };
        let (fssel, _p13) = match dec_bytes_at(bytes, p12) {
            Some(x) => x,
            None => return None,
        };
        if start >= 128 {
            return None;
        }
        if !all_keys_below128(&cond) {
            return None;
        }
        if !all_members_below128(&subs) {
            return None;
        }
        if !all_members_below128(&events) {
            return None;
        }
        if !all_values_below128(&attached) {
            return None;
        }
        if !all_keys_below128(&refs) {
            return None;
        }
        let f = Iflow {
            start_evt: start,
            cond_table: cond,
            next_elem: next,
            subprocesses: subs,
            events,
            attached_to: attached,
            event_code: codes,
            parent_references: refs,
            instance_count: counts,
            factory: Ifactory {
                data_hash: fhash,
                address: faddr,
                instantiate_selector: fisel,
                execute_script_selector: fssel,
                inst_log: Ghost(Seq::empty()),
            },
        };
        proof {
            assert forall|k: u128| f.cond_map().contains_key(k) implies k < 128 by {
                f.cond_table.lemma_contains_iff(k);
                let wi = choose|i: int|
                    0 <= i < f.cond_table.entries_seq().len() && (
                    #[trigger] f.cond_table.entries_seq()[i]).0 == k;
                assert(f.cond_table.entries_seq()[wi].0 < 128);
            }
            assert forall|k: u128| f.attached_map().contains_key(k)
                implies f.attached_map()[k] < 128 by {
                f.attached_to.lemma_contains_iff(k);
                let wi = choose|i: int|
                    0 <= i < f.attached_to.entries_seq().len() && (
                    #[trigger] f.attached_to.entries_seq()[i]).0 == k;
                f.attached_to.lemma_entry_view(wi);
                assert(f.attached_to.entries_seq()[wi].1 < 128);
            }
            assert forall|k: u128| f.refs_map().contains_key(k) implies k < 128 by {
                f.parent_references.lemma_contains_iff(k);
                let wi = choose|i: int|
                    0 <= i < f.parent_references.entries_seq().len() && (
                    #[trigger] f.parent_references.entries_seq()[i]).0 == k;
                assert(f.parent_references.entries_seq()[wi].0 < 128);
            }
            assert(f.wf());
        }
        Some(f)
    }

    /// Scan the event list for the first event able to catch `code` from
    /// the sub-process at `sub_index`.
    pub fn find_catch_event(&self, event_code: &[u8; 32], sub_index: u128) -> (r: Option<u128>)
        requires
            self.wf(),
        ensures
            r == self.catch_choice(event_code@, sub_index),
    {
        let mut i: usize = 0;
        while i < self.events.len()
            invariant
                i <= self.events_list().len(),
                self.wf(),
                self.catch_choice(event_code@, sub_index) == self.catch_choice_from(
                    event_code@,
                    sub_index,
                    i as int,
                ),
            decreases self.events_list().len() - i,
        {
            let e = self.events[i];
            let code = self.get_event_code(e);
            if bytes32_eq(&code, event_code) {
                let ti = self.get_type_info(e);
                if ti & 6 == 6 {
                    return Some(e);
                }
                let at = self.get_attached_to(e);
                if ti & 256 == 256 && at == sub_index {
                    return Some(e);
                }
            }
            i += 1;
        }
        None
    }
}

/// Every stored key addresses a marking bit.
pub open spec fn keys_below128<V>(s: Seq<(u128, V)>) -> bool {
    forall|i: int| 0 <= i < s.len() ==> (#[trigger] s[i]).0 < 128
}

/// Every listed element addresses a marking bit.
pub open spec fn members_below128(s: Seq<u128>) -> bool {
    forall|i: int| 0 <= i < s.len() ==> s[i] < 128
}

/// Every stored value addresses a marking bit.
pub open spec fn values_below128(s: Seq<(u128, u128)>) -> bool {
    forall|i: int| 0 <= i < s.len() ==> (#[trigger] s[i]).1 < 128
}

/// Whether every key of the table addresses a marking bit.
pub fn all_keys_below128<V>(t: &KeyTable<V>) -> (r: bool)
    ensures
        r == keys_below128(t.entries_seq()),
{
    let mut i: usize = 0;
    while i < t.len()
        invariant
            i <= t.entries_seq().len(),
            forall|j: int| 0 <= j < i ==> (#[trigger] t.entries_seq()[j]).0 < 128,
        decreases t.entries_seq().len() - i,
    {
        if t.entry_at(i).0 >= 128 {
            return false;
        }
        i += 1;
    }
    true
}

/// Whether every listed element addresses a marking bit.
pub fn all_members_below128(v: &Vec<u128>) -> (r: bool)
    ensures
        r == members_below128(v@),
{
    let mut i: usize = 0;
    while i < v.len()
        invariant
            i <= v@.len(),
            forall|j: int| 0 <= j < i ==> v@[j] < 128,
        decreases v@.len() - i,
    {
        if v[i] >= 128 {
            return false;
        }
        i += 1;
    }
    true
}

/// Whether every value of the table addresses a marking bit.
pub fn all_values_below128(t: &KeyTable<u128>) -> (r: bool)
    ensures
        r == values_below128(t.entries_seq()),
{
    let mut i: usize = 0;
    while i < t.len()
        invariant
            i <= t.entries_seq().len(),
            forall|j: int| 0 <= j < i ==> (#[trigger] t.entries_seq()[j]).1 < 128,
        decreases t.entries_seq().len() - i,
    {
        if t.entry_at(i).1 >= 128 {
            return false;
        }
        i += 1;
    }
    true
}

/// The abstract content of a flow definition, as the wire format carries
/// it: plain values and each table as a key-ordered entry list.
pub ghost struct IflowModel {
    pub start: u128,
    pub cond: Seq<(u128, (u128, u128, u128))>,
    pub next: Seq<(u128, Seq<u128>)>,
    pub subs: Seq<u128>,
    pub events: Seq<u128>,
    pub attached: Seq<(u128, u128)>,
    pub codes: Seq<(u128, Seq<u8>)>,
    pub refs: Seq<(u128, u128)>,
    pub counts: Seq<(u128, u128)>,
    pub fhash: Seq<u8>,
    pub faddr: Option<u128>,
    pub fisel: Seq<u8>,
    pub fssel: Seq<u8>,
}

impl IflowModel {
    /// Lists fit their length prefixes, keys are unique, codes and the
    /// factory hash are 32 bytes, and every index addresses a marking
    /// bit, as they do for every flow the model builder produces.
    pub open spec fn valid(self) -> bool {
        &&& self.start < 128
        &&& keys_below128(self.cond)
        &&& members_below128(self.subs)
        &&& members_below128(self.events)
        &&& values_below128(self.attached)
        &&& keys_below128(self.refs)
        &&& keys_unique(self.cond)
        &&& keys_unique(self.next)
        &&& keys_unique(self.attached)
        &&& keys_unique(self.codes)
        &&& keys_unique(self.refs)
        &&& keys_unique(self.counts)
        &&& self.cond.len() <= u64::MAX
        &&& self.next.len() <= u64::MAX
        &&& self.subs.len() <= u64::MAX
        &&& self.events.len() <= u64::MAX
        &&& self.attached.len() <= u64::MAX
        &&& self.codes.len() <= u64::MAX
        &&& self.refs.len() <= u64::MAX
        &&& self.counts.len() <= u64::MAX
        &&& self.fisel.len() <= u64::MAX
        &&& self.fssel.len() <= u64::MAX
        &&& list_pairs_bounded(self.next)
        &&& b32_values(self.codes)
        &&& self.fhash.len() == 32
    }
}

/// The wire encoding of a flow definition.
pub open spec fn spec_enc_iflow(m: IflowModel) -> Seq<u8> {
    spec_enc_u128(m.start) + spec_enc_triples(m.cond) + spec_enc_list_pairs(m.next)
        + spec_enc_u128_seq(m.subs) + spec_enc_u128_seq(m.events) + spec_enc_u128_pairs(m.attached)
        + spec_enc_b32_pairs(m.codes) + spec_enc_u128_pairs(m.refs) + spec_enc_u128_pairs(m.counts)
        + m.fhash + spec_enc_opt(m.faddr) + spec_enc_bytes(m.fisel) + spec_enc_bytes(m.fssel)
}

/// Read a flow definition back from its wire encoding; trailing bytes are
/// ignored. Repeated table keys or an index that cannot address a marking
/// bit reject the input.
pub open spec fn spec_dec_iflow(b: Seq<u8>) -> Option<IflowModel> {
    match spec_dec_u128(b, 0) {
        Some((start, p1)) => match spec_dec_triples(b, p1) {
            Some((cond, p2)) => match spec_dec_list_pairs(b, p2) {
                Some((next, p3)) => match spec_dec_u128_seq(b, p3) {
                    Some((subs, p4)) => match spec_dec_u128_seq(b, p4) {
                        Some((events, p5)) => match spec_dec_u128_pairs(b, p5) {
                            Some((attached, p6)) => match spec_dec_b32_pairs(b, p6) {
                                Some((codes, p7)) => match spec_dec_u128_pairs(b, p7) {
                                    Some((refs, p8)) => match spec_dec_u128_pairs(b, p8) {
                                        Some((counts, p9)) => match spec_dec_b32(b, p9) {
                                            Some((fhash, p10)) => match spec_dec_opt(b, p10) {
                                                Some((faddr, p11)) => match spec_dec_bytes(
                                                    b,
                                                    p11,
                                                ) {
                                                    Some((fisel, p12)) => match spec_dec_bytes(
                                                        b,
                                                        p12,
                                                    ) {
                                                        Some((fssel, _p13)) => if start < 128
                                                            && keys_below128(cond)
                                                            && members_below128(subs)
                                                            && members_below128(events)
                                                            && values_below128(attached)
                                                            && keys_below128(refs) {
                                                            Some(
                                                                IflowModel {
                                                                    start,
                                                                    cond,
                                                                    next,
                                                                    subs,
                                                                    events,
                                                                    attached,
                                                                    codes,
                                                                    refs,
                                                                    counts,
                                                                    fhash,
                                                                    faddr,
                                                                    fisel,
                                                                    fssel,
                                                                },
                                                            )
                                                        } else {
                                                            None
                                                        },
                                                        None => None,
                                                    },
                                                    None => None,
                                                },
                                                None => None,
                                            },
                                            None => None,
                                        },
                                        None => None,
                                    },
                                    None => None,
                                },
                                None => None,
                            },
                            None => None,
                        },
                        None => None,
                    },
                    None => None,
                },
                None => None,
            },
            None => None,
        },
        None => None,
    }
}

/// Serialising a valid flow model and reading it back yields an equal
/// value.
#[verifier::rlimit(100)]
pub proof fn lemma_iflow_round_trip(m: IflowModel)
    requires
        m.valid(),
    ensures
        spec_dec_iflow(spec_enc_iflow(m)) == Some(m),
{
    let b = spec_enc_iflow(m);
    let e1 = spec_enc_u128(m.start);
    let e2 = spec_enc_triples(m.cond);
    let e3 = spec_enc_list_pairs(m.next);
    let e4 = spec_enc_u128_seq(m.subs);
    let e5 = spec_enc_u128_seq(m.events);
    let e6 = spec_enc_u128_pairs(m.attached);
    let e7 = spec_enc_b32_pairs(m.codes);
    let e8 = spec_enc_u128_pairs(m.refs);
    let e9 = spec_enc_u128_pairs(m.counts);
    let e10 = m.fhash;
    let e11 = spec_enc_opt(m.faddr);
    let e12 = spec_enc_bytes(m.fisel);
    let e13 = spec_enc_bytes(m.fssel);
    let p1 = e1.len() as int;
    let p2 = p1 + e2.len();
    let p3 = p2 + e3.len();
    let p4 = p3 + e4.len();
    let p5 = p4 + e5.len();
    let p6 = p5 + e6.len();
    let p7 = p6 + e7.len();
    let p8 = p7 + e8.len();
    let p9 = p8 + e9.len();
    let p10 = p9 + e10.len();
    let p11 = p10 + e11.len();
    let p12 = p11 + e12.len();
    let p13 = p12 + e13.len();
    assert(b == e1 + e2 + e3 + e4 + e5 + e6 + e7 + e8 + e9 + e10 + e11 + e12 + e13);
    assert(b.subrange(0, p1) =~= e1);
    lemma_dec_enc_u128(b, 0, m.start);
    assert(b.subrange(p1, p2) =~= e2);
    lemma_dec_enc_triples(b, p1, m.cond);
    assert(b.subrange(p2, p3) =~= e3);
    lemma_dec_enc_list_pairs(b, p2, m.next);
    assert(b.subrange(p3, p4) =~= e4);
    lemma_dec_enc_u128_seq(b, p3, m.subs);
    assert(b.subrange(p4, p5) =~= e5);
    lemma_dec_enc_u128_seq(b, p4, m.events);
    assert(b.subrange(p5, p6) =~= e6);
    lemma_dec_enc_u128_pairs(b, p5, m.attached);
    assert(b.subrange(p6, p7) =~= e7);
    lemma_dec_enc_b32_pairs(b, p6, m.codes);
    assert(b.subrange(p7, p8) =~= e8);
    lemma_dec_enc_u128_pairs(b, p7, m.refs);
    assert(b.subrange(p8, p9) =~= e9);
    lemma_dec_enc_u128_pairs(b, p8, m.counts);
    assert(b.subrange(p9, p10) =~= e10);
    lemma_dec_enc_b32(b, p9, m.fhash);
    assert(b.subrange(p10, p11) =~= e11);
    lemma_dec_enc_opt(b, p10, m.faddr);
    assert(b.subrange(p11, p12) =~= e12);
    lemma_dec_enc_bytes(b, p11, m.fisel);
    assert(b.subrange(p12, p13) =~= e13);
    lemma_dec_enc_bytes(b, p12, m.fssel);
}

} // verus!
