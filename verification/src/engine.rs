//! `Module`: the execution engine.
//!
//! The engine owns two registries — flow definitions and instance records,
//! both keyed by `u128` ids — plus the list of notifications it has emitted.
//! Model-building entry points (`set_element`, `link_sub_process`,
//! `set_factory_instance`) populate flows; execution entry points
//! (`create_root_instance`, `continue_execution`) walk instances through
//! their flow graphs, firing enabled elements, throwing and catching events
//! across the instance tree, broadcasting signals and killing sub-trees.
//!
//! Event propagation and the kill cascade recurse through the instance
//! tree, whose depth nothing in the model bounds; every execution entry
//! point therefore takes a `fuel` bound and fails with
//! `Errors::RecursionLimit` when propagation would recurse deeper.

use vstd::prelude::*;
use vstd::pervasive::VecAdditionalExecFns;
use crate::table::KeyTable;
use crate::codec::copy_bytes;
use crate::flow::Iflow;
use crate::flow::Ifactory;
use crate::instance::Idata;
use crate::codec::u128_from_le_bytes;
use crate::codec::le_value;
use crate::Errors;
use crate::Host;
use crate::InterpreterEvent;

verus! {

pub struct Module {
    flows: KeyTable<Iflow>,
    instances: KeyTable<Idata>,
    emitted: Vec<InterpreterEvent>,
    script_log: Ghost<Seq<ScriptCall>>,
}

/// One script evaluation handed to the host: where it went, with which
/// selector, for which element, and the raw reply. The engine keeps this
/// record in ghost state so that contracts can speak of the host traffic.
pub ghost struct ScriptCall {
    pub address: u128,
    pub selector: Seq<u8>,
    pub element: u128,
    pub reply: Seq<u8>,
}

/// Every registered flow is well-formed.
pub open spec fn flows_wf(m: Map<u128, Iflow>) -> bool {
    forall|k: u128| #[trigger] m.contains_key(k) ==> m[k].wf()
}

/// Every registered instance record is well-formed.
pub open spec fn insts_wf(m: Map<u128, Idata>) -> bool {
    forall|k: u128| #[trigger] m.contains_key(k) ==> m[k].wf()
}

/// Execution leaves every flow's graph alone: at most the factory's cached
/// address is filled in, once.
pub open spec fn graph_preserved(a: Map<u128, Iflow>, b: Map<u128, Iflow>) -> bool {
    &&& b.dom() == a.dom()
    &&& forall|k: u128| #[trigger] a.contains_key(k) ==> Iflow::same_graph(a[k], b[k])
        && Ifactory::addr_monotone(a[k].factory_of(), b[k].factory_of())
}

/// What the kill cascade does to the instance registry: every record is
/// either untouched or has exactly its two markings zeroed.
pub open spec fn kill_frame(a: Map<u128, Idata>, b: Map<u128, Idata>) -> bool {
    &&& b.dom() == a.dom()
    &&& forall|c: u128| #[trigger] a.contains_key(c) ==> (b[c] == a[c] || (
        Idata::same_but_markings(a[c], b[c]) && b[c].is_cleared()))
}

/// The flow that instance `c` runs, as recorded in `pre`.
pub open spec fn flow_of(pre: Module, c: u128) -> Iflow {
    pre.flows_map()[pre.instances_map()[c].flow_node()]
}

/// The `j`-th live child of the `i`-th sub-process element of instance
/// `c`, as recorded in `pre`.
pub open spec fn child_at(pre: Module, c: u128, i: int, j: int) -> u128 {
    pre.instances_map()[c].children_of(flow_of(pre, c).subs()[i])[j]
}

/// `id` is a live child of `c` under one of the first `n` sub-process
/// elements whose started bit is set, as recorded in `pre`.
pub open spec fn started_child_upto(pre: Module, c: u128, id: u128, n: int) -> bool {
    &&& pre.instances_map().contains_key(c)
    &&& pre.flows_map().contains_key(pre.instances_map()[c].flow_node())
    &&& exists|i: int, j: int|
        #![trigger child_at(pre, c, i, j)]
        0 <= i < n && i < flow_of(pre, c).subs().len() && pre.instances_map()[c].started() & (
        1u128 << flow_of(pre, c).subs()[i]) != 0 && 0 <= j < pre.instances_map()[c].children_of(
            flow_of(pre, c).subs()[i],
        ).len() && child_at(pre, c, i, j) == id
}

/// `id` is a live child of `c` under a started sub-process element, as
/// recorded in `pre`.
pub open spec fn started_child(pre: Module, c: u128, id: u128) -> bool {
    started_child_upto(pre, c, id, flow_of(pre, c).subs().len() as int)
}

/// The zeroed set is closed under started children: whenever a record got
/// cleared, every live child it had under a started sub-process element
/// (per the pre state) got cleared too.
pub open spec fn kill_closed(pre: Module, post: Module) -> bool {
    forall|c: u128, id: u128|
        pre.instances_map().contains_key(c) && post.instances_map().contains_key(c)
            && post.instances_map()[c].is_cleared() && #[trigger] started_child(pre, c, id)
            ==> post.instances_map().contains_key(id) && post.instances_map()[id].is_cleared()
}

/// `kill_closed` away from one instance that is still being processed.
pub open spec fn kill_closed_except(pre: Module, post: Module, p: u128) -> bool {
    forall|c: u128, id: u128|
        c != p && pre.instances_map().contains_key(c) && post.instances_map().contains_key(c)
            && post.instances_map()[c].is_cleared() && #[trigger] started_child(pre, c, id)
            ==> post.instances_map().contains_key(id) && post.instances_map()[id].is_cleared()
}

/// The kill cascade from `case` runs to completion within `fuel`: the
/// record and its flow are registered, and every live child under a
/// started sub-process element can itself be killed one fuel level lower
/// (through the list walk, which costs one level of its own).
pub open spec fn kill_succeeds(
    inst: Map<u128, Idata>,
    flows: Map<u128, Iflow>,
    case: u128,
    fuel: u64,
) -> bool
    decreases fuel, 1int,
{
    &&& fuel > 0
    &&& inst.contains_key(case)
    &&& flows.contains_key(inst[case].flow_node())
    &&& forall|i: int|
        0 <= i < flows[inst[case].flow_node()].subs().len() && inst[case].started() & (1u128
            << flows[inst[case].flow_node()].subs()[i]) != 0 ==> kill_list_succeeds(
            inst,
            flows,
            inst[case].children_of(#[trigger] flows[inst[case].flow_node()].subs()[i]),
            (fuel - 1) as u64,
        )
}

/// Every instance in the list can be killed one fuel level lower.
pub open spec fn kill_list_succeeds(
    inst: Map<u128, Idata>,
    flows: Map<u128, Iflow>,
    ids: Seq<u128>,
    fuel: u64,
) -> bool
    decreases fuel, 0int,
{
    &&& fuel > 0
    &&& forall|x: int|
        0 <= x < ids.len() ==> kill_succeeds(inst, flows, #[trigger] ids[x], (fuel - 1) as u64)
}

/// No element of the flow spawns children or throws events: execution is
/// pure token movement plus script evaluations, so one walk of the queue
/// determines the final marking from the start marking and the script
/// replies alone.
pub open spec fn flow_local(f: Iflow) -> bool {
    forall|e: u128|
        #[trigger] f.cond_map().contains_key(e) ==> {
            let ti = f.cond_map()[e].2;
            &&& !(ti & 65 == 65)
            &&& !(ti & 129 == 129 || (ti & 1 == 1 && ti & 48 != 0 && ti & 4096 == 0))
            &&& !(ti & 12 == 12)
        }
}

/// Append elements to the 100-slot wrapping ring, returning the new ring
/// and write position.
pub open spec fn ring_enqueue(q: Seq<u128>, count: int, next: Seq<u128>) -> (Seq<u128>, int)
    decreases next.len(),
{
    if next.len() == 0 {
        (q, count)
    } else {
        let prev = ring_enqueue(q, count, next.drop_last());
        (prev.0.update(prev.1, next.last()), (prev.1 + 1) % 100)
    }
}

/// The execution queue as it is first seeded.
pub open spec fn init_queue(seed: u128) -> Seq<u128> {
    Seq::new(100, |j: int| if j == 0 { seed } else { 0u128 })
}

/// The queue walk of a local flow: marking after the walk and the elements
/// whose scripts were evaluated, in order, given the decoded script
/// replies `rs`, oldest first.
pub open spec fn token_walk(
    f: Iflow,
    m: u128,
    q: Seq<u128>,
    i: int,
    count: int,
    rs: Seq<u128>,
) -> (u128, Seq<u128>)
    decreases 100 - i, 1int,
{
    if i < 0 || count < 0 || count > 99 || i >= count || i >= 100 {
        (m, Seq::empty())
    } else {
        let e = q[i];
        let pre = f.pre_of(e);
        let ti = f.type_of(e);
        if ti & 42 == 42 {
            if m & pre != pre {
                token_walk(f, m, q, i + 1, count, rs)
            } else {
                walk_fired(f, m & !pre, q, i, count, rs, e)
            }
        } else if ti & 74 == 74 {
            // the stub join: consumes nothing and fires nothing, but its
            // adjacency is still enqueued
            let qc = ring_enqueue(q, count, f.next_of(e));
            token_walk(f, m, qc.0, i + 1, qc.1, rs)
        } else if ti & 1 == 1 || (ti & 4 == 4 && ti & 640 != 0) || ti & 2 == 2 {
            if m & pre == 0 {
                token_walk(f, m, q, i + 1, count, rs)
            } else {
                walk_fired(f, m & !pre, q, i, count, rs, e)
            }
        } else {
            token_walk(f, m, q, i + 1, count, rs)
        }
    }
}

/// Fire one enabled element of a local flow and continue the walk.
pub open spec fn walk_fired(
    f: Iflow,
    m: u128,
    q: Seq<u128>,
    i: int,
    count: int,
    rs: Seq<u128>,
    e: u128,
) -> (u128, Seq<u128>)
    decreases 100 - i, 0int,
{
    if i < 0 || i >= 99 {
        (m, Seq::empty())
    } else {
        let ti = f.type_of(e);
        let qc = ring_enqueue(q, count, f.next_of(e));
        if ti & 4105 == 4105 || (ti & 10 == 2 && ti & 80 != 0) {
        // script task or exclusive/inclusive split: the host's reply is
        // consulted when the factory has an address
        if f.factory_of().addr() is Some {
            let v = if rs.len() > 0 {
                rs[0]
            } else {
                0
            };
            let rt = if rs.len() > 0 {
                rs.drop_first()
            } else {
                rs
            };
            let rest = token_walk(f, m | v, qc.0, i + 1, qc.1, rt);
                (rest.0, seq![e] + rest.1)
            } else {
                token_walk(f, m, qc.0, i + 1, qc.1, rs)
            }
        } else if (ti & 9 == 9 && ti & 27657 != 0) || ti & 2 == 2 {
            token_walk(f, m | f.post_of(e), qc.0, i + 1, qc.1, rs)
        } else {
            token_walk(f, m, qc.0, i + 1, qc.1, rs)
        }
    }
}

/// The walk of a local flow from one seeded element.
pub open spec fn token_walk_from(f: Iflow, m: u128, seed: u128, rs: Seq<u128>) -> (u128, Seq<u128>) {
    token_walk(f, m, init_queue(seed), 0, 1, rs)
}

/// Every catch-signal event of the flow is a plain start or intermediate
/// catch with no adjacency: a broadcast visiting the flow is then pure
/// marking movement.
pub open spec fn signal_plain(f: Iflow) -> bool {
    forall|x: int|
        0 <= x < f.events_list().len() ==> ({
            let ti = f.type_of(#[trigger] f.events_list()[x]);
            ti & 32780 == 32772 ==> ti & 6 != 6 && ti & 256 != 256 && ti & 160 == 160
                && f.next_of(f.events_list()[x]).len() == 0
        })
}

/// The marking after the broadcast sweep has visited the first `n` events
/// of the flow: each plain catch-signal event moves its pre-set tokens to
/// its post-set.
pub open spec fn signal_sweep(f: Iflow, m: u128, n: int) -> u128
    decreases n,
{
    if n <= 0 {
        m
    } else {
        let prev = signal_sweep(f, m, n - 1);
        let ev = f.events_list()[n - 1];
        let ti = f.type_of(ev);
        if ti & 32780 == 32772 && ti & 6 != 6 && ti & 256 != 256 && ti & 160 == 160 {
            prev & !f.pre_of(ev) | f.post_of(ev)
        } else {
            prev
        }
    }
}

/// The marking a fresh instance of `f` holds once it was seeded from the
/// start event and walked from the start's first adjacent element, given
/// the decoded script replies.
pub open spec fn seeded_tokens(f: Iflow, rs: Seq<u128>) -> u128 {
    if f.next_of(f.start_event()).len() == 0 {
        f.post_of(f.start_event())
    } else {
        token_walk_from(f, f.post_of(f.start_event()), f.next_of(f.start_event())[0], rs).0
    }
}

/// The script evaluations that seeding walk makes, in order.
pub open spec fn seeded_requests(f: Iflow, rs: Seq<u128>) -> Seq<u128> {
    if f.next_of(f.start_event()).len() == 0 {
        Seq::empty()
    } else {
        token_walk_from(f, f.post_of(f.start_event()), f.next_of(f.start_event())[0], rs).1
    }
}

/// `id` is reachable from `a` in at most `n` started-children steps, as
/// recorded in `pre`.
pub open spec fn reachable(pre: Module, a: u128, id: u128, n: nat) -> bool
    decreases n,
{
    a == id || (n > 0 && exists|m: u128|
        #[trigger] started_child(pre, a, m) && reachable(pre, m, id, (n - 1) as nat))
}

impl Module {
    pub closed spec fn flows_map(&self) -> Map<u128, Iflow> {
        self.flows@
    }

    pub closed spec fn instances_map(&self) -> Map<u128, Idata> {
        self.instances@
    }

    /// The notifications emitted so far, oldest first.
    pub closed spec fn events_seq(&self) -> Seq<InterpreterEvent> {
        self.emitted@
    }

    /// The script evaluations handed to the host so far, oldest first.
    pub closed spec fn script_calls(&self) -> Seq<ScriptCall> {
        self.script_log@
    }

    pub closed spec fn regs_wf(&self) -> bool {
        self.flows.wf() && self.instances.wf()
    }

    pub open spec fn wf(&self) -> bool {
        self.regs_wf() && flows_wf(self.flows_map()) && insts_wf(self.instances_map())
    }

    /// The instance is terminated (both markings zero) and its flow's AND
    /// joins all consume an edge: no element can fire until the parent
    /// re-seeds the marking.
    pub open spec fn terminated_inert(pre: Module, case: u128) -> bool {
        &&& pre.instances_map().contains_key(case)
        &&& pre.instances_map()[case].is_cleared()
        &&& pre.flows_map().contains_key(pre.instances_map()[case].flow_node())
        &&& pre.flows_map()[pre.instances_map()[case].flow_node()].joins_safe()
    }

    /// The flow id linked behind a sub-process element of the flow that
    /// `parent_case` runs.
    pub open spec fn linked_child_flow(
        pre: Module,
        element_index: u128,
        parent_case: u128,
    ) -> u128 {
        pre.flows_map()[pre.instances_map()[parent_case].flow_node()].refs_map()[element_index]
    }

    /// The case id a child instantiation will use: the child flow's cached
    /// factory address.
    pub open spec fn linked_child_case(
        pre: Module,
        element_index: u128,
        parent_case: u128,
    ) -> u128 {
        pre.flows_map()[Self::linked_child_flow(pre, element_index, parent_case)].factory_of().addr().unwrap()
    }

    /// Everything `create_instance` relies on is resolved and
    /// deterministic: the parent and both flows are registered, the child
    /// flow's factory address is cached and distinct from the parent, and
    /// the child flow's start event has no adjacency (so the fresh child
    /// does not execute further).
    pub open spec fn create_instance_ready(
        pre: Module,
        element_index: u128,
        parent_case: u128,
    ) -> bool {
        &&& parent_case != 0
        &&& pre.instances_map().contains_key(parent_case)
        &&& pre.flows_map().contains_key(pre.instances_map()[parent_case].flow_node())
        &&& pre.flows_map()[pre.instances_map()[parent_case].flow_node()].refs_map().contains_key(
            element_index,
        )
        &&& pre.flows_map().contains_key(Self::linked_child_flow(pre, element_index, parent_case))
        &&& pre.flows_map()[Self::linked_child_flow(
            pre,
            element_index,
            parent_case,
        )].factory_of().addr() is Some
        &&& Self::linked_child_case(pre, element_index, parent_case) != parent_case
        &&& pre.flows_map()[Self::linked_child_flow(pre, element_index, parent_case)].start_inert()
    }

    /// As `create_instance_ready`, but instead of an inert start the
    /// child flow is local (no child-spawning or throwing elements): the
    /// fresh child then runs its seeding walk and nothing else.
    pub open spec fn create_instance_ready_walk(
        pre: Module,
        element_index: u128,
        parent_case: u128,
    ) -> bool {
        &&& parent_case != 0
        &&& pre.instances_map().contains_key(parent_case)
        &&& pre.flows_map().contains_key(pre.instances_map()[parent_case].flow_node())
        &&& pre.flows_map()[pre.instances_map()[parent_case].flow_node()].refs_map().contains_key(
            element_index,
        )
        &&& pre.flows_map().contains_key(Self::linked_child_flow(pre, element_index, parent_case))
        &&& pre.flows_map()[Self::linked_child_flow(
            pre,
            element_index,
            parent_case,
        )].factory_of().addr() is Some
        &&& Self::linked_child_case(pre, element_index, parent_case) != parent_case
        &&& flow_local(pre.flows_map()[Self::linked_child_flow(pre, element_index, parent_case)])
    }

    /// What one resolved child instantiation does: the child record is
    /// fresh with its marking seeded from the child flow's start event,
    /// the parent gains the child under `element_index`, one
    /// `NewCaseCreated` is emitted, and nothing else changes.
    pub open spec fn create_instance_effect(
        pre: Module,
        post: Module,
        element_index: u128,
        parent_case: u128,
    ) -> bool {
        let cfid = Self::linked_child_flow(pre, element_index, parent_case);
        let a = Self::linked_child_case(pre, element_index, parent_case);
        let cf = pre.flows_map()[cfid];
        &&& post.flows_map() == pre.flows_map()
        &&& post.events_seq() == pre.events_seq().push(InterpreterEvent::NewCaseCreated(a))
        &&& post.instances_map().dom() == pre.instances_map().dom().insert(a)
        &&& forall|c: u128|
            c != a && c != parent_case && #[trigger] pre.instances_map().contains_key(c)
                ==> post.instances_map()[c] == pre.instances_map()[c]
        &&& post.instances_map().contains_key(a)
        &&& post.instances_map()[a].tokens() == cf.post_of(cf.start_event())
        &&& post.instances_map()[a].started() == 0
        &&& post.instances_map()[a].parent_id() == Some(parent_case)
        &&& post.instances_map()[a].flow_node() == cfid
        &&& post.instances_map()[a].index() == element_index
        &&& post.instances_map()[a].children_map() == Map::<u128, Seq<u128>>::empty()
        &&& post.instances_map()[a].counts_map() == Map::<u128, u128>::empty()
        &&& post.instances_map().contains_key(parent_case)
        &&& post.instances_map()[parent_case].children_of(element_index) == pre.instances_map()[parent_case].children_of(element_index).push(a)
        &&& forall|e: u128|
            e != element_index ==> post.instances_map()[parent_case].children_of(e)
                == pre.instances_map()[parent_case].children_of(e)
        &&& post.instances_map()[parent_case].count_of(element_index) == Idata::incremented(
            pre.instances_map()[parent_case].count_of(element_index),
        )
        &&& forall|e: u128|
            e != element_index ==> post.instances_map()[parent_case].count_of(e)
                == pre.instances_map()[parent_case].count_of(e)
        &&& post.instances_map()[parent_case].tokens() == pre.instances_map()[parent_case].tokens()
        &&& post.instances_map()[parent_case].started() == pre.instances_map()[parent_case].started()
        &&& post.instances_map()[parent_case].parent_id() == pre.instances_map()[parent_case].parent_id()
        &&& post.instances_map()[parent_case].flow_node() == pre.instances_map()[parent_case].flow_node()
        &&& post.instances_map()[parent_case].index() == pre.instances_map()[parent_case].index()
    }

    /// What every execution step guarantees: well-formedness is kept, flow
    /// graphs are never rewired, notifications are only appended, and
    /// instance records are never dropped.
    pub open spec fn step_frame(pre: Module, post: Module) -> bool {
        &&& post.wf()
        &&& graph_preserved(pre.flows_map(), post.flows_map())
        &&& pre.events_seq().is_prefix_of(post.events_seq())
        &&& forall|c: u128| #[trigger] pre.instances_map().contains_key(c)
            ==> post.instances_map().contains_key(c)
    }

    proof fn lemma_frame_refl(s: Module)
        requires
            s.wf(),
        ensures
            Self::step_frame(s, s),
    {
        assert(s.events_seq().subrange(0, s.events_seq().len() as int) =~= s.events_seq());
    }

    proof fn lemma_frame_trans(s0: Module, s1: Module, s2: Module)
        requires
            Self::step_frame(s0, s1),
            Self::step_frame(s1, s2),
        ensures
            Self::step_frame(s0, s2),
    {
        assert forall|k: u128| #[trigger] s0.flows_map().contains_key(k) implies Iflow::same_graph(
            s0.flows_map()[k],
            s2.flows_map()[k],
        ) && Ifactory::addr_monotone(
            s0.flows_map()[k].factory_of(),
            s2.flows_map()[k].factory_of(),
        ) by {
            assert(s1.flows_map().contains_key(k));
        }
        let e0 = s0.events_seq();
        let e1 = s1.events_seq();
        let e2 = s2.events_seq();
        assert(e0 =~= e1.subrange(0, e0.len() as int));
        assert(e1 =~= e2.subrange(0, e1.len() as int));
        assert(e0 =~= e2.subrange(0, e0.len() as int));
        assert forall|c: u128| #[trigger] s0.instances_map().contains_key(c)
            implies s2.instances_map().contains_key(c) by {
            assert(s1.instances_map().contains_key(c));
        }
    }

    proof fn lemma_insts_wf_insert(m: Map<u128, Idata>, c: u128, d: Idata)
        requires
            insts_wf(m),
            d.wf(),
        ensures
            insts_wf(m.insert(c, d)),
    {
        assert forall|k: u128| #[trigger] m.insert(c, d).contains_key(k) implies m.insert(c, d)[k].wf() by {
            if k != c {
                assert(m.contains_key(k));
            }
        }
    }

    proof fn lemma_flows_wf_insert(m: Map<u128, Iflow>, c: u128, f: Iflow)
        requires
            flows_wf(m),
            f.wf(),
        ensures
            flows_wf(m.insert(c, f)),
    {
        assert forall|k: u128| #[trigger] m.insert(c, f).contains_key(k) implies m.insert(c, f)[k].wf() by {
            if k != c {
                assert(m.contains_key(k));
            }
        }
    }

    pub fn new() -> (r: Self)
        ensures
            r.wf(),
            r.flows_map() == Map::<u128, Iflow>::empty(),
            r.instances_map() == Map::<u128, Idata>::empty(),
            r.events_seq() == Seq::<InterpreterEvent>::empty(),
            r.script_calls() == Seq::<ScriptCall>::empty(),
    {
        Module {
            flows: KeyTable::new(),
            instances: KeyTable::new(),
            emitted: Vec::new(),
            script_log: Ghost(Seq::empty()),
        }
    }

    /// The flow registered under `flow_id`, or `None`.
    pub fn get_flow(&self, flow_id: u128) -> (r: Option<&Iflow>)
        requires
            self.wf(),
        ensures
            match r {
                Some(f) => self.flows_map().contains_key(flow_id) && *f == self.flows_map()[flow_id],
                None => !self.flows_map().contains_key(flow_id),
            },
    {
        self.flows.get(flow_id)
    }

    /// The notifications emitted so far, oldest first.
    pub fn get_emitted(&self) -> (r: &Vec<InterpreterEvent>)
        ensures
            r@ == self.events_seq(),
    {
        &self.emitted
    }

    /// The instance record registered under `instance_id`, or `None`.
    pub fn get_instance(&self, instance_id: u128) -> (r: Option<&Idata>)
        requires
            self.wf(),
        ensures
            match r {
                Some(d) => self.instances_map().contains_key(instance_id) && *d
                    == self.instances_map()[instance_id],
                None => !self.instances_map().contains_key(instance_id),
            },
    {
        self.instances.get(instance_id)
    }

    /// The `pre_condition` of one element, zero when flow or element is
    /// absent.
    pub fn get_pre_condition(&self, iflow_id: u128, element_index: u128) -> (r: u128)
        requires
            self.wf(),
        ensures
            self.flows_map().contains_key(iflow_id) ==> r == self.flows_map()[iflow_id].pre_of(
                element_index,
            ),
            !self.flows_map().contains_key(iflow_id) ==> r == 0,
    {
        match self.flows.get(iflow_id) {
            Some(f) => f.get_pre_condition(element_index),
            None => 0,
        }
    }

    /// The `post_condition` of one element, zero when flow or element is
    /// absent.
    pub fn get_post_condition(&self, iflow_id: u128, element_index: u128) -> (r: u128)
        requires
            self.wf(),
        ensures
            self.flows_map().contains_key(iflow_id) ==> r == self.flows_map()[iflow_id].post_of(
                element_index,
            ),
            !self.flows_map().contains_key(iflow_id) ==> r == 0,
    {
        match self.flows.get(iflow_id) {
            Some(f) => f.get_post_condition(element_index),
            None => 0,
        }
    }

    /// The `type_info` of one element, zero when flow or element is absent.
    pub fn get_type_info(&self, iflow_id: u128, element_index: u128) -> (r: u128)
        requires
            self.wf(),
        ensures
            self.flows_map().contains_key(iflow_id) ==> r == self.flows_map()[iflow_id].type_of(
                element_index,
            ),
            !self.flows_map().contains_key(iflow_id) ==> r == 0,
    {
        match self.flows.get(iflow_id) {
            Some(f) => f.get_type_info(element_index),
            None => 0,
        }
    }

    /// Register or re-register one element of a flow, creating the flow on
    /// its first element (see `Iflow::set_element`).
    pub fn set_element(
        &mut self,
        iflow_index: u128,
        element_index: u128,
        pre_condition: u128,
        post_condition: u128,
        type_info: u128,
        event_code: [u8; 32],
        next_elem: Vec<u128>,
    ) -> (r: Result<(), Errors>)
        requires
            old(self).wf(),
            element_index < 128,
        ensures
            final(self).wf(),
            final(self).instances_map() == old(self).instances_map(),
            final(self).events_seq() == old(self).events_seq(),
            r == Ok::<(), Errors>(()) <==> (!old(self).flows_map().contains_key(iflow_index) || old(self).flows_map()[iflow_index].type_of(element_index) == 0 || old(self).flows_map()[iflow_index].type_of(element_index) == type_info),
            match r {
                Ok(()) => {
                    &&& final(self).flows_map().dom() == old(self).flows_map().dom().insert(
                        iflow_index,
                    )
                    &&& final(self).flows_map().contains_key(iflow_index)
                    &&& forall|k: u128|
                        k != iflow_index && #[trigger] old(self).flows_map().contains_key(k)
                            ==> final(self).flows_map()[k] == old(self).flows_map()[k]
                    &&& old(self).flows_map().contains_key(iflow_index)
                        ==> Iflow::set_element_rel(
                        old(self).flows_map()[iflow_index],
                        final(self).flows_map()[iflow_index],
                        element_index,
                        pre_condition,
                        post_condition,
                        type_info,
                        event_code,
                        next_elem@,
                    )
                    &&& !old(self).flows_map().contains_key(iflow_index)
                        ==> Self::fresh_flow_with(
                        final(self).flows_map()[iflow_index],
                        element_index,
                        pre_condition,
                        post_condition,
                        type_info,
                        event_code,
                        next_elem@,
                    )
                },
                Err(e) => e == Errors::TypeMismatch && final(self).flows_map() == old(self).flows_map(),
            },
    {
        match self.flows.take(iflow_index) {
            Some(mut flow) => {
                let ghost pre_flow = flow;
                let r = flow.set_element(
                    element_index,
                    pre_condition,
                    post_condition,
                    type_info,
                    event_code,
                    next_elem,
                );
                self.flows.insert(iflow_index, flow);
                proof {
                    Self::lemma_flows_wf_insert(
                        old(self).flows_map().remove(iflow_index),
                        iflow_index,
                        flow,
                    );
                    assert(old(self).flows_map().remove(iflow_index).insert(iflow_index, flow)
                        =~= old(self).flows_map().insert(iflow_index, flow));
                    if r is Err {
                        assert(flow == pre_flow);
                        assert(self.flows_map() =~= old(self).flows_map());
                    } else {
                        assert(self.flows_map().dom() =~= old(self).flows_map().dom().insert(
                            iflow_index,
                        ));
                    }
                }
                r
            },
            None => {
                let mut flow = Iflow::new();
                let r = flow.set_element(
                    element_index,
                    pre_condition,
                    post_condition,
                    type_info,
                    event_code,
                    next_elem,
                );
                self.flows.insert(iflow_index, flow);
                proof {
                    Self::lemma_flows_wf_insert(old(self).flows_map(), iflow_index, flow);
                    assert(r is Ok);
                    assert(self.flows_map().dom() =~= old(self).flows_map().dom().insert(
                        iflow_index,
                    ));
                }
                r
            },
        }
    }

    /// What a flow created by its first `set_element` looks like.
    pub open spec fn fresh_flow_with(
        f: Iflow,
        element_index: u128,
        pre_condition: u128,
        post_condition: u128,
        type_info: u128,
        event_code: [u8; 32],
        next: Seq<u128>,
    ) -> bool {
        &&& f.cond_map() == Map::<u128, (u128, u128, u128)>::empty().insert(
            element_index,
            (pre_condition, post_condition, type_info),
        )
        &&& f.next_map() == Map::<u128, Seq<u128>>::empty().insert(element_index, next)
        &&& f.events_list() == if type_info & 4 == 4 {
            Seq::<u128>::empty().push(element_index)
        } else {
            Seq::<u128>::empty()
        }
        &&& f.codes_map() == if type_info & 4 == 4 {
            Map::<u128, Seq<u8>>::empty().insert(element_index, event_code@)
        } else {
            Map::<u128, Seq<u8>>::empty()
        }
        &&& f.start_event() == if type_info & 36 == 36 {
            element_index
        } else {
            0
        }
        &&& f.subs() == if type_info & 4 != 4 && type_info & 33 == 33 {
            Seq::<u128>::empty().push(element_index)
        } else {
            Seq::<u128>::empty()
        }
        &&& f.attached_map() == Map::<u128, u128>::empty()
        &&& f.refs_map() == Map::<u128, u128>::empty()
        &&& f.counts_map() == Map::<u128, u128>::empty()
        &&& f.factory_of().addr() is None
    }

    /// Wire a sub-process element of a registered flow to the flow it
    /// instantiates (see `Iflow::link_sub_process`).
    pub fn link_sub_process(
        &mut self,
        iflow_index: u128,
        parent_index: u128,
        child_flow_inst: u128,
        attached_events: Vec<u128>,
        count_instances: u128,
    ) -> (r: Result<(), Errors>)
        requires
            old(self).wf(),
        ensures
            final(self).wf(),
            final(self).instances_map() == old(self).instances_map(),
            final(self).events_seq() == old(self).events_seq(),
            !old(self).flows_map().contains_key(iflow_index) ==> r == Err::<(), Errors>(
                Errors::InstanceNotFound,
            ) && final(self).flows_map() == old(self).flows_map(),
            old(self).flows_map().contains_key(iflow_index) ==> {
                &&& r == Ok::<(), Errors>(()) <==> old(self).flows_map()[iflow_index].type_of(
                    parent_index,
                ) & 33 == 33
                &&& final(self).flows_map().dom() == old(self).flows_map().dom()
                &&& forall|k: u128|
                    k != iflow_index && #[trigger] old(self).flows_map().contains_key(k) ==> final(self).flows_map()[k] == old(self).flows_map()[k]
                &&& r is Err ==> final(self).flows_map() == old(self).flows_map() && r == Err::<
                    (),
                    Errors,
                >(Errors::SubprocessToLinkNotFound)
                &&& r is Ok ==> {
                    let pre_f = old(self).flows_map()[iflow_index];
                    let post_f = final(self).flows_map()[iflow_index];
                    &&& post_f.refs_map() == pre_f.refs_map().insert(parent_index, child_flow_inst)
                    &&& post_f.counts_map() == pre_f.counts_map().insert(
                        parent_index,
                        count_instances,
                    )
                    &&& post_f.attached_map() == if pre_f.type_of(parent_index) & 4 == 4 {
                        Iflow::link_attached(pre_f.attached_map(), attached_events@, parent_index)
                    } else {
                        pre_f.attached_map()
                    }
                    &&& post_f.start_event() == pre_f.start_event()
                    &&& post_f.cond_map() == pre_f.cond_map()
                    &&& post_f.next_map() == pre_f.next_map()
                    &&& post_f.subs() == pre_f.subs()
                    &&& post_f.events_list() == pre_f.events_list()
                    &&& post_f.codes_map() == pre_f.codes_map()
                    &&& post_f.factory_of() == pre_f.factory_of()
                }
            },
    {
        match self.flows.take(iflow_index) {
            Some(mut flow) => {
                let ghost pre_flow = flow;
                let r = flow.link_sub_process(
                    parent_index,
                    child_flow_inst,
                    attached_events,
                    count_instances,
                );
                self.flows.insert(iflow_index, flow);
                proof {
                    Self::lemma_flows_wf_insert(
                        old(self).flows_map().remove(iflow_index),
                        iflow_index,
                        flow,
                    );
                    assert(old(self).flows_map().remove(iflow_index).insert(iflow_index, flow)
                        =~= old(self).flows_map().insert(iflow_index, flow));
                    if r is Err {
                        assert(flow == pre_flow);
                        assert(self.flows_map() =~= old(self).flows_map());
                    } else {
                        assert(self.flows_map().dom() =~= old(self).flows_map().dom());
                    }
                }
                r
            },
            None => Err(Errors::InstanceNotFound),
        }
    }

    /// Attach a factory to a flow, creating the flow record when absent,
    /// and emit `FactorySet`.
    pub fn set_factory_instance(
        &mut self,
        instance_id: u128,
        data_hash: [u8; 32],
        instantiate_selector: Vec<u8>,
        execute_script_selector: Vec<u8>,
    ) -> (r: Result<(), Errors>)
        requires
            old(self).wf(),
        ensures
            final(self).wf(),
            final(self).instances_map() == old(self).instances_map(),
            final(self).events_seq() == old(self).events_seq().push(
                InterpreterEvent::FactorySet(instance_id, data_hash),
            ),
            r == Ok::<(), Errors>(()),
            final(self).flows_map().contains_key(instance_id),
            forall|k: u128|
                k != instance_id && #[trigger] old(self).flows_map().contains_key(k) ==> final(self).flows_map()[k] == old(self).flows_map()[k],
            final(self).flows_map()[instance_id].factory_of().hash() == data_hash@,
            final(self).flows_map()[instance_id].factory_of().isel() == instantiate_selector@,
            final(self).flows_map()[instance_id].factory_of().ssel() == execute_script_selector@,
            final(self).flows_map()[instance_id].factory_of().addr() is None,
            old(self).flows_map().contains_key(instance_id) ==> {
                let pre_f = old(self).flows_map()[instance_id];
                let post_f = final(self).flows_map()[instance_id];
                &&& post_f.start_event() == pre_f.start_event()
                &&& post_f.cond_map() == pre_f.cond_map()
                &&& post_f.next_map() == pre_f.next_map()
                &&& post_f.subs() == pre_f.subs()
                &&& post_f.events_list() == pre_f.events_list()
                &&& post_f.attached_map() == pre_f.attached_map()
                &&& post_f.codes_map() == pre_f.codes_map()
                &&& post_f.refs_map() == pre_f.refs_map()
                &&& post_f.counts_map() == pre_f.counts_map()
            },
    {
        let factory = Ifactory::new(data_hash, instantiate_selector, execute_script_selector);
        match self.flows.take(instance_id) {
            Some(mut flow) => {
                flow.set_factory_instance(factory);
                self.flows.insert(instance_id, flow);
                proof {
                    Self::lemma_flows_wf_insert(
                        old(self).flows_map().remove(instance_id),
                        instance_id,
                        flow,
                    );
                    assert(old(self).flows_map().remove(instance_id).insert(instance_id, flow)
                        =~= old(self).flows_map().insert(instance_id, flow));
                }
            },
            None => {
                let mut flow = Iflow::new();
                flow.set_factory_instance(factory);
                self.flows.insert(instance_id, flow);
                proof {
                    Self::lemma_flows_wf_insert(old(self).flows_map(), instance_id, flow);
                }
            },
        }
        self.emitted.push(InterpreterEvent::FactorySet(instance_id, data_hash));
        Ok(())
    }

    proof fn lemma_prefix_refl(s: Seq<InterpreterEvent>)
        ensures
            s.is_prefix_of(s),
    {
        assert(s.subrange(0, s.len() as int) =~= s);
    }

    proof fn lemma_prefix_push(s: Seq<InterpreterEvent>, e: InterpreterEvent)
        ensures
            s.is_prefix_of(s.push(e)),
    {
        assert(s.push(e).subrange(0, s.len() as int) =~= s);
    }

    /// A step that left the flow registry alone keeps the step frame.
    proof fn lemma_frame_local(pre: Module, post: Module)
        requires
            post.wf(),
            post.flows_map() == pre.flows_map(),
            pre.events_seq().is_prefix_of(post.events_seq()),
            forall|c: u128| #[trigger] pre.instances_map().contains_key(c)
                ==> post.instances_map().contains_key(c),
        ensures
            Self::step_frame(pre, post),
    {
        assert forall|k: u128| #[trigger] pre.flows_map().contains_key(k) implies Iflow::same_graph(
            pre.flows_map()[k],
            post.flows_map()[k],
        ) && Ifactory::addr_monotone(
            pre.flows_map()[k].factory_of(),
            post.flows_map()[k].factory_of(),
        ) by {}
    }

    proof fn lemma_take_insert(m: Map<u128, Idata>, c: u128, d: Idata)
        requires
            insts_wf(m),
            d.wf(),
        ensures
            insts_wf(m.insert(c, d)),
            m.remove(c).insert(c, d) == m.insert(c, d),
    {
        Self::lemma_insts_wf_insert(m, c, d);
        assert(m.remove(c).insert(c, d) =~= m.insert(c, d));
    }

    proof fn lemma_kill_frame_refl(m: Map<u128, Idata>)
        ensures
            kill_frame(m, m),
    {
    }

    proof fn lemma_kill_frame_trans(a: Map<u128, Idata>, b: Map<u128, Idata>, c: Map<u128, Idata>)
        requires
            kill_frame(a, b),
            kill_frame(b, c),
        ensures
            kill_frame(a, c),
    {
        assert forall|x: u128| #[trigger] a.contains_key(x) implies (c[x] == a[x] || (
        Idata::same_but_markings(a[x], c[x]) && c[x].is_cleared())) by {
            assert(b.contains_key(x));
        }
    }

    /// A kill stage (which only clears markings) cannot make a later kill
    /// run out of fuel: success carries over to the new state.
    proof fn lemma_kill_succeeds_preserved(
        m0: Map<u128, Idata>,
        m1: Map<u128, Idata>,
        flows: Map<u128, Iflow>,
        case: u128,
        fuel: u64,
    )
        requires
            kill_frame(m0, m1),
            kill_succeeds(m0, flows, case, fuel),
        ensures
            kill_succeeds(m1, flows, case, fuel),
        decreases fuel, 1int,
    {
        assert(m1.contains_key(case));
        let fid0 = m0[case].flow_node();
        assert(m1[case].flow_node() == fid0);
        let fl = flows[fid0];
        assert forall|i: int|
            0 <= i < fl.subs().len() && m1[case].started() & (1u128 << fl.subs()[i]) != 0
            implies kill_list_succeeds(
            m1,
            flows,
            m1[case].children_of(#[trigger] fl.subs()[i]),
            (fuel - 1) as u64,
        ) by {
            if m1[case].is_cleared() {
                let w = 1u128 << fl.subs()[i];
                assert(0u128 & w == 0) by (bit_vector);
                assert(false);
            } else {
                assert(m1[case] == m0[case]);
                assert(kill_list_succeeds(
                    m0,
                    flows,
                    m0[case].children_of(fl.subs()[i]),
                    (fuel - 1) as u64,
                ));
                Self::lemma_kill_list_succeeds_preserved(
                    m0,
                    m1,
                    flows,
                    m0[case].children_of(fl.subs()[i]),
                    (fuel - 1) as u64,
                );
            }
        }
    }

    proof fn lemma_kill_list_succeeds_preserved(
        m0: Map<u128, Idata>,
        m1: Map<u128, Idata>,
        flows: Map<u128, Iflow>,
        ids: Seq<u128>,
        fuel: u64,
    )
        requires
            kill_frame(m0, m1),
            kill_list_succeeds(m0, flows, ids, fuel),
        ensures
            kill_list_succeeds(m1, flows, ids, fuel),
        decreases fuel, 0int,
    {
        assert forall|x: int| 0 <= x < ids.len() implies kill_succeeds(
            m1,
            flows,
            #[trigger] ids[x],
            (fuel - 1) as u64,
        ) by {
            Self::lemma_kill_succeeds_preserved(m0, m1, flows, ids[x], (fuel - 1) as u64);
        }
    }

    /// A cleared record has no started children: its started marking is
    /// zero.
    proof fn lemma_cleared_no_started_child(pre: Module, c: u128)
        requires
            pre.instances_map().contains_key(c),
            pre.instances_map()[c].is_cleared(),
        ensures
            forall|id: u128| !(#[trigger] started_child(pre, c, id)),
    {
        assert forall|id: u128| !(#[trigger] started_child(pre, c, id)) by {
            if started_child(pre, c, id) {
                let (i, j) = choose|i: int, j: int|
                    #![trigger child_at(pre, c, i, j)]
                    0 <= i < flow_of(pre, c).subs().len() && i < flow_of(pre, c).subs().len()
                        && pre.instances_map()[c].started() & (1u128 << flow_of(pre, c).subs()[i])
                        != 0 && 0 <= j < pre.instances_map()[c].children_of(
                        flow_of(pre, c).subs()[i],
                    ).len() && child_at(pre, c, i, j) == id;
                let w = 1u128 << flow_of(pre, c).subs()[i];
                assert(pre.instances_map()[c].started() == 0);
                assert(0u128 & w == 0) by (bit_vector);
                assert(false);
            }
        }
    }

    /// Nothing happened: the zeroed set is trivially closed.
    proof fn lemma_kill_closed_refl(s: Module)
        ensures
            kill_closed(s, s),
    {
        assert forall|c: u128, id: u128|
            s.instances_map().contains_key(c) && s.instances_map().contains_key(c)
                && s.instances_map()[c].is_cleared() && #[trigger] started_child(s, c, id)
            implies s.instances_map().contains_key(id) && s.instances_map()[id].is_cleared() by {
            Self::lemma_cleared_no_started_child(s, c);
            assert(false);
        }
    }

    /// Only records other than `p` may differ, and only records that were
    /// already cleared: closure away from `p` holds vacuously.
    proof fn lemma_kill_closed_except_init(s0: Module, s1: Module, p: u128)
        requires
            s1.instances_map().dom() == s0.instances_map().dom(),
            forall|c: u128|
                c != p && #[trigger] s0.instances_map().contains_key(c) ==> s1.instances_map()[c]
                    == s0.instances_map()[c],
        ensures
            kill_closed_except(s0, s1, p),
    {
        assert forall|c: u128, id: u128|
            c != p && s0.instances_map().contains_key(c) && s1.instances_map().contains_key(c)
                && s1.instances_map()[c].is_cleared() && #[trigger] started_child(s0, c, id)
            implies s1.instances_map().contains_key(id) && s1.instances_map()[id].is_cleared() by {
            assert(s1.instances_map()[c] == s0.instances_map()[c]);
            Self::lemma_cleared_no_started_child(s0, c);
            assert(false);
        }
    }

    /// Composing a closed-away-from-`p` stage with a fully closed stage
    /// stays closed away from `p`.
    proof fn lemma_kill_closed_step_except(
        s0: Module,
        s1: Module,
        s2: Module,
        p: u128,
    )
        requires
            s1.flows_map() == s0.flows_map(),
            kill_frame(s0.instances_map(), s1.instances_map()),
            kill_frame(s1.instances_map(), s2.instances_map()),
            kill_closed_except(s0, s1, p),
            kill_closed(s1, s2),
        ensures
            kill_closed_except(s0, s2, p),
    {
        assert forall|c: u128, id: u128|
            c != p && s0.instances_map().contains_key(c) && s2.instances_map().contains_key(c)
                && s2.instances_map()[c].is_cleared() && #[trigger] started_child(s0, c, id)
            implies s2.instances_map().contains_key(id) && s2.instances_map()[id].is_cleared() by {
            assert(s1.instances_map().contains_key(c));
            if s1.instances_map()[c].is_cleared() {
                assert(s1.instances_map().contains_key(id) && s1.instances_map()[id].is_cleared());
                assert(s2.instances_map().contains_key(id));
                assert(s2.instances_map()[id].is_cleared());
            } else {
                assert(s1.instances_map()[c] == s0.instances_map()[c]);
                let (i, j) = choose|i: int, j: int|
                    #![trigger child_at(s0, c, i, j)]
                    0 <= i < flow_of(s0, c).subs().len() && i < flow_of(s0, c).subs().len()
                        && s0.instances_map()[c].started() & (1u128 << flow_of(s0, c).subs()[i])
                        != 0 && 0 <= j < s0.instances_map()[c].children_of(
                        flow_of(s0, c).subs()[i],
                    ).len() && child_at(s0, c, i, j) == id;
                assert(flow_of(s1, c) == flow_of(s0, c));
                assert(child_at(s1, c, i, j) == id);
                assert(started_child(s1, c, id));
                assert(s2.instances_map().contains_key(id) && s2.instances_map()[id].is_cleared());
            }
        }
    }

    /// Sequential composition of two fully closed kill stages.
    proof fn lemma_kill_closed_step(s0: Module, s1: Module, s2: Module)
        requires
            s1.flows_map() == s0.flows_map(),
            kill_frame(s0.instances_map(), s1.instances_map()),
            kill_frame(s1.instances_map(), s2.instances_map()),
            kill_closed(s0, s1),
            kill_closed(s1, s2),
        ensures
            kill_closed(s0, s2),
    {
        assert forall|c: u128, id: u128|
            s0.instances_map().contains_key(c) && s2.instances_map().contains_key(c)
                && s2.instances_map()[c].is_cleared() && #[trigger] started_child(s0, c, id)
            implies s2.instances_map().contains_key(id) && s2.instances_map()[id].is_cleared() by {
            assert(s1.instances_map().contains_key(c));
            if s1.instances_map()[c].is_cleared() {
                assert(s1.instances_map().contains_key(id) && s1.instances_map()[id].is_cleared());
                assert(s2.instances_map().contains_key(id));
                assert(s2.instances_map()[id].is_cleared());
            } else {
                assert(s1.instances_map()[c] == s0.instances_map()[c]);
                let (i, j) = choose|i: int, j: int|
                    #![trigger child_at(s0, c, i, j)]
                    0 <= i < flow_of(s0, c).subs().len() && i < flow_of(s0, c).subs().len()
                        && s0.instances_map()[c].started() & (1u128 << flow_of(s0, c).subs()[i])
                        != 0 && 0 <= j < s0.instances_map()[c].children_of(
                        flow_of(s0, c).subs()[i],
                    ).len() && child_at(s0, c, i, j) == id;
                assert(flow_of(s1, c) == flow_of(s0, c));
                assert(child_at(s1, c, i, j) == id);
                assert(started_child(s1, c, id));
                assert(s2.instances_map().contains_key(id) && s2.instances_map()[id].is_cleared());
            }
        }
    }

    /// After a successful kill whose effects satisfy the kill frame and
    /// closure, every instance reachable from the killed root through live
    /// children of started sub-process elements — every descendant, as
    /// recorded in the pre state — has both markings zero.
    pub proof fn lemma_kill_zeroes_descendants(
        pre: Module,
        post: Module,
        root: u128,
        id: u128,
        n: nat,
    )
        requires
            kill_frame(pre.instances_map(), post.instances_map()),
            kill_closed(pre, post),
            pre.instances_map().contains_key(root),
            post.instances_map().contains_key(root),
            post.instances_map()[root].is_cleared(),
            reachable(pre, root, id, n),
        ensures
            post.instances_map().contains_key(id),
            post.instances_map()[id].is_cleared(),
        decreases n,
    {
        if root != id {
            let m = choose|m: u128|
                #[trigger] started_child(pre, root, m) && reachable(pre, m, id, (n - 1) as nat);
            assert(post.instances_map().contains_key(m) && post.instances_map()[m].is_cleared());
            assert(pre.instances_map().contains_key(m)) by {
                assert(pre.instances_map().dom() == post.instances_map().dom());
            }
            Self::lemma_kill_zeroes_descendants(pre, post, m, id, (n - 1) as nat);
        }
    }

    /// Overwrite the primary marking of one instance record.
    fn put_marking(&mut self, case: u128, n_marking: u128) -> (r: Result<(), Errors>)
        requires
            old(self).wf(),
        ensures
            final(self).wf(),
            final(self).flows_map() == old(self).flows_map(),
            final(self).events_seq() == old(self).events_seq(),
            final(self).script_calls() == old(self).script_calls(),
            match r {
                Ok(()) => {
                    &&& old(self).instances_map().contains_key(case)
                    &&& final(self).instances_map() == old(self).instances_map().insert(
                        case,
                        final(self).instances_map()[case],
                    )
                    &&& final(self).instances_map().dom() == old(self).instances_map().dom()
                    &&& forall|c: u128|
                        c != case && #[trigger] old(self).instances_map().contains_key(c) ==> final(self).instances_map()[c] == old(self).instances_map()[c]
                    &&& final(self).instances_map()[case].tokens() == n_marking
                    &&& final(self).instances_map()[case].started() == old(self).instances_map()[case].started()
                    &&& Idata::same_but_markings(
                        old(self).instances_map()[case],
                        final(self).instances_map()[case],
                    )
                    &&& n_marking == old(self).instances_map()[case].tokens() ==> final(self).instances_map() == old(self).instances_map()
                },
                Err(e) => e == Errors::InstanceNotFound && !old(self).instances_map().contains_key(
                    case,
                ) && final(self).instances_map() == old(self).instances_map(),
            },
    {
        match self.instances.take(case) {
            Some(mut d) => {
                let ghost d0 = d;
                d.set_marking(n_marking);
                self.instances.insert(case, d);
                proof {
                    Self::lemma_take_insert(old(self).instances_map(), case, d);
                    assert(self.instances_map().dom() =~= old(self).instances_map().dom());
                    if n_marking == d0.tokens() {
                        assert(d == d0);
                        assert(self.instances_map() =~= old(self).instances_map());
                    }
                }
                Ok(())
            },
            None => Err(Errors::InstanceNotFound),
        }
    }

    /// Overwrite the started-activities marking of one instance record.
    fn put_activity_marking(&mut self, case: u128, n_marking: u128) -> (r: Result<(), Errors>)
        requires
            old(self).wf(),
        ensures
            final(self).wf(),
            final(self).flows_map() == old(self).flows_map(),
            final(self).events_seq() == old(self).events_seq(),
            final(self).script_calls() == old(self).script_calls(),
            match r {
                Ok(()) => {
                    &&& old(self).instances_map().contains_key(case)
                    &&& final(self).instances_map() == old(self).instances_map().insert(
                        case,
                        final(self).instances_map()[case],
                    )
                    &&& final(self).instances_map().dom() == old(self).instances_map().dom()
                    &&& forall|c: u128|
                        c != case && #[trigger] old(self).instances_map().contains_key(c) ==> final(self).instances_map()[c] == old(self).instances_map()[c]
                    &&& final(self).instances_map()[case].started() == n_marking
                    &&& final(self).instances_map()[case].tokens() == old(self).instances_map()[case].tokens()
                    &&& Idata::same_but_markings(
                        old(self).instances_map()[case],
                        final(self).instances_map()[case],
                    )
                    &&& n_marking == old(self).instances_map()[case].started() ==> final(self).instances_map() == old(self).instances_map()
                },
                Err(e) => e == Errors::InstanceNotFound && !old(self).instances_map().contains_key(
                    case,
                ) && final(self).instances_map() == old(self).instances_map(),
            },
    {
        match self.instances.take(case) {
            Some(mut d) => {
                let ghost d0 = d;
                d.set_activity_marking(n_marking);
                self.instances.insert(case, d);
                proof {
                    Self::lemma_take_insert(old(self).instances_map(), case, d);
                    assert(self.instances_map().dom() =~= old(self).instances_map().dom());
                    if n_marking == d0.started() {
                        assert(d == d0);
                        assert(self.instances_map() =~= old(self).instances_map());
                    }
                }
                Ok(())
            },
            None => Err(Errors::InstanceNotFound),
        }
    }

    /// Overwrite both markings of one instance record.
    fn put_both_markings(&mut self, case: u128, tokens: u128, started: u128) -> (r: Result<
        (),
        Errors,
    >)
        requires
            old(self).wf(),
        ensures
            final(self).wf(),
            final(self).flows_map() == old(self).flows_map(),
            final(self).events_seq() == old(self).events_seq(),
            final(self).script_calls() == old(self).script_calls(),
            match r {
                Ok(()) => {
                    &&& old(self).instances_map().contains_key(case)
                    &&& final(self).instances_map() == old(self).instances_map().insert(
                        case,
                        final(self).instances_map()[case],
                    )
                    &&& final(self).instances_map().dom() == old(self).instances_map().dom()
                    &&& forall|c: u128|
                        c != case && #[trigger] old(self).instances_map().contains_key(c) ==> final(self).instances_map()[c] == old(self).instances_map()[c]
                    &&& final(self).instances_map()[case].tokens() == tokens
                    &&& final(self).instances_map()[case].started() == started
                    &&& Idata::same_but_markings(
                        old(self).instances_map()[case],
                        final(self).instances_map()[case],
                    )
                    &&& (tokens == old(self).instances_map()[case].tokens() && started == old(self).instances_map()[case].started()) ==> final(self).instances_map() == old(self).instances_map()
                },
                Err(e) => e == Errors::InstanceNotFound && !old(self).instances_map().contains_key(
                    case,
                ) && final(self).instances_map() == old(self).instances_map(),
            },
    {
        match self.instances.take(case) {
            Some(mut d) => {
                let ghost d0 = d;
                d.set_marking(tokens);
                d.set_activity_marking(started);
                self.instances.insert(case, d);
                proof {
                    Self::lemma_take_insert(old(self).instances_map(), case, d);
                    assert(self.instances_map().dom() =~= old(self).instances_map().dom());
                    if tokens == d0.tokens() && started == d0.started() {
                        assert(d == d0);
                        assert(self.instances_map() =~= old(self).instances_map());
                    }
                }
                Ok(())
            },
            None => Err(Errors::InstanceNotFound),
        }
    }

    /// Overwrite the pending instance count of one element in a record.
    fn put_instance_count(&mut self, case: u128, element_index: u128, n: u128) -> (r: Result<
        (),
        Errors,
    >)
        requires
            old(self).wf(),
        ensures
            final(self).wf(),
            final(self).flows_map() == old(self).flows_map(),
            final(self).events_seq() == old(self).events_seq(),
            final(self).script_calls() == old(self).script_calls(),
            match r {
                Ok(()) => {
                    &&& old(self).instances_map().contains_key(case)
                    &&& final(self).instances_map() == old(self).instances_map().insert(
                        case,
                        final(self).instances_map()[case],
                    )
                    &&& final(self).instances_map().dom() == old(self).instances_map().dom()
                    &&& forall|c: u128|
                        c != case && #[trigger] old(self).instances_map().contains_key(c) ==> final(self).instances_map()[c] == old(self).instances_map()[c]
                    &&& final(self).instances_map()[case].count_of(element_index) == n
                    &&& forall|e: u128|
                        e != element_index ==> final(self).instances_map()[case].count_of(e) == old(self).instances_map()[case].count_of(e)
                    &&& final(self).instances_map()[case].tokens() == old(self).instances_map()[case].tokens()
                    &&& final(self).instances_map()[case].started() == old(self).instances_map()[case].started()
                    &&& final(self).instances_map()[case].children_map() == old(self).instances_map()[case].children_map()
                    &&& final(self).instances_map()[case].parent_id() == old(self).instances_map()[case].parent_id()
                    &&& final(self).instances_map()[case].flow_node() == old(self).instances_map()[case].flow_node()
                    &&& final(self).instances_map()[case].index() == old(self).instances_map()[case].index()
                },
                Err(e) => e == Errors::InstanceNotFound && !old(self).instances_map().contains_key(
                    case,
                ) && final(self).instances_map() == old(self).instances_map(),
            },
    {
        match self.instances.take(case) {
            Some(mut d) => {
                d.set_instance_count(element_index, n);
                self.instances.insert(case, d);
                proof {
                    Self::lemma_take_insert(old(self).instances_map(), case, d);
                    assert(self.instances_map().dom() =~= old(self).instances_map().dom());
                }
                Ok(())
            },
            None => Err(Errors::InstanceNotFound),
        }
    }

    /// Decrement the pending instance count of one element in a record
    /// (floored at zero, missing entries stay missing).
    fn dec_instance_count(&mut self, case: u128, element_index: u128) -> (r: Result<(), Errors>)
        requires
            old(self).wf(),
        ensures
            final(self).wf(),
            final(self).flows_map() == old(self).flows_map(),
            final(self).events_seq() == old(self).events_seq(),
            final(self).script_calls() == old(self).script_calls(),
            match r {
                Ok(()) => {
                    &&& old(self).instances_map().contains_key(case)
                    &&& final(self).instances_map() == old(self).instances_map().insert(
                        case,
                        final(self).instances_map()[case],
                    )
                    &&& final(self).instances_map().dom() == old(self).instances_map().dom()
                    &&& forall|c: u128|
                        c != case && #[trigger] old(self).instances_map().contains_key(c) ==> final(self).instances_map()[c] == old(self).instances_map()[c]
                    &&& final(self).instances_map()[case].count_of(element_index)
                        == Idata::decremented(old(self).instances_map()[case].count_of(element_index))
                    &&& forall|e: u128|
                        e != element_index ==> final(self).instances_map()[case].count_of(e) == old(self).instances_map()[case].count_of(e)
                    &&& final(self).instances_map()[case].tokens() == old(self).instances_map()[case].tokens()
                    &&& final(self).instances_map()[case].started() == old(self).instances_map()[case].started()
                    &&& final(self).instances_map()[case].children_map() == old(self).instances_map()[case].children_map()
                    &&& final(self).instances_map()[case].parent_id() == old(self).instances_map()[case].parent_id()
                    &&& final(self).instances_map()[case].flow_node() == old(self).instances_map()[case].flow_node()
                    &&& final(self).instances_map()[case].index() == old(self).instances_map()[case].index()
                },
                Err(e) => e == Errors::InstanceNotFound && !old(self).instances_map().contains_key(
                    case,
                ) && final(self).instances_map() == old(self).instances_map(),
            },
    {
        match self.instances.take(case) {
            Some(mut d) => {
                d.decrement_instance_count(element_index);
                self.instances.insert(case, d);
                proof {
                    Self::lemma_take_insert(old(self).instances_map(), case, d);
                    assert(self.instances_map().dom() =~= old(self).instances_map().dom());
                }
                Ok(())
            },
            None => Err(Errors::InstanceNotFound),
        }
    }

    /// Record a new live child under one element of a record.
    fn put_add_child(&mut self, case: u128, element_index: u128, child_id: u128) -> (r: Result<
        (),
        Errors,
    >)
        requires
            old(self).wf(),
        ensures
            final(self).wf(),
            final(self).flows_map() == old(self).flows_map(),
            final(self).events_seq() == old(self).events_seq(),
            final(self).script_calls() == old(self).script_calls(),
            match r {
                Ok(()) => {
                    &&& old(self).instances_map().contains_key(case)
                    &&& final(self).instances_map() == old(self).instances_map().insert(
                        case,
                        final(self).instances_map()[case],
                    )
                    &&& final(self).instances_map().dom() == old(self).instances_map().dom()
                    &&& forall|c: u128|
                        c != case && #[trigger] old(self).instances_map().contains_key(c) ==> final(self).instances_map()[c] == old(self).instances_map()[c]
                    &&& final(self).instances_map()[case].children_of(element_index) == old(self).instances_map()[case].children_of(element_index).push(child_id)
                    &&& forall|e: u128|
                        e != element_index ==> final(self).instances_map()[case].children_of(e)
                            == old(self).instances_map()[case].children_of(e)
                    &&& final(self).instances_map()[case].count_of(element_index)
                        == Idata::incremented(old(self).instances_map()[case].count_of(element_index))
                    &&& forall|e: u128|
                        e != element_index ==> final(self).instances_map()[case].count_of(e) == old(self).instances_map()[case].count_of(e)
                    &&& final(self).instances_map()[case].tokens() == old(self).instances_map()[case].tokens()
                    &&& final(self).instances_map()[case].started() == old(self).instances_map()[case].started()
                    &&& final(self).instances_map()[case].parent_id() == old(self).instances_map()[case].parent_id()
                    &&& final(self).instances_map()[case].flow_node() == old(self).instances_map()[case].flow_node()
                    &&& final(self).instances_map()[case].index() == old(self).instances_map()[case].index()
                },
                Err(e) => e == Errors::InstanceNotFound && !old(self).instances_map().contains_key(
                    case,
                ) && final(self).instances_map() == old(self).instances_map(),
            },
    {
        match self.instances.take(case) {
            Some(mut d) => {
                d.add_child(element_index, child_id);
                self.instances.insert(case, d);
                proof {
                    Self::lemma_take_insert(old(self).instances_map(), case, d);
                    assert(self.instances_map().dom() =~= old(self).instances_map().dom());
                }
                Ok(())
            },
            None => Err(Errors::InstanceNotFound),
        }
    }

    /// Terminate one instance and, recursively, every live child instance
    /// under a started sub-process element: both markings are zeroed and
    /// nothing else changes anywhere.
    pub fn kill_process(&mut self, parent_case: u128, fuel: u64) -> (r: Result<(), Errors>)
        requires
            old(self).wf(),
        ensures
            final(self).wf(),
            final(self).flows_map() == old(self).flows_map(),
            final(self).events_seq() == old(self).events_seq(),
            final(self).script_calls() == old(self).script_calls(),
            kill_frame(old(self).instances_map(), final(self).instances_map()),
            Self::step_frame(*old(self), *final(self)),
            r is Ok ==> final(self).instances_map().contains_key(parent_case) && final(self).instances_map()[parent_case].is_cleared(),
            r is Ok ==> kill_closed(*old(self), *final(self)),
            kill_succeeds(
                old(self).instances_map(),
                old(self).flows_map(),
                parent_case,
                fuel,
            ) ==> r is Ok,
            (fuel > 0 && old(self).instances_map().contains_key(parent_case) && old(self).flows_map().contains_key(old(self).instances_map()[parent_case].flow_node()) && old(self).instances_map()[parent_case].started() == 0) ==> r is Ok && forall|c: u128|
                c != parent_case && #[trigger] old(self).instances_map().contains_key(c) ==> final(self).instances_map()[c] == old(self).instances_map()[c],
        decreases fuel,
    {
        proof {
            Self::lemma_kill_frame_refl(old(self).instances_map());
            Self::lemma_prefix_refl(old(self).events_seq());
            Self::lemma_frame_local(*old(self), *old(self));
        }
        if fuel == 0 {
            return Err(Errors::RecursionLimit);
        }
        let (started, flow_id) = match self.instances.get(parent_case) {
            Some(d) => (d.get_started_activities(), d.get_flow_node()),
            None => return Err(Errors::InstanceNotFound),
        };
        let children_elems: Vec<u128> = match self.flows.get(flow_id) {
            Some(f) => f.get_sub_process_list(),
            None => return Err(Errors::InstanceNotFound),
        };
        proof {
            assert(old(self).flows_map()[flow_id].wf());
        }
        // snapshot the child lists before zeroing, as the interpreter works
        // on its entry-time copy of the record
        let mut lists: Vec<Vec<u128>> = Vec::new();
        let mut i: usize = 0;
        while i < children_elems.len()
            invariant
                self.wf(),
                *self == *old(self),
                i <= children_elems@.len(),
                lists@.len() == i,
                old(self).instances_map().contains_key(parent_case),
                forall|x: int|
                    0 <= x < i ==> #[trigger] lists@[x]@ == old(self).instances_map()[parent_case].children_of(children_elems@[x]),
            decreases children_elems@.len() - i,
        {
            let lst = match self.instances.get(parent_case) {
                Some(d) => d.get_child_process_instances(children_elems[i]),
                None => return Err(Errors::InstanceNotFound),
            };
            lists.push(lst);
            i += 1;
        }
        // zero both markings of this instance
        self.put_both_markings(parent_case, 0, 0)?;
        proof {
            assert(kill_frame(old(self).instances_map(), self.instances_map()));
            Self::lemma_kill_closed_except_init(*old(self), *self, parent_case);
        }
        // recurse into every started child
        let ghost s0 = *old(self);
        let mut j: usize = 0;
        while j < children_elems.len()
            invariant
                self.wf(),
                j <= children_elems@.len(),
                lists@.len() == children_elems@.len(),
                s0 == *old(self),
                self.flows_map() == s0.flows_map(),
                self.events_seq() == s0.events_seq(),
                kill_frame(s0.instances_map(), self.instances_map()),
                kill_closed_except(s0, *self, parent_case),
                s0.instances_map().contains_key(parent_case),
                s0.flows_map().contains_key(s0.instances_map()[parent_case].flow_node()),
                self.instances_map()[parent_case].is_cleared(),
                self.script_calls() == s0.script_calls(),
                started == s0.instances_map()[parent_case].started(),
                children_elems@ == flow_of(s0, parent_case).subs(),
                started == 0 ==> forall|c: u128|
                    c != parent_case && #[trigger] s0.instances_map().contains_key(c)
                        ==> self.instances_map()[c] == s0.instances_map()[c],
                fuel >= 1,
                forall|x: int|
                    0 <= x < children_elems@.len() ==> #[trigger] children_elems@[x] < 128,
                forall|x: int|
                    0 <= x < children_elems@.len() ==> #[trigger] lists@[x]@ == s0.instances_map()[parent_case].children_of(children_elems@[x]),
                forall|id: u128|
                    #[trigger] started_child_upto(s0, parent_case, id, j as int)
                        ==> self.instances_map().contains_key(id)
                        && self.instances_map()[id].is_cleared(),
            decreases children_elems@.len() - j,
        {
            let e = children_elems[j];
            if started & (1u128 << e) != 0 {
                proof {
                    if started == 0 {
                        assert(0u128 & (1u128 << e) == 0) by (bit_vector);
                        assert(false);
                    }
                }
                let ghost mid = *self;
                let sub = self.kill_processes(&lists[j], fuel - 1);
                proof {
                    Self::lemma_kill_frame_trans(
                        s0.instances_map(),
                        mid.instances_map(),
                        self.instances_map(),
                    );
                    assert(self.instances_map()[parent_case].is_cleared());
                }
                if let Err(e) = sub {
                    proof {
                        Self::lemma_prefix_refl(s0.events_seq());
                        Self::lemma_frame_local(s0, *self);
                        if kill_succeeds(s0.instances_map(), s0.flows_map(), parent_case, fuel) {
                            // success was owed: the list walk below this
                            // element cannot have run out of fuel
                            assert(kill_list_succeeds(
                                s0.instances_map(),
                                s0.flows_map(),
                                s0.instances_map()[parent_case].children_of(
                                    flow_of(s0, parent_case).subs()[j as int],
                                ),
                                (fuel - 1) as u64,
                            ));
                            Self::lemma_kill_list_succeeds_preserved(
                                s0.instances_map(),
                                mid.instances_map(),
                                s0.flows_map(),
                                lists@[j as int]@,
                                (fuel - 1) as u64,
                            );
                            assert(false);
                        }
                    }
                    return Err(e);
                }
                proof {
                    Self::lemma_kill_closed_step_except(s0, mid, *self, parent_case);
                    assert forall|id: u128| #[trigger] started_child_upto(
                        s0,
                        parent_case,
                        id,
                        j + 1,
                    ) implies self.instances_map().contains_key(id)
                        && self.instances_map()[id].is_cleared() by {
                        let (ix, jx) = choose|ix: int, jx: int|
                            #![trigger child_at(s0, parent_case, ix, jx)]
                            0 <= ix < j + 1 && ix < flow_of(s0, parent_case).subs().len()
                                && s0.instances_map()[parent_case].started() & (1u128 << flow_of(
                                s0,
                                parent_case,
                            ).subs()[ix]) != 0 && 0 <= jx < s0.instances_map()[parent_case].children_of(
                                flow_of(s0, parent_case).subs()[ix],
                            ).len() && child_at(s0, parent_case, ix, jx) == id;
                        if ix < j {
                            assert(started_child_upto(s0, parent_case, id, j as int));
                            assert(mid.instances_map().contains_key(id));
                            assert(mid.instances_map()[id].is_cleared());
                            assert(self.instances_map().contains_key(id));
                            assert(self.instances_map()[id].is_cleared());
                        } else {
                            assert(ix == j);
                            assert(children_elems@[j as int] == flow_of(s0, parent_case).subs()[j as int]);
                            assert(lists@[j as int]@ == s0.instances_map()[parent_case].children_of(
                                children_elems@[j as int],
                            ));
                            assert(lists@[j as int]@[jx] == id);
                            assert(self.instances_map().contains_key(id));
                            assert(self.instances_map()[id].is_cleared());
                        }
                    }
                }
            } else {
                proof {
                    assert forall|id: u128| #[trigger] started_child_upto(
                        s0,
                        parent_case,
                        id,
                        j + 1,
                    ) implies self.instances_map().contains_key(id)
                        && self.instances_map()[id].is_cleared() by {
                        let (ix, jx) = choose|ix: int, jx: int|
                            #![trigger child_at(s0, parent_case, ix, jx)]
                            0 <= ix < j + 1 && ix < flow_of(s0, parent_case).subs().len()
                                && s0.instances_map()[parent_case].started() & (1u128 << flow_of(
                                s0,
                                parent_case,
                            ).subs()[ix]) != 0 && 0 <= jx < s0.instances_map()[parent_case].children_of(
                                flow_of(s0, parent_case).subs()[ix],
                            ).len() && child_at(s0, parent_case, ix, jx) == id;
                        if ix == j {
                            assert(children_elems@[j as int] == flow_of(s0, parent_case).subs()[j as int]);
                            assert(false);
                        } else {
                            assert(started_child_upto(s0, parent_case, id, j as int));
                        }
                    }
                }
            }
            j += 1;
        }
        proof {
            Self::lemma_prefix_refl(s0.events_seq());
            Self::lemma_frame_local(s0, *self);
            assert forall|c: u128, id: u128|
                s0.instances_map().contains_key(c) && self.instances_map().contains_key(c)
                    && self.instances_map()[c].is_cleared() && #[trigger] started_child(s0, c, id)
                implies self.instances_map().contains_key(id)
                && self.instances_map()[id].is_cleared() by {
                if c == parent_case {
                    assert(started_child_upto(
                        s0,
                        parent_case,
                        id,
                        children_elems@.len() as int,
                    ));
                }
            }
            assert(kill_closed(s0, *self));
        }
        Ok(())
    }

    /// Kill a list of instances in order.
    fn kill_processes(&mut self, parent_cases: &Vec<u128>, fuel: u64) -> (r: Result<(), Errors>)
        requires
            old(self).wf(),
        ensures
            final(self).wf(),
            final(self).flows_map() == old(self).flows_map(),
            final(self).events_seq() == old(self).events_seq(),
            kill_frame(old(self).instances_map(), final(self).instances_map()),
            Self::step_frame(*old(self), *final(self)),
            final(self).script_calls() == old(self).script_calls(),
            r is Ok ==> forall|x: int|
                0 <= x < parent_cases@.len() ==> final(self).instances_map().contains_key(
                    #[trigger] parent_cases@[x],
                ) && final(self).instances_map()[parent_cases@[x]].is_cleared(),
            r is Ok ==> kill_closed(*old(self), *final(self)),
            kill_list_succeeds(
                old(self).instances_map(),
                old(self).flows_map(),
                parent_cases@,
                fuel,
            ) ==> r is Ok,
        decreases fuel,
    {
        proof {
            Self::lemma_kill_frame_refl(old(self).instances_map());
            Self::lemma_prefix_refl(old(self).events_seq());
            Self::lemma_frame_local(*old(self), *old(self));
            Self::lemma_kill_closed_refl(*old(self));
        }
        if fuel == 0 {
            return Err(Errors::RecursionLimit);
        }
        let ghost s0 = *old(self);
        let mut i: usize = 0;
        while i < parent_cases.len()
            invariant
                self.wf(),
                i <= parent_cases@.len(),
                s0 == *old(self),
                self.flows_map() == s0.flows_map(),
                self.events_seq() == s0.events_seq(),
                kill_frame(s0.instances_map(), self.instances_map()),
                kill_closed(s0, *self),
                self.script_calls() == s0.script_calls(),
                fuel >= 1,
                forall|x: int|
                    0 <= x < i ==> self.instances_map().contains_key(#[trigger] parent_cases@[x])
                        && self.instances_map()[parent_cases@[x]].is_cleared(),
            decreases parent_cases@.len() - i,
        {
            let ghost mid = *self;
            let sub = self.kill_process(parent_cases[i], fuel - 1);
            proof {
                Self::lemma_kill_frame_trans(
                    s0.instances_map(),
                    mid.instances_map(),
                    self.instances_map(),
                );
            }
            if let Err(e) = sub {
                proof {
                    Self::lemma_prefix_refl(s0.events_seq());
                    Self::lemma_frame_local(s0, *self);
                    if kill_list_succeeds(
                        s0.instances_map(),
                        s0.flows_map(),
                        parent_cases@,
                        fuel,
                    ) {
                        Self::lemma_kill_succeeds_preserved(
                            s0.instances_map(),
                            mid.instances_map(),
                            s0.flows_map(),
                            parent_cases@[i as int],
                            (fuel - 1) as u64,
                        );
                        assert(false);
                    }
                }
                return Err(e);
            }
            proof {
                Self::lemma_kill_closed_step(s0, mid, *self);
                assert forall|x: int| 0 <= x < i + 1 implies self.instances_map().contains_key(
                    #[trigger] parent_cases@[x],
                ) && self.instances_map()[parent_cases@[x]].is_cleared() by {
                    if x < i {
                        assert(mid.instances_map().contains_key(parent_cases@[x]));
                        assert(mid.instances_map()[parent_cases@[x]].is_cleared());
                    }
                }
            }
            i += 1;
        }
        proof {
            Self::lemma_prefix_refl(s0.events_seq());
            Self::lemma_frame_local(s0, *self);
        }
        Ok(())
    }

    /// A step that changed neither registry's keys nor the flows nor the
    /// notifications keeps the step frame.
    proof fn lemma_frame_step_local(pre: Module, post: Module)
        requires
            post.wf(),
            post.flows_map() == pre.flows_map(),
            post.events_seq() == pre.events_seq(),
            post.instances_map().dom() == pre.instances_map().dom(),
        ensures
            Self::step_frame(pre, post),
    {
        Self::lemma_prefix_refl(pre.events_seq());
        assert forall|c: u128| #[trigger] pre.instances_map().contains_key(c)
            implies post.instances_map().contains_key(c) by {}
        Self::lemma_frame_local(pre, post);
    }

    /// Refreshing one flow in place (same graph, address at most cached)
    /// preserves flow well-formedness and the graph frame.
    proof fn lemma_flow_refresh(a: Map<u128, Iflow>, k: u128, f1: Iflow)
        requires
            flows_wf(a),
            a.contains_key(k),
            f1.wf(),
            Iflow::same_graph(a[k], f1),
            Ifactory::addr_monotone(a[k].factory_of(), f1.factory_of()),
        ensures
            flows_wf(a.insert(k, f1)),
            a.remove(k).insert(k, f1) == a.insert(k, f1),
            graph_preserved(a, a.insert(k, f1)),
    {
        assert(a.remove(k).insert(k, f1) =~= a.insert(k, f1));
        Self::lemma_flows_wf_insert(a, k, f1);
        assert(a.insert(k, f1).dom() =~= a.dom());
        assert forall|x: u128| #[trigger] a.contains_key(x) implies Iflow::same_graph(
            a[x],
            a.insert(k, f1)[x],
        ) && Ifactory::addr_monotone(a[x].factory_of(), a.insert(k, f1)[x].factory_of()) by {
            if x != k {
                assert(a.insert(k, f1)[x] == a[x]);
            }
        }
    }

    /// The root of the instance tree above `case`, following parent links
    /// at most `fuel` steps.
    fn find_root(&self, case: u128, fuel: u64) -> (r: Result<u128, Errors>)
        requires
            self.wf(),
        ensures
            r matches Ok(root) ==> self.instances_map().contains_key(root),
        decreases fuel,
    {
        match self.instances.get(case) {
            Some(d) => match d.get_idata_parent() {
                Some(p) => {
                    if fuel == 0 {
                        Err(Errors::RecursionLimit)
                    } else {
                        self.find_root(p, fuel - 1)
                    }
                },
                None => Ok(case),
            },
            None => Err(Errors::InstanceNotFound),
        }
    }

    /// Handle a throw event of `parent_case`. A message event only
    /// publishes its code; an end event of a drained sub-process completes
    /// it on the parent; a terminate event kills the sub-tree first; every
    /// other throw is offered to the parent for catching.
    fn throw_event<H: Host>(
        &mut self,
        host: &mut H,
        parent_case: u128,
        event_code: [u8; 32],
        event_info: u128,
        fuel: u64,
    ) -> (r: Result<(), Errors>)
        requires
            old(self).wf(),
        ensures
            final(self).wf(),
            Self::step_frame(*old(self), *final(self)),
            event_info & 4096 == 4096 && r is Ok ==> final(self).events_seq() == old(self).events_seq().push(InterpreterEvent::MessageSent(event_code)) && final(self).instances_map()
                == old(self).instances_map() && final(self).flows_map() == old(self).flows_map(),
            (fuel > 0 && old(self).instances_map().contains_key(parent_case) && event_info & 4096
                == 4096) ==> r is Ok,
            ({
                &&& fuel >= 2
                &&& old(self).instances_map().contains_key(parent_case)
                &&& old(self).instances_map()[parent_case].parent_id() is None
                &&& old(self).flows_map().contains_key(old(self).instances_map()[parent_case].flow_node())
                &&& old(self).instances_map()[parent_case].started() == 0
                &&& event_info & 4096 != 4096
                &&& !(event_info & 5632 == 5632)
                &&& event_info & 2048 == 2048
                &&& event_info & 8192 != 8192
            }) ==> {
                &&& r is Ok
                &&& final(self).flows_map() == old(self).flows_map()
                &&& final(self).events_seq() == old(self).events_seq()
                &&& final(self).script_calls() == old(self).script_calls()
                &&& final(self).instances_map().dom() == old(self).instances_map().dom()
                &&& forall|c: u128|
                    c != parent_case && #[trigger] old(self).instances_map().contains_key(c)
                        ==> final(self).instances_map()[c] == old(self).instances_map()[c]
                &&& final(self).instances_map()[parent_case].is_cleared()
                &&& Idata::same_but_markings(
                    old(self).instances_map()[parent_case],
                    final(self).instances_map()[parent_case],
                )
            },
        decreases fuel,
    {
        proof {
            Self::lemma_frame_refl(*old(self));
        }
        if fuel == 0 {
            return Err(Errors::RecursionLimit);
        }
        let (m, s) = match self.instances.get(parent_case) {
            Some(d) => (d.get_marking(), d.get_started_activities()),
            None => return Err(Errors::InstanceNotFound),
        };
        if event_info & 4096 == 4096 {
            // message event: publish the code in the event log
            self.emitted.push(InterpreterEvent::MessageSent(event_code));
            proof {
                Self::lemma_prefix_push(
                    old(self).events_seq(),
                    InterpreterEvent::MessageSent(event_code),
                );
                Self::lemma_frame_local(*old(self), *self);
            }
            Ok(())
        } else if event_info & 5632 == 5632 {
            // end of a sub-process: continue on the parent only once this
            // instance has fully drained
            if m | s == 0 {
                self.try_catch_event(host, parent_case, event_code, event_info, true, fuel - 1)
            } else {
                Ok(())
            }
        } else {
            if event_info & 2048 == 2048 {
                // terminate event: end this sub-process and its children
                let sub = self.kill_process(parent_case, fuel - 1);
                if let Err(er) = sub {
                    return Err(er);
                }
            }
            let ghost mid = *self;
            let sub = self.try_catch_event(
                host,
                parent_case,
                event_code,
                event_info,
                m | s == 0,
                fuel - 1,
            );
            proof {
                Self::lemma_frame_trans(*old(self), mid, *self);
            }
            sub
        }
    }

    /// Try to catch an event thrown by `parent_case` on its parent.
    fn try_catch_event<H: Host>(
        &mut self,
        host: &mut H,
        parent_case: u128,
        event_code: [u8; 32],
        event_info: u128,
        instance_completed: bool,
        fuel: u64,
    ) -> (r: Result<(), Errors>)
        requires
            old(self).wf(),
        ensures
            final(self).wf(),
            Self::step_frame(*old(self), *final(self)),
            (fuel > 0 && old(self).instances_map().contains_key(parent_case) && old(self).instances_map()[parent_case].parent_id() is None && event_info & 8192 != 8192) ==> r is Ok
                && final(self).instances_map() == old(self).instances_map() && final(self).flows_map() == old(self).flows_map() && final(self).events_seq() == old(self).events_seq()
                && final(self).script_calls() == old(self).script_calls(),
            ({
                let th = old(self).instances_map()[parent_case];
                &&& fuel > 0
                &&& old(self).instances_map().contains_key(parent_case)
                &&& th.parent_id() is Some
                &&& th.parent_id().unwrap() != parent_case
                &&& old(self).instances_map().contains_key(th.parent_id().unwrap())
                &&& old(self).flows_map().contains_key(th.flow_node())
                &&& event_info & 7168 != 0
                &&& instance_completed
                &&& ({
                    let p = th.parent_id().unwrap();
                    let run = Idata::decremented(
                        old(self).instances_map()[p].count_of(th.index()),
                    );
                    let si = old(self).flows_map()[th.flow_node()].count_of(th.index());
                    &&& !(run == 0 && si & 4096 != 4096)
                    &&& si & 128 != 128
                })
            }) ==> ({
                let th = old(self).instances_map()[parent_case];
                let p = th.parent_id().unwrap();
                let sub = th.index();
                let run = Idata::decremented(old(self).instances_map()[p].count_of(sub));
                &&& r is Ok
                &&& final(self).flows_map() == old(self).flows_map()
                &&& final(self).events_seq() == old(self).events_seq()
                &&& final(self).script_calls() == old(self).script_calls()
                &&& final(self).instances_map().dom() == old(self).instances_map().dom()
                &&& forall|c: u128|
                    c != p && #[trigger] old(self).instances_map().contains_key(c) ==> final(self).instances_map()[c] == old(self).instances_map()[c]
                &&& final(self).instances_map()[p].count_of(sub) == run
                &&& forall|e: u128|
                    e != sub ==> final(self).instances_map()[p].count_of(e) == old(self).instances_map()[p].count_of(e)
                &&& final(self).instances_map()[p].tokens() == old(self).instances_map()[p].tokens()
                &&& final(self).instances_map()[p].started() == (if run == 0 {
                    old(self).instances_map()[p].started() & !((1u128 << 1) << sub)
                } else {
                    old(self).instances_map()[p].started()
                })
                &&& final(self).instances_map()[p].children_map() == old(self).instances_map()[p].children_map()
                &&& final(self).instances_map()[p].parent_id() == old(self).instances_map()[p].parent_id()
                &&& final(self).instances_map()[p].flow_node() == old(self).instances_map()[p].flow_node()
                &&& final(self).instances_map()[p].index() == old(self).instances_map()[p].index()
            }),
            ({
                let th = old(self).instances_map()[parent_case];
                let cf = old(self).flows_map()[th.flow_node()];
                let choice = cf.catch_choice(event_code@, th.index());
                &&& fuel >= 2
                &&& old(self).instances_map().contains_key(parent_case)
                &&& th.parent_id() is Some
                &&& th.parent_id().unwrap() != parent_case
                &&& old(self).instances_map().contains_key(th.parent_id().unwrap())
                &&& old(self).flows_map().contains_key(th.flow_node())
                &&& event_info & 7168 == 0
                &&& event_info & 32768 != 32768
                &&& !instance_completed
                &&& old(self).instances_map()[th.parent_id().unwrap()].count_of(th.index()) != 0
                &&& choice is Some
                &&& cf.type_of(choice.unwrap()) & 6 != 6
                &&& cf.type_of(choice.unwrap()) & 16 == 16
                &&& cf.next_of(choice.unwrap()).len() == 0
                &&& th.started() == 0
            }) ==> ({
                let th = old(self).instances_map()[parent_case];
                let p = th.parent_id().unwrap();
                let cf = old(self).flows_map()[th.flow_node()];
                let ev = cf.catch_choice(event_code@, th.index()).unwrap();
                &&& r is Ok
                &&& final(self).flows_map() == old(self).flows_map()
                &&& final(self).events_seq() == old(self).events_seq()
                &&& final(self).script_calls() == old(self).script_calls()
                &&& final(self).instances_map().dom() == old(self).instances_map().dom()
                &&& forall|c: u128|
                    c != parent_case && c != p && #[trigger] old(self).instances_map().contains_key(c) ==> final(self).instances_map()[c] == old(self).instances_map()[c]
                &&& final(self).instances_map()[parent_case].is_cleared()
                &&& Idata::same_but_markings(
                    old(self).instances_map()[parent_case],
                    final(self).instances_map()[parent_case],
                )
                &&& final(self).instances_map()[p].tokens() == old(self).instances_map()[p].tokens() & !cf.post_of(ev)
                &&& final(self).instances_map()[p].started() == old(self).instances_map()[p].started()
                &&& Idata::same_but_markings(
                    old(self).instances_map()[p],
                    final(self).instances_map()[p],
                )
            }),
            ({
                let th = old(self).instances_map()[parent_case];
                let p = th.parent_id().unwrap();
                let run = Idata::decremented(old(self).instances_map()[p].count_of(th.index()));
                let si = old(self).flows_map()[th.flow_node()].count_of(th.index());
                &&& fuel >= 3
                &&& old(self).instances_map().contains_key(parent_case)
                &&& th.parent_id() is Some
                &&& p != parent_case
                &&& old(self).instances_map().contains_key(p)
                &&& old(self).flows_map().contains_key(th.flow_node())
                &&& event_info & 7168 != 0
                &&& instance_completed
                &&& !(run == 0 && si & 4096 != 4096)
                &&& si & 128 == 128
                &&& Self::create_instance_ready(*old(self), th.index(), parent_case)
                &&& Self::linked_child_case(*old(self), th.index(), parent_case) != p
            }) ==> ({
                let th = old(self).instances_map()[parent_case];
                let p = th.parent_id().unwrap();
                let sub = th.index();
                let run = Idata::decremented(old(self).instances_map()[p].count_of(sub));
                let cfid = Self::linked_child_flow(*old(self), sub, parent_case);
                let a = Self::linked_child_case(*old(self), sub, parent_case);
                let cf2 = old(self).flows_map()[cfid];
                &&& r is Ok
                &&& final(self).flows_map() == old(self).flows_map()
                &&& final(self).events_seq() == old(self).events_seq().push(
                    InterpreterEvent::NewCaseCreated(a),
                )
                &&& final(self).script_calls() == old(self).script_calls()
                &&& final(self).instances_map().dom() == old(self).instances_map().dom().insert(a)
                &&& forall|c: u128|
                    c != p && c != a && c != parent_case && #[trigger] old(self).instances_map().contains_key(c) ==> final(self).instances_map()[c] == old(self).instances_map()[c]
                // the catcher's bookkeeping
                &&& final(self).instances_map()[p].count_of(sub) == run
                &&& final(self).instances_map()[p].tokens() == old(self).instances_map()[p].tokens()
                &&& final(self).instances_map()[p].started() == (if run == 0 {
                    old(self).instances_map()[p].started() & !((1u128 << 1) << sub)
                } else {
                    old(self).instances_map()[p].started()
                })
                &&& final(self).instances_map()[p].children_map() == old(self).instances_map()[p].children_map()
                // the completing instance records the respawned sibling
                &&& final(self).instances_map()[parent_case].children_of(sub) == old(self).instances_map()[parent_case].children_of(sub).push(a)
                &&& final(self).instances_map()[parent_case].count_of(sub) == Idata::incremented(
                    old(self).instances_map()[parent_case].count_of(sub),
                )
                &&& final(self).instances_map()[parent_case].tokens() == old(self).instances_map()[parent_case].tokens()
                &&& final(self).instances_map()[parent_case].started() == old(self).instances_map()[parent_case].started()
                // the fresh sibling
                &&& final(self).instances_map().contains_key(a)
                &&& final(self).instances_map()[a].tokens() == cf2.post_of(cf2.start_event())
                &&& final(self).instances_map()[a].started() == 0
                &&& final(self).instances_map()[a].parent_id() == Some(parent_case)
                &&& final(self).instances_map()[a].flow_node() == cfid
                &&& final(self).instances_map()[a].index() == sub
            }),
            ({
                let th = old(self).instances_map()[parent_case];
                let p = th.parent_id().unwrap();
                let cf = old(self).flows_map()[th.flow_node()];
                let choice = cf.catch_choice(event_code@, th.index());
                let att = cf.attached_of(choice.unwrap());
                &&& fuel >= 3
                &&& old(self).instances_map().contains_key(parent_case)
                &&& th.parent_id() is Some
                &&& p != parent_case
                &&& old(self).instances_map().contains_key(p)
                &&& old(self).flows_map().contains_key(th.flow_node())
                &&& event_info & 7168 == 0
                &&& event_info & 32768 != 32768
                &&& !instance_completed
                &&& old(self).instances_map()[p].count_of(th.index()) != 0
                &&& choice is Some
                &&& cf.type_of(choice.unwrap()) & 6 == 6
                &&& cf.type_of(choice.unwrap()) & 16 != 16
                &&& Self::create_instance_ready(*old(self), att, parent_case)
                &&& Self::linked_child_case(*old(self), att, parent_case) != p
            }) ==> ({
                let th = old(self).instances_map()[parent_case];
                let p = th.parent_id().unwrap();
                let cf = old(self).flows_map()[th.flow_node()];
                let ev = cf.catch_choice(event_code@, th.index()).unwrap();
                let att = cf.attached_of(ev);
                let cfid2 = Self::linked_child_flow(*old(self), att, parent_case);
                let a = Self::linked_child_case(*old(self), att, parent_case);
                let cf2 = old(self).flows_map()[cfid2];
                &&& r is Ok
                &&& final(self).flows_map() == old(self).flows_map()
                &&& final(self).events_seq() == old(self).events_seq().push(
                    InterpreterEvent::NewCaseCreated(a),
                )
                &&& final(self).script_calls() == old(self).script_calls()
                &&& final(self).instances_map().dom() == old(self).instances_map().dom().insert(a)
                &&& forall|c: u128|
                    c != p && c != a && c != parent_case && #[trigger] old(self).instances_map().contains_key(c) ==> final(self).instances_map()[c] == old(self).instances_map()[c]
                // the catcher marks the event sub-process as started
                &&& final(self).instances_map()[p].started() == old(self).instances_map()[p].started() | (1u128 << att)
                &&& final(self).instances_map()[p].tokens() == old(self).instances_map()[p].tokens()
                &&& Idata::same_but_markings(
                    old(self).instances_map()[p],
                    final(self).instances_map()[p],
                )
                // the thrower records the new instance (it is handed in as
                // the creation parent)
                &&& final(self).instances_map()[parent_case].children_of(att) == old(self).instances_map()[parent_case].children_of(att).push(a)
                &&& final(self).instances_map()[parent_case].count_of(att) == Idata::incremented(
                    old(self).instances_map()[parent_case].count_of(att),
                )
                &&& final(self).instances_map()[parent_case].tokens() == old(self).instances_map()[parent_case].tokens()
                &&& final(self).instances_map()[parent_case].started() == old(self).instances_map()[parent_case].started()
                // the fresh event-sub-process instance
                &&& final(self).instances_map().contains_key(a)
                &&& final(self).instances_map()[a].tokens() == cf2.post_of(cf2.start_event())
                &&& final(self).instances_map()[a].started() == 0
                &&& final(self).instances_map()[a].parent_id() == Some(parent_case)
                &&& final(self).instances_map()[a].flow_node() == cfid2
                &&& final(self).instances_map()[a].index() == att
            }),
        decreases fuel,
    {
        proof {
            Self::lemma_frame_refl(*old(self));
        }
        if fuel == 0 {
            return Err(Errors::RecursionLimit);
        }
        let (parent_opt, child_flow_id, sub_process_index) = match self.instances.get(parent_case) {
            Some(d) => (d.get_idata_parent(), d.get_flow_node(), d.get_index_in_parent()),
            None => return Err(Errors::InstanceNotFound),
        };
        proof {
            assert(old(self).instances_map()[parent_case].wf());
            assert(sub_process_index < 128);
        }
        let catch_case = match parent_opt {
            Some(c) => c,
            None => {
                // no parent: only an error end event acts on the root
                if event_info & 8192 == 8192 {
                    let sub = self.kill_process(parent_case, fuel - 1);
                    if let Err(er) = sub {
                        return Err(er);
                    }
                }
                return Ok(());
            },
        };
        let (ps0, ps1) = match self.instances.get(catch_case) {
            Some(d) => (d.get_marking(), d.get_started_activities()),
            None => return Err(Errors::InstanceNotFound),
        };
        // pending instances of the completing sub-process on the catcher
        let run_inst_count = if instance_completed {
            let c0 = match self.instances.get(catch_case) {
                Some(d) => d.get_instance_count(sub_process_index),
                None => return Err(Errors::InstanceNotFound),
            };
            let sub = self.dec_instance_count(catch_case, sub_process_index);
            proof {
                Self::lemma_frame_step_local(*old(self), *self);
            }
            if let Err(er) = sub {
                return Err(er);
            }
            if c0 == 0 {
                0
            } else {
                c0 - 1
            }
        } else {
            match self.instances.get(catch_case) {
                Some(d) => d.get_instance_count(sub_process_index),
                None => return Err(Errors::InstanceNotFound),
            }
        };
        if run_inst_count == 0 {
            // mark the sub-process as completed; the activity bit is
            // cleared through a double shift, so bit `sub + 1` is the one
            // that goes out
            let ghost mid = *self;
            let sub = self.put_activity_marking(
                catch_case,
                ps1 & !((1u128 << 1) << sub_process_index),
            );
            proof {
                Self::lemma_frame_step_local(mid, *self);
                Self::lemma_frame_trans(*old(self), mid, *self);
            }
            if let Err(er) = sub {
                return Err(er);
            }
        }
        // the packed count field of the child flow, re-used as flags here
        let sub_process_info = match self.flows.get(child_flow_id) {
            Some(f) => f.get_instance_count(sub_process_index),
            None => return Err(Errors::InstanceNotFound),
        };
        if event_info & 7168 != 0 {
            // default, terminate or message end
            if run_inst_count == 0 && sub_process_info & 4096 != 4096 {
                // the sub-process has no live instances and is not an
                // event sub-process: complete it on the catcher
                let (post_condition, first_ady) = match self.flows.get(child_flow_id) {
                    // the adjacency lookup is keyed by the packed count
                    // field, not by the element index
                    Some(f) => (
                        f.get_post_condition(sub_process_index),
                        f.get_first_ady_element(sub_process_info),
                    ),
                    None => return Err(Errors::InstanceNotFound),
                };
                let ghost mid = *self;
                let subm = self.put_marking(catch_case, ps0 & !post_condition);
                proof {
                    Self::lemma_frame_step_local(mid, *self);
                    Self::lemma_frame_trans(*old(self), mid, *self);
                }
                if let Err(er) = subm {
                    return Err(er);
                }
                if let Some(n0) = first_ady {
                    let ghost mid2 = *self;
                    let sub = self.execute_elements(host, catch_case, n0, fuel - 1);
                    proof {
                        Self::lemma_frame_trans(*old(self), mid2, *self);
                    }
                    if let Err(er) = sub {
                        return Err(er);
                    }
                }
                Ok(())
            } else if sub_process_info & 128 == 128 {
                // sequential multi-instance with pending instances: spawn
                // the next one
                let ghost mid = *self;
                let sub = self.create_instance(host, sub_process_index, parent_case, fuel - 1);
                proof {
                    Self::lemma_frame_trans(*old(self), mid, *self);
                }
                match sub {
                    Ok(_) => Ok(()),
                    Err(er) => Err(er),
                }
            } else {
                Ok(())
            }
        } else {
            // signal, error or escalation
            if event_info & 32768 == 32768 {
                // signals are handled from the root by broadcast
                let root = match self.find_root(parent_case, fuel) {
                    Ok(rt) => rt,
                    Err(er) => return Err(er),
                };
                let ghost mid = *self;
                let sub = self.broadcast_signal(host, root, fuel - 1);
                proof {
                    Self::lemma_frame_trans(*old(self), mid, *self);
                }
                return sub;
            }
            // the first event able to catch the code wins; event
            // sub-process starts precede boundary events in the list
            let choice = match self.flows.get(child_flow_id) {
                Some(f) => f.find_catch_event(&event_code, sub_process_index),
                None => return Err(Errors::InstanceNotFound),
            };
            match choice {
                Some(ev) => {
                    let (catch_ti, attached) = match self.flows.get(child_flow_id) {
                        Some(f) => (f.get_type_info(ev), f.get_attached_to(ev)),
                        None => return Err(Errors::InstanceNotFound),
                    };
                    proof {
                        assert(self.flows_map()[child_flow_id].wf());
                        if self.flows_map()[child_flow_id].attached_map().contains_key(ev) {
                            assert(attached < 128);
                        } else {
                            assert(attached == 0);
                        }
                    }
                    if catch_ti & 6 == 6 {
                        // start of an event sub-process
                        if catch_ti & 16 == 16 {
                            // interrupting: the catcher is killed first
                            let ghost mid = *self;
                            let sub = self.kill_process(catch_case, fuel - 1);
                            proof {
                                Self::lemma_frame_trans(*old(self), mid, *self);
                            }
                            if let Err(er) = sub {
                                return Err(er);
                            }
                        }
                        let ghost mid2 = *self;
                        let sub2 = self.create_instance(host, attached, parent_case, fuel - 1);
                        proof {
                            Self::lemma_frame_trans(*old(self), mid2, *self);
                        }
                        if let Err(er) = sub2 {
                            return Err(er);
                        }
                        let ghost mid3 = *self;
                        let sub3 = self.put_activity_marking(catch_case, ps1 | (1u128 << attached));
                        proof {
                            Self::lemma_frame_step_local(mid3, *self);
                            Self::lemma_frame_trans(*old(self), mid3, *self);
                        }
                        match sub3 {
                            Ok(()) => Ok(()),
                            Err(er) => Err(er),
                        }
                    } else {
                        // boundary event of the completing sub-process
                        if catch_ti & 16 == 16 {
                            // interrupting: the thrower is killed first
                            let ghost mid = *self;
                            let sub = self.kill_process(parent_case, fuel - 1);
                            proof {
                                Self::lemma_frame_trans(*old(self), mid, *self);
                            }
                            if let Err(er) = sub {
                                return Err(er);
                            }
                        }
                        let (post_c, first_ady) = match self.flows.get(child_flow_id) {
                            Some(f) => (f.get_post_condition(ev), f.get_first_ady_element(ev)),
                            None => return Err(Errors::InstanceNotFound),
                        };
                        let ghost mid2 = *self;
                        let sub2 = self.put_marking(catch_case, ps0 & !post_c);
                        proof {
                            Self::lemma_frame_step_local(mid2, *self);
                            Self::lemma_frame_trans(*old(self), mid2, *self);
                        }
                        if let Err(er) = sub2 {
                            return Err(er);
                        }
                        if let Some(n0) = first_ady {
                            let ghost mid3 = *self;
                            let sub3 = self.execute_elements(host, catch_case, n0, fuel - 1);
                            proof {
                                Self::lemma_frame_trans(*old(self), mid3, *self);
                            }
                            if let Err(er) = sub3 {
                                return Err(er);
                            }
                        }
                        Ok(())
                    }
                },
                None => {
                    // not caught here: propagate to the grandparent
                    let ghost mid = *self;
                    let sub = self.throw_event(host, catch_case, event_code, event_info, fuel - 1);
                    proof {
                        Self::lemma_frame_trans(*old(self), mid, *self);
                    }
                    sub
                },
            }
        }
    }

    /// Deliver a broadcast signal to one instance: fire every catching
    /// signal event of its flow, then recurse into every started child.
    fn broadcast_signal<H: Host>(&mut self, host: &mut H, parent_case: u128, fuel: u64) -> (r:
        Result<(), Errors>)
        requires
            old(self).wf(),
        ensures
            final(self).wf(),
            Self::step_frame(*old(self), *final(self)),
            ({
                &&& fuel > 0
                &&& old(self).instances_map().contains_key(parent_case)
                &&& old(self).flows_map().contains_key(old(self).instances_map()[parent_case].flow_node())
                &&& signal_plain(old(self).flows_map()[old(self).instances_map()[parent_case].flow_node()])
                &&& old(self).instances_map()[parent_case].started() == 0
            }) ==> ({
                let fv = old(self).flows_map()[old(self).instances_map()[parent_case].flow_node()];
                &&& r is Ok
                &&& final(self).flows_map() == old(self).flows_map()
                &&& final(self).events_seq() == old(self).events_seq()
                &&& final(self).script_calls() == old(self).script_calls()
                &&& final(self).instances_map().dom() == old(self).instances_map().dom()
                &&& forall|c: u128|
                    c != parent_case && #[trigger] old(self).instances_map().contains_key(c)
                        ==> final(self).instances_map()[c] == old(self).instances_map()[c]
                &&& final(self).instances_map()[parent_case].tokens() == signal_sweep(
                    fv,
                    old(self).instances_map()[parent_case].tokens(),
                    fv.events_list().len() as int,
                )
                &&& final(self).instances_map()[parent_case].started() == 0
                &&& Idata::same_but_markings(
                    old(self).instances_map()[parent_case],
                    final(self).instances_map()[parent_case],
                )
            }),
        decreases fuel,
    {
        proof {
            Self::lemma_frame_refl(*old(self));
        }
        if fuel == 0 {
            return Err(Errors::RecursionLimit);
        }
        let child_flow_id = match self.instances.get(parent_case) {
            Some(d) => d.get_flow_node(),
            None => return Err(Errors::InstanceNotFound),
        };
        let events: Vec<u128> = match self.flows.get(child_flow_id) {
            Some(f) => f.get_event_list(),
            None => return Err(Errors::InstanceNotFound),
        };
        let ghost s0 = *old(self);
        let ghost bfv = s0.flows_map()[s0.instances_map()[parent_case].flow_node()];
        let ghost bm0 = s0.instances_map()[parent_case].tokens();
        let ghost bhyp = fuel > 0 && s0.instances_map().contains_key(parent_case)
            && s0.flows_map().contains_key(s0.instances_map()[parent_case].flow_node())
            && signal_plain(bfv) && s0.instances_map()[parent_case].started() == 0;
        let mut i: usize = 0;
        while i < events.len()
            invariant
                self.wf(),
                s0 == *old(self),
                bfv == s0.flows_map()[s0.instances_map()[parent_case].flow_node()],
                bm0 == s0.instances_map()[parent_case].tokens(),
                bhyp == (fuel > 0 && s0.instances_map().contains_key(parent_case)
                    && s0.flows_map().contains_key(s0.instances_map()[parent_case].flow_node())
                    && signal_plain(bfv) && s0.instances_map()[parent_case].started() == 0),
                Self::step_frame(s0, *self),
                i <= events@.len(),
                fuel >= 1,
                self.flows_map().contains_key(child_flow_id),
                self.instances_map().contains_key(parent_case),
                bhyp ==> events@ == bfv.events_list() && child_flow_id == s0.instances_map()[parent_case].flow_node(),
                bhyp ==> ({
                    &&& self.flows_map() == s0.flows_map()
                    &&& self.events_seq() == s0.events_seq()
                    &&& self.script_calls() == s0.script_calls()
                    &&& self.instances_map().dom() == s0.instances_map().dom()
                    &&& forall|c: u128|
                        c != parent_case && #[trigger] s0.instances_map().contains_key(c)
                            ==> self.instances_map()[c] == s0.instances_map()[c]
                    &&& self.instances_map()[parent_case].tokens() == signal_sweep(
                        bfv,
                        bm0,
                        i as int,
                    )
                    &&& self.instances_map()[parent_case].started() == 0
                    &&& Idata::same_but_markings(
                        s0.instances_map()[parent_case],
                        self.instances_map()[parent_case],
                    )
                }),
            decreases events@.len() - i,
        {
            let ev = events[i];
            let ghost bi = i as int;
            let einfo = match self.flows.get(child_flow_id) {
                Some(f) => f.get_type_info(ev),
                None => {
                    proof {
                        if bhyp {
                            assert(false);
                        }
                    }
                    return Err(Errors::InstanceNotFound);
                },
            };
            proof {
                if bhyp {
                    assert(ev == bfv.events_list()[bi]);
                    assert(einfo == bfv.type_of(ev));
                }
            }
            if einfo & 32780 == 32772 {
                // a catching signal event
                let (attached, post_c, pre_c, first_ady) = match self.flows.get(child_flow_id) {
                    Some(f) => (
                        f.get_attached_to(ev),
                        f.get_post_condition(ev),
                        f.get_pre_condition(ev),
                        f.get_first_ady_element(ev),
                    ),
                    None => {
                        proof {
                            if bhyp {
                                assert(false);
                            }
                        }
                        return Err(Errors::InstanceNotFound);
                    },
                };
                proof {
                    assert(self.flows_map()[child_flow_id].wf());
                    if self.flows_map()[child_flow_id].attached_map().contains_key(ev) {
                        assert(attached < 128);
                    } else {
                        assert(attached == 0);
                    }
                    if bhyp {
                        assert(pre_c == bfv.pre_of(ev));
                        assert(post_c == bfv.post_of(ev));
                    }
                }
                if einfo & 6 == 6 {
                    proof {
                        if bhyp {
                            assert(false);
                        }
                    }
                    // start of an event sub-process
                    if einfo & 16 == 16 {
                        // interrupting: this instance is killed first
                        let ghost mid = *self;
                        let sub = self.kill_process(parent_case, fuel - 1);
                        proof {
                            Self::lemma_frame_trans(s0, mid, *self);
                        }
                        if let Err(er) = sub {
                            return Err(er);
                        }
                    }
                    let ghost mid2 = *self;
                    let sub2 = self.create_instance(host, attached, parent_case, fuel - 1);
                    proof {
                        Self::lemma_frame_trans(s0, mid2, *self);
                    }
                    if let Err(er) = sub2 {
                        return Err(er);
                    }
                    let ghost mid3 = *self;
                    let sub3 = self.put_activity_marking(parent_case, 1u128 << attached);
                    proof {
                        Self::lemma_frame_step_local(mid3, *self);
                        Self::lemma_frame_trans(s0, mid3, *self);
                    }
                    if let Err(er) = sub3 {
                        return Err(er);
                    }
                } else if einfo & 256 == 256 {
                    // boundary event
                    proof {
                        if bhyp {
                            assert(false);
                        }
                    }
                    if einfo & 16 == 16 {
                        // interrupting: the attached sub-process's live
                        // children are killed
                        let victims = match self.instances.get(parent_case) {
                            Some(d) => d.get_child_process_instances(attached),
                            None => return Err(Errors::InstanceNotFound),
                        };
                        let ghost mid = *self;
                        let sub = self.kill_processes(&victims, fuel - 1);
                        proof {
                            Self::lemma_frame_trans(s0, mid, *self);
                        }
                        if let Err(er) = sub {
                            return Err(er);
                        }
                    }
                    let marking = match self.instances.get(parent_case) {
                        Some(d) => d.get_marking(),
                        None => return Err(Errors::InstanceNotFound),
                    };
                    let ghost mid2 = *self;
                    let sub2 = self.put_marking(parent_case, marking & !post_c);
                    proof {
                        Self::lemma_frame_step_local(mid2, *self);
                        Self::lemma_frame_trans(s0, mid2, *self);
                    }
                    if let Err(er) = sub2 {
                        return Err(er);
                    }
                    if let Some(n0) = first_ady {
                        let ghost mid3 = *self;
                        let sub3 = self.execute_elements(host, parent_case, n0, fuel - 1);
                        proof {
                            Self::lemma_frame_trans(s0, mid3, *self);
                        }
                        if let Err(er) = sub3 {
                            return Err(er);
                        }
                    }
                } else if einfo & 160 == 160 {
                    // plain start or intermediate signal catch: move the
                    // tokens across the event
                    let marking = match self.instances.get(parent_case) {
                        Some(d) => d.get_marking(),
                        None => return Err(Errors::InstanceNotFound),
                    };
                    let ghost mid = *self;
                    let sub = self.put_marking(parent_case, marking & !pre_c | post_c);
                    proof {
                        Self::lemma_frame_step_local(mid, *self);
                        Self::lemma_frame_trans(s0, mid, *self);
                    }
                    if let Err(er) = sub {
                        return Err(er);
                    }
                    if let Some(n0) = first_ady {
                        proof {
                            if bhyp {
                                assert(false);
                            }
                        }
                        let ghost mid2 = *self;
                        let sub2 = self.execute_elements(host, parent_case, n0, fuel - 1);
                        proof {
                            Self::lemma_frame_trans(s0, mid2, *self);
                        }
                        if let Err(er) = sub2 {
                            return Err(er);
                        }
                    }
                }
            }
            proof {
                if bhyp {
                    assert(signal_sweep(bfv, bm0, bi + 1) == (if einfo & 32780 == 32772 && einfo
                        & 6 != 6 && einfo & 256 != 256 && einfo & 160 == 160 {
                        signal_sweep(bfv, bm0, bi) & !bfv.pre_of(ev) | bfv.post_of(ev)
                    } else {
                        signal_sweep(bfv, bm0, bi)
                    }));
                }
            }
            i += 1;
        }
        // then fan out into every started child sub-process
        let subs: Vec<u128> = match self.flows.get(child_flow_id) {
            Some(f) => f.get_sub_process_list(),
            None => {
                proof {
                    if bhyp {
                        assert(false);
                    }
                }
                return Err(Errors::InstanceNotFound);
            },
        };
        proof {
            assert(self.flows_map()[child_flow_id].wf());
        }
        let started = match self.instances.get(parent_case) {
            Some(d) => d.get_started_activities(),
            None => return Err(Errors::InstanceNotFound),
        };
        proof {
            if bhyp {
                assert(started == 0);
            }
        }
        let mut j: usize = 0;
        while j < subs.len()
            invariant
                self.wf(),
                s0 == *old(self),
                bhyp == (fuel > 0 && s0.instances_map().contains_key(parent_case)
                    && s0.flows_map().contains_key(s0.instances_map()[parent_case].flow_node())
                    && signal_plain(bfv) && s0.instances_map()[parent_case].started() == 0),
                bfv == s0.flows_map()[s0.instances_map()[parent_case].flow_node()],
                bm0 == s0.instances_map()[parent_case].tokens(),
                bhyp ==> started == 0,
                bhyp ==> ({
                    &&& self.flows_map() == s0.flows_map()
                    &&& self.events_seq() == s0.events_seq()
                    &&& self.script_calls() == s0.script_calls()
                    &&& self.instances_map().dom() == s0.instances_map().dom()
                    &&& forall|c: u128|
                        c != parent_case && #[trigger] s0.instances_map().contains_key(c)
                            ==> self.instances_map()[c] == s0.instances_map()[c]
                    &&& self.instances_map()[parent_case].tokens() == signal_sweep(
                        bfv,
                        bm0,
                        bfv.events_list().len() as int,
                    )
                    &&& self.instances_map()[parent_case].started() == 0
                    &&& Idata::same_but_markings(
                        s0.instances_map()[parent_case],
                        self.instances_map()[parent_case],
                    )
                }),
                Self::step_frame(s0, *self),
                j <= subs@.len(),
                fuel >= 1,
                self.instances_map().contains_key(parent_case),
                forall|x: int| 0 <= x < subs@.len() ==> #[trigger] subs@[x] < 128,
            decreases subs@.len() - j,
        {
            let child = subs[j];
            if started & (1u128 << child) != 0 {
                proof {
                    if bhyp {
                        assert(0u128 & (1u128 << child) == 0) by (bit_vector);
                        assert(false);
                    }
                }
                let kids = match self.instances.get(parent_case) {
                    Some(d) => d.get_child_process_instances(child),
                    None => return Err(Errors::InstanceNotFound),
                };
                let ghost mid = *self;
                let sub = self.broadcast_signals(host, &kids, fuel - 1);
                proof {
                    Self::lemma_frame_trans(s0, mid, *self);
                }
                if let Err(er) = sub {
                    return Err(er);
                }
            }
            j += 1;
        }
        Ok(())
    }

    /// Broadcast a signal to a list of instances in order.
    fn broadcast_signals<H: Host>(&mut self, host: &mut H, parent_cases: &Vec<u128>, fuel: u64) -> (r: Result<(), Errors>)
        requires
            old(self).wf(),
        ensures
            final(self).wf(),
            Self::step_frame(*old(self), *final(self)),
        decreases fuel,
    {
        proof {
            Self::lemma_frame_refl(*old(self));
        }
        if fuel == 0 {
            return Err(Errors::RecursionLimit);
        }
        let ghost s0 = *old(self);
        let mut i: usize = 0;
        while i < parent_cases.len()
            invariant
                self.wf(),
                s0 == *old(self),
                Self::step_frame(s0, *self),
                i <= parent_cases@.len(),
                fuel >= 1,
            decreases parent_cases@.len() - i,
        {
            let ghost mid = *self;
            let sub = self.broadcast_signal(host, parent_cases[i], fuel - 1);
            proof {
                Self::lemma_frame_trans(s0, mid, *self);
            }
            if let Err(er) = sub {
                return Err(er);
            }
            i += 1;
        }
        Ok(())
    }

    /// Fire a parallel multi-instance activity: one child instance per
    /// configured instance.
    fn fire_parallel_multi_instance<H: Host>(
        &mut self,
        host: &mut H,
        parent_case: u128,
        element_index: u128,
        child_instances: u128,
        fuel: u64,
    ) -> (r: Result<(), Errors>)
        requires
            old(self).wf(),
        ensures
            final(self).wf(),
            Self::step_frame(*old(self), *final(self)),
            (fuel >= 3 && Self::create_instance_ready(*old(self), element_index, parent_case))
                ==> ({
                let a = Self::linked_child_case(*old(self), element_index, parent_case);
                &&& r is Ok
                &&& final(self).instances_map().contains_key(parent_case)
                &&& final(self).instances_map()[parent_case].children_of(element_index).len()
                    == old(self).instances_map()[parent_case].children_of(element_index).len()
                    + child_instances
                &&& final(self).instances_map()[parent_case].tokens() == old(self).instances_map()[parent_case].tokens()
                &&& final(self).instances_map()[parent_case].started() == old(self).instances_map()[parent_case].started()
                &&& final(self).flows_map() == old(self).flows_map()
                &&& final(self).script_calls() == old(self).script_calls()
                &&& final(self).events_seq() == old(self).events_seq() + Seq::new(
                    child_instances as nat,
                    |x: int| InterpreterEvent::NewCaseCreated(a),
                )
                &&& final(self).instances_map().dom() == (if child_instances == 0 {
                    old(self).instances_map().dom()
                } else {
                    old(self).instances_map().dom().insert(a)
                })
                &&& forall|c: u128|
                    c != parent_case && c != a && #[trigger] old(self).instances_map().contains_key(c) ==> final(self).instances_map()[c] == old(self).instances_map()[c]
            }),
        decreases fuel,
    {
        proof {
            Self::lemma_frame_refl(*old(self));
        }
        if fuel == 0 {
            return Err(Errors::RecursionLimit);
        }
        let ghost s0 = *old(self);
        let ghost ready = fuel >= 3 && Self::create_instance_ready(s0, element_index, parent_case);
        let mut k: u128 = 0;
        while k < child_instances
            invariant
                self.wf(),
                s0 == *old(self),
                ready == (fuel >= 3 && Self::create_instance_ready(s0, element_index, parent_case)),
                Self::step_frame(s0, *self),
                k <= child_instances,
                fuel >= 1,
                ready ==> ({
                    let a = Self::linked_child_case(s0, element_index, parent_case);
                    &&& Self::create_instance_ready(*self, element_index, parent_case)
                    &&& Self::linked_child_case(*self, element_index, parent_case) == a
                    &&& self.instances_map().contains_key(parent_case)
                    &&& self.instances_map()[parent_case].children_of(element_index).len()
                        == s0.instances_map()[parent_case].children_of(element_index).len() + k
                    &&& self.instances_map()[parent_case].tokens() == s0.instances_map()[parent_case].tokens()
                    &&& self.instances_map()[parent_case].started() == s0.instances_map()[parent_case].started()
                    &&& self.flows_map() == s0.flows_map()
                    &&& self.script_calls() == s0.script_calls()
                    &&& self.events_seq() == s0.events_seq() + Seq::new(
                        k as nat,
                        |x: int| InterpreterEvent::NewCaseCreated(a),
                    )
                    &&& self.instances_map().dom() == (if k == 0 {
                        s0.instances_map().dom()
                    } else {
                        s0.instances_map().dom().insert(a)
                    })
                    &&& forall|c: u128|
                        c != parent_case && c != a && #[trigger] s0.instances_map().contains_key(c)
                            ==> self.instances_map()[c] == s0.instances_map()[c]
                }),
            decreases child_instances - k,
        {
            let ghost mid = *self;
            let sub = self.create_instance(host, element_index, parent_case, fuel - 1);
            proof {
                Self::lemma_frame_trans(s0, mid, *self);
                if ready {
                    let a = Self::linked_child_case(s0, element_index, parent_case);
                    assert(Self::create_instance_ready(mid, element_index, parent_case));
                    assert(Self::create_instance_effect(
                        mid,
                        *self,
                        element_index,
                        parent_case,
                    ));
                    assert(Self::create_instance_ready(*self, element_index, parent_case));
                    assert(Seq::new((k + 1) as nat, |x: int| InterpreterEvent::NewCaseCreated(a))
                        =~= Seq::new(k as nat, |x: int| InterpreterEvent::NewCaseCreated(a)).push(
                        InterpreterEvent::NewCaseCreated(a),
                    ));
                    assert(self.events_seq() =~= s0.events_seq() + Seq::new(
                        (k + 1) as nat,
                        |x: int| InterpreterEvent::NewCaseCreated(a),
                    ));
                    assert(self.instances_map().dom() =~= s0.instances_map().dom().insert(a));
                }
            }
            if let Err(er) = sub {
                return Err(er);
            }
            k = k + 1;
        }
        Ok(())
    }

    /// Advance one instance by consuming the execution queue seeded with
    /// `element_index`: breadth first over a 100-slot wrapping ring.
    /// Each popped element is tested for
    /// enablement against the local copy of the marking, fired, and its
    /// adjacency enqueued; the final marking is flushed back afterwards.
    pub fn execute_elements<H: Host>(
        &mut self,
        host: &mut H,
        parent_case: u128,
        element_index: u128,
        fuel: u64,
    ) -> (r: Result<(), Errors>)
        requires
            old(self).wf(),
        ensures
            final(self).wf(),
            Self::step_frame(*old(self), *final(self)),
            Self::terminated_inert(*old(self), parent_case) ==> final(self).instances_map() == old(self).instances_map() && final(self).flows_map() == old(self).flows_map() && final(self).events_seq() == old(self).events_seq(),
            ({
                let fvx = old(self).flows_map()[old(self).instances_map()[parent_case].flow_node()];
                let ti = fvx.type_of(element_index);
                &&& fuel >= 4
                &&& old(self).instances_map().contains_key(parent_case)
                &&& old(self).flows_map().contains_key(old(self).instances_map()[parent_case].flow_node())
                &&& ti & 65 == 65
                &&& ti & 42 != 42
                &&& ti & 74 != 74
                &&& old(self).instances_map()[parent_case].tokens() & fvx.pre_of(element_index)
                    != 0
                &&& fvx.next_of(element_index).len() == 0
                &&& Self::create_instance_ready(*old(self), element_index, parent_case)
            }) ==> ({
                let fvx = old(self).flows_map()[old(self).instances_map()[parent_case].flow_node()];
                let a = Self::linked_child_case(*old(self), element_index, parent_case);
                let cnt = fvx.count_of(element_index);
                &&& r is Ok
                &&& final(self).flows_map() == old(self).flows_map()
                &&& final(self).events_seq() == old(self).events_seq() + Seq::new(
                    cnt as nat,
                    |x: int| InterpreterEvent::NewCaseCreated(a),
                )
                &&& final(self).instances_map().contains_key(parent_case)
                &&& final(self).instances_map()[parent_case].tokens() == old(self).instances_map()[parent_case].tokens() & !fvx.pre_of(element_index)
                &&& final(self).instances_map()[parent_case].started() == old(self).instances_map()[parent_case].started() | (1u128 << element_index)
                &&& final(self).instances_map()[parent_case].children_of(element_index).len()
                    == old(self).instances_map()[parent_case].children_of(element_index).len()
                    + cnt
            }),
            ({
                let fvx = old(self).flows_map()[old(self).instances_map()[parent_case].flow_node()];
                let ti = fvx.type_of(element_index);
                &&& fuel >= 3
                &&& old(self).instances_map().contains_key(parent_case)
                &&& old(self).flows_map().contains_key(old(self).instances_map()[parent_case].flow_node())
                &&& ti & 65 != 65
                &&& (ti & 129 == 129 || (ti & 1 == 1 && ti & 48 != 0 && ti & 4096 == 0))
                &&& ti & 42 != 42
                &&& ti & 74 != 74
                &&& old(self).instances_map()[parent_case].tokens() & fvx.pre_of(element_index)
                    != 0
                &&& fvx.next_of(element_index).len() == 0
                &&& Self::create_instance_ready(*old(self), element_index, parent_case)
            }) ==> ({
                let fvx = old(self).flows_map()[old(self).instances_map()[parent_case].flow_node()];
                let a = Self::linked_child_case(*old(self), element_index, parent_case);
                &&& r is Ok
                &&& final(self).flows_map() == old(self).flows_map()
                &&& final(self).events_seq() == old(self).events_seq().push(
                    InterpreterEvent::NewCaseCreated(a),
                )
                &&& final(self).instances_map().contains_key(parent_case)
                &&& final(self).instances_map()[parent_case].tokens() == old(self).instances_map()[parent_case].tokens() & !fvx.pre_of(element_index)
                &&& final(self).instances_map()[parent_case].started() == old(self).instances_map()[parent_case].started() | (1u128 << element_index)
                &&& final(self).instances_map()[parent_case].children_of(element_index) == old(self).instances_map()[parent_case].children_of(element_index).push(a)
                &&& final(self).instances_map()[parent_case].count_of(element_index)
                    == fvx.count_of(element_index)
                &&& final(self).instances_map().contains_key(a)
                &&& final(self).instances_map()[a].parent_id() == Some(parent_case)
            }),
            ({
                &&& fuel > 0
                &&& old(self).instances_map().contains_key(parent_case)
                &&& old(self).flows_map().contains_key(old(self).instances_map()[parent_case].flow_node())
                &&& flow_local(old(self).flows_map()[old(self).instances_map()[parent_case].flow_node()])
            }) ==> ({
                let fv = old(self).flows_map()[old(self).instances_map()[parent_case].flow_node()];
                let m0v = old(self).instances_map()[parent_case].tokens();
                let logged = final(self).script_calls().skip(old(self).script_calls().len() as int);
                let replies = logged.map_values(|c: ScriptCall| le_value(c.reply, 16));
                &&& r is Ok || r == Err::<(), Errors>(Errors::ScriptDecodingError)
                &&& old(self).script_calls().is_prefix_of(final(self).script_calls())
                &&& final(self).flows_map() == old(self).flows_map()
                &&& final(self).events_seq() == old(self).events_seq()
                &&& forall|x: int|
                    0 <= x < logged.len() ==> (#[trigger] logged[x]).address
                        == fv.factory_of().addr().unwrap() && logged[x].selector
                        == fv.factory_of().ssel()
                &&& !(r is Ok) ==> final(self).instances_map() == old(self).instances_map()
                &&& r is Ok ==> {
                    &&& final(self).instances_map().dom() == old(self).instances_map().dom()
                    &&& forall|c: u128|
                        c != parent_case && #[trigger] old(self).instances_map().contains_key(c)
                            ==> final(self).instances_map()[c] == old(self).instances_map()[c]
                    &&& final(self).instances_map()[parent_case].tokens() == token_walk_from(
                        fv,
                        m0v,
                        element_index,
                        replies,
                    ).0
                    &&& logged.map_values(|c: ScriptCall| c.element) == token_walk_from(
                        fv,
                        m0v,
                        element_index,
                        replies,
                    ).1
                    &&& final(self).instances_map()[parent_case].started() == old(self).instances_map()[parent_case].started()
                    &&& Idata::same_but_markings(
                        old(self).instances_map()[parent_case],
                        final(self).instances_map()[parent_case],
                    )
                }
            }),
        decreases fuel,
    {
        proof {
            Self::lemma_frame_refl(*old(self));
        }
        if fuel == 0 {
            return Err(Errors::RecursionLimit);
        }
        let (m0, s0m, child_flow_id) = match self.instances.get(parent_case) {
            Some(d) => (d.get_marking(), d.get_started_activities(), d.get_flow_node()),
            None => return Err(Errors::InstanceNotFound),
        };
        if !self.flows.contains_key(child_flow_id) {
            return Err(Errors::InstanceNotFound);
        }
        let mut ps0 = m0;
        let mut ps1 = s0m;
        // the execution queue: a fixed ring of 100 slots
        let mut queue: Vec<u128> = Vec::new();
        let mut n: usize = 0;
        while n < 100
            invariant
                queue@.len() == n,
                n <= 100,
                forall|j: int| 0 <= j < n ==> queue@[j] == 0,
            decreases 100 - n,
        {
            queue.push(0);
            n += 1;
        }
        let mut i: usize = 0;
        let mut count: usize = 0;
        queue.set(count, element_index);
        count += 1;
        let ghost s0 = *old(self);
        let ghost hyp = Self::terminated_inert(s0, parent_case);
        let ghost fv = s0.flows_map()[s0.instances_map()[parent_case].flow_node()];
        let ghost hyp2 = fuel > 0 && s0.instances_map().contains_key(parent_case)
            && s0.flows_map().contains_key(s0.instances_map()[parent_case].flow_node())
            && flow_local(fv);
        let ghost hyp3 = fuel >= 4 && s0.instances_map().contains_key(parent_case)
            && s0.flows_map().contains_key(s0.instances_map()[parent_case].flow_node())
            && fv.type_of(element_index) & 65 == 65 && fv.type_of(element_index) & 42 != 42
            && fv.type_of(element_index) & 74 != 74 && s0.instances_map()[parent_case].tokens()
            & fv.pre_of(element_index) != 0 && fv.next_of(element_index).len() == 0
            && Self::create_instance_ready(s0, element_index, parent_case);
        let ghost a3 = Self::linked_child_case(s0, element_index, parent_case);
        let ghost cnt3 = fv.count_of(element_index);
        let ghost hyp4 = fuel >= 3 && s0.instances_map().contains_key(parent_case)
            && s0.flows_map().contains_key(s0.instances_map()[parent_case].flow_node())
            && fv.type_of(element_index) & 65 != 65 && (fv.type_of(element_index) & 129 == 129 || (
        fv.type_of(element_index) & 1 == 1 && fv.type_of(element_index) & 48 != 0 && fv.type_of(
            element_index,
        ) & 4096 == 0)) && fv.type_of(element_index) & 42 != 42 && fv.type_of(element_index) & 74
            != 74 && s0.instances_map()[parent_case].tokens() & fv.pre_of(element_index) != 0
            && fv.next_of(element_index).len() == 0 && Self::create_instance_ready(
            s0,
            element_index,
            parent_case,
        );
        proof {
            assert(queue@ =~= init_queue(element_index));
            if hyp2 {
                assert(s0.script_calls().subrange(0, s0.script_calls().len() as int)
                    =~= s0.script_calls());
                assert forall|rs: Seq<u128>|
                    token_walk_from(fv, m0, element_index, Seq::<u128>::empty() + rs) == ((
                    #[trigger] token_walk(fv, m0, queue@, 0, 1, rs)).0, Seq::<u128>::empty()
                    + token_walk(fv, m0, queue@, 0, 1, rs).1) by {
                    assert(Seq::<u128>::empty() + rs =~= rs);
                    let w = token_walk(fv, m0, queue@, 0, 1, rs);
                    assert(Seq::<u128>::empty() + w.1 =~= w.1);
                }
            }
        }
        while i < count
            invariant
                self.wf(),
                s0 == *old(self),
                hyp == Self::terminated_inert(s0, parent_case),
                fv == s0.flows_map()[s0.instances_map()[parent_case].flow_node()],
                hyp2 == (fuel > 0 && s0.instances_map().contains_key(parent_case)
                    && s0.flows_map().contains_key(s0.instances_map()[parent_case].flow_node())
                    && flow_local(fv)),
                Self::step_frame(s0, *self),
                self.instances_map().contains_key(parent_case),
                self.flows_map().contains_key(child_flow_id),
                child_flow_id == s0.instances_map()[parent_case].flow_node() || !hyp,
                child_flow_id == s0.instances_map()[parent_case].flow_node() || !hyp2,
                child_flow_id == s0.instances_map()[parent_case].flow_node() || !hyp3,
                m0 == s0.instances_map()[parent_case].tokens() || !hyp2,
                hyp ==> ps0 == 0 && ps1 == 0 && self.instances_map() == s0.instances_map()
                    && self.flows_map() == s0.flows_map() && self.events_seq() == s0.events_seq(),
                hyp3 == (fuel >= 4 && s0.instances_map().contains_key(parent_case)
                    && s0.flows_map().contains_key(s0.instances_map()[parent_case].flow_node())
                    && fv.type_of(element_index) & 65 == 65 && fv.type_of(element_index) & 42
                    != 42 && fv.type_of(element_index) & 74 != 74 && s0.instances_map()[parent_case].tokens() & fv.pre_of(element_index) != 0 && fv.next_of(
                    element_index,
                ).len() == 0 && Self::create_instance_ready(s0, element_index, parent_case)),
                a3 == Self::linked_child_case(s0, element_index, parent_case),
                cnt3 == fv.count_of(element_index),
                hyp3 ==> m0 == s0.instances_map()[parent_case].tokens() && s0m
                    == s0.instances_map()[parent_case].started(),
                hyp4 == (fuel >= 3 && s0.instances_map().contains_key(parent_case)
                    && s0.flows_map().contains_key(s0.instances_map()[parent_case].flow_node())
                    && fv.type_of(element_index) & 65 != 65 && (fv.type_of(element_index) & 129
                    == 129 || (fv.type_of(element_index) & 1 == 1 && fv.type_of(element_index)
                    & 48 != 0 && fv.type_of(element_index) & 4096 == 0)) && fv.type_of(
                    element_index,
                ) & 42 != 42 && fv.type_of(element_index) & 74 != 74 && s0.instances_map()[parent_case].tokens() & fv.pre_of(element_index) != 0 && fv.next_of(
                    element_index,
                ).len() == 0 && Self::create_instance_ready(s0, element_index, parent_case)),
                child_flow_id == s0.instances_map()[parent_case].flow_node() || !hyp4,
                hyp4 ==> m0 == s0.instances_map()[parent_case].tokens() && s0m
                    == s0.instances_map()[parent_case].started(),
                hyp4 ==> ((i as int == 0 && count as int == 1 && queue@[0] == element_index && ps0
                    == s0.instances_map()[parent_case].tokens() && ps1 == s0.instances_map()[parent_case].started() && self.flows_map() == s0.flows_map() && self.events_seq()
                    == s0.events_seq() && self.instances_map() == s0.instances_map()) || (
                count as int == 1 && i as int >= 1 && self.flows_map() == s0.flows_map()
                    && self.events_seq() == s0.events_seq().push(
                    InterpreterEvent::NewCaseCreated(a3),
                ) && self.instances_map().contains_key(parent_case) && self.instances_map()[parent_case].children_of(element_index) == s0.instances_map()[parent_case].children_of(
                    element_index,
                ).push(a3) && self.instances_map()[parent_case].count_of(element_index) == cnt3
                    && self.instances_map()[parent_case].tokens() == s0.instances_map()[parent_case].tokens() && self.instances_map()[parent_case].started()
                    == s0.instances_map()[parent_case].started() && self.instances_map().contains_key(a3) && self.instances_map()[a3].parent_id() == Some(parent_case) && ps0
                    == s0.instances_map()[parent_case].tokens() & !fv.pre_of(element_index) && ps1
                    == s0.instances_map()[parent_case].started() | (1u128 << element_index))),
                hyp3 ==> ((i as int == 0 && count as int == 1 && queue@[0] == element_index && ps0
                    == s0.instances_map()[parent_case].tokens() && ps1 == s0.instances_map()[parent_case].started() && self.flows_map() == s0.flows_map() && self.events_seq()
                    == s0.events_seq() && self.instances_map() == s0.instances_map()) || (
                count as int == 1 && i as int >= 1 && self.flows_map() == s0.flows_map()
                    && self.events_seq() == s0.events_seq() + Seq::new(
                    cnt3 as nat,
                    |x: int| InterpreterEvent::NewCaseCreated(a3),
                ) && self.instances_map().contains_key(parent_case) && self.instances_map()[parent_case].children_of(element_index).len() == s0.instances_map()[parent_case].children_of(
                    element_index,
                ).len() + cnt3 && self.instances_map()[parent_case].tokens()
                    == s0.instances_map()[parent_case].tokens() && self.instances_map()[parent_case].started() == s0.instances_map()[parent_case].started() && ps0
                    == s0.instances_map()[parent_case].tokens() & !fv.pre_of(element_index) && ps1
                    == s0.instances_map()[parent_case].started() | (1u128 << element_index))),
                hyp2 ==> ({
                    let logged = self.script_calls().skip(s0.script_calls().len() as int);
                    &&& self.flows_map() == s0.flows_map()
                    &&& self.events_seq() == s0.events_seq()
                    &&& self.instances_map() == s0.instances_map()
                    &&& ps1 == s0.instances_map()[parent_case].started()
                    &&& s0.script_calls().is_prefix_of(self.script_calls())
                    &&& forall|x: int|
                        0 <= x < logged.len() ==> (#[trigger] logged[x]).address
                            == fv.factory_of().addr().unwrap() && logged[x].selector
                            == fv.factory_of().ssel()
                    &&& forall|rs: Seq<u128>|
                        token_walk_from(
                            fv,
                            m0,
                            element_index,
                            logged.map_values(|c: ScriptCall| le_value(c.reply, 16)) + rs,
                        ) == ((#[trigger] token_walk(
                            fv,
                            ps0,
                            queue@,
                            i as int,
                            count as int,
                            rs,
                        )).0, logged.map_values(|c: ScriptCall| c.element) + token_walk(
                            fv,
                            ps0,
                            queue@,
                            i as int,
                            count as int,
                            rs,
                        ).1)
                }),
                queue@.len() == 100,
                count <= 99,
                i <= 100,
                fuel >= 1,
            decreases 100 - i,
        {
            let ghost pq = queue@;
            let ghost pi = i as int;
            let ghost pc = count as int;
            let ghost pm = ps0;
            let ghost plog = self.script_calls();
            let ghost mut took: Option<u128> = None;
            let e = queue[i];
            i += 1;
            let info = match self.flows.get(child_flow_id) {
                Some(f) => f.get_element_info(e),
                None => {
                    proof {
                        if hyp2 {
                            assert(false);
                        }
                    }
                    return Err(Errors::InstanceNotFound);
                },
            };
            let pre_c = info.0.0;
            let post_c = info.0.1;
            let ti = info.0.2;
            let next = info.1;
            proof {
                if hyp2 || hyp3 || hyp4 {
                    assert(pq[pi] == e);
                    assert(pre_c == fv.pre_of(e));
                    assert(post_c == fv.post_of(e));
                    assert(ti == fv.type_of(e));
                    assert(next@ == fv.next_of(e));
                }
                if hyp3 || hyp4 {
                    assert(e == element_index);
                }
            }
            // enablement
            let mut fire = true;
            if ti & 42 == 42 {
                // AND join: all tokens of the pre-set must be present
                if ps0 & pre_c != pre_c {
                    proof {
                        if hyp2 {
                            assert forall|rs: Seq<u128>| (#[trigger] token_walk(
                                fv,
                                ps0,
                                queue@,
                                i as int,
                                count as int,
                                rs,
                            )) == token_walk(fv, pm, pq, pi, pc, rs) by {}
                        }
                    }
                    continue;
                }
                proof {
                    if hyp {
                        // a terminated instance enables no join: its empty
                        // marking would force an empty pre-set
                        assert(0u128 & pre_c == 0) by (bit_vector);
                        assert(pre_c == 0);
                        assert(ti & 42 == 42 ==> ti != 0) by (bit_vector);
                        assert(s0.flows_map()[child_flow_id].cond_map().contains_key(e));
                        assert(false);
                    }
                }
                ps0 = ps0 & !pre_c;
            } else if ti & 74 == 74 {
                // OR join: a declared stub; it consumes nothing and fires
                // nothing, but its adjacency is still enqueued
                fire = false;
            } else if ti & 1 == 1 || (ti & 4 == 4 && ti & 640 != 0) || ti & 2 == 2 {
                // activity, intermediate/end event or plain gateway: any
                // token of the pre-set enables, and the pre-set is drained
                if ps0 & pre_c == 0 {
                    proof {
                        if hyp2 {
                            assert forall|rs: Seq<u128>| (#[trigger] token_walk(
                                fv,
                                ps0,
                                queue@,
                                i as int,
                                count as int,
                                rs,
                            )) == token_walk(fv, pm, pq, pi, pc, rs) by {}
                        }
                    }
                    continue;
                }
                proof {
                    if hyp {
                        // a terminated instance carries no token to consume
                        assert(0u128 & pre_c == 0) by (bit_vector);
                        assert(false);
                    }
                }
                ps0 = ps0 & !pre_c;
            } else {
                proof {
                    if hyp2 {
                        assert forall|rs: Seq<u128>| (#[trigger] token_walk(
                            fv,
                            ps0,
                            queue@,
                            i as int,
                            count as int,
                            rs,
                        )) == token_walk(fv, pm, pq, pi, pc, rs) by {}
                    }
                    if hyp3 {
                        assert(ti & 65 == 65 ==> ti & 1 == 1) by (bit_vector);
                        assert(false);
                    }
                    if hyp4 {
                        assert(ti & 129 == 129 ==> ti & 1 == 1) by (bit_vector);
                        assert(false);
                    }
                }
                continue;
            }
            // firing
            if fire {
                if ti & 65 == 65 {
                    // parallel multi-instance activity
                    proof {
                        assert(ti & 65 == 65 ==> ti != 0) by (bit_vector);
                        assert(self.flows_map()[child_flow_id].wf());
                        assert(e < 128);
                        if hyp2 {
                            assert(fv.cond_map().contains_key(e));
                            assert(false);
                        }
                    }
                    let cnt = match self.flows.get(child_flow_id) {
                        Some(f) => f.get_instance_count(e),
                        None => return Err(Errors::InstanceNotFound),
                    };
                    proof {
                        if hyp3 {
                            assert(e == element_index);
                            assert(cnt == cnt3);
                        }
                    }
                    let ghost mid = *self;
                    let sub = self.fire_parallel_multi_instance(host, parent_case, e, cnt, fuel - 1);
                    proof {
                        Self::lemma_frame_trans(s0, mid, *self);
                        if hyp3 {
                            assert(mid.instances_map() == s0.instances_map());
                            assert(Self::create_instance_ready(mid, element_index, parent_case));
                            assert(Self::linked_child_case(mid, element_index, parent_case) == a3);
                        }
                    }
                    if let Err(er) = sub {
                        proof {
                            if hyp3 {
                                assert(false);
                            }
                        }
                        return Err(er);
                    }
                    ps1 = ps1 | (1u128 << e);
                } else if ti & 129 == 129 || (ti & 1 == 1 && ti & 48 != 0 && ti & 4096 == 0) {
                    // sequential multi-instance, sub-process or call
                    // activity (not an event sub-process): one child, and
                    // the configured count is copied into this record
                    proof {
                        assert((ti & 129 == 129 || (ti & 1 == 1 && ti & 48 != 0 && ti & 4096 == 0))
                            ==> ti != 0) by (bit_vector);
                        assert(self.flows_map()[child_flow_id].wf());
                        assert(e < 128);
                        if hyp2 {
                            assert(fv.cond_map().contains_key(e));
                            assert(false);
                        }
                    }
                    let ghost mid = *self;
                    let sub = self.create_instance(host, e, parent_case, fuel - 1);
                    proof {
                        Self::lemma_frame_trans(s0, mid, *self);
                        if hyp4 {
                            assert(mid.instances_map() == s0.instances_map());
                            assert(Self::create_instance_ready(mid, e, parent_case));
                            assert(Self::linked_child_case(mid, e, parent_case) == a3);
                            assert(Self::create_instance_effect(mid, *self, e, parent_case));
                        }
                    }
                    if let Err(er) = sub {
                        proof {
                            if hyp4 {
                                assert(false);
                            }
                        }
                        return Err(er);
                    }
                    let cnt = match self.flows.get(child_flow_id) {
                        Some(f) => f.get_instance_count(e),
                        None => return Err(Errors::InstanceNotFound),
                    };
                    proof {
                        if hyp4 {
                            assert(cnt == cnt3);
                        }
                    }
                    let ghost mid2 = *self;
                    let sub2 = self.put_instance_count(parent_case, e, cnt);
                    proof {
                        Self::lemma_frame_step_local(mid2, *self);
                        Self::lemma_frame_trans(s0, mid2, *self);
                        if hyp4 {
                            assert(self.instances_map()[parent_case].children_of(element_index)
                                == s0.instances_map()[parent_case].children_of(
                                element_index,
                            ).push(a3));
                            assert(self.instances_map()[a3].parent_id() == Some(parent_case));
                        }
                    }
                    if let Err(er) = sub2 {
                        proof {
                            if hyp4 {
                                assert(false);
                            }
                        }
                        return Err(er);
                    }
                    ps1 = ps1 | (1u128 << e);
                } else if ti & 4105 == 4105 || (ti & 10 == 2 && ti & 80 != 0) {
                    // script task or exclusive/inclusive split: the data
                    // contract decides which outgoing edges get tokens
                    let (addr_opt, ssel) = match self.flows.get(child_flow_id) {
                        Some(f) => {
                            let fac = f.get_factory_instance();
                            (fac.get_address(), copy_bytes(fac.get_execute_script_selector()))
                        },
                        None => {
                            proof {
                                if hyp2 {
                                    assert(false);
                                }
                            }
                            return Err(Errors::InstanceNotFound);
                        },
                    };
                    proof {
                        if hyp2 {
                            assert(addr_opt == fv.factory_of().addr());
                            assert(ssel@ == fv.factory_of().ssel());
                        }
                    }
                    if let Some(addr) = addr_opt {
                        let ghost sselv = ssel@;
                        let ghost log_was = self.script_log@;
                        let reply = host.execute_script(addr, ssel, e);
                        self.script_log = Ghost(
                            log_was.push(
                                ScriptCall {
                                    address: addr,
                                    selector: sselv,
                                    element: e,
                                    reply: reply@,
                                },
                            ),
                        );
                        proof {
                            if hyp2 {
                                let s0len = s0.script_calls().len() as int;
                                let before = log_was.skip(s0len);
                                let logged = self.script_calls().skip(s0len);
                                assert(logged =~= before.push(
                                    ScriptCall {
                                        address: addr,
                                        selector: sselv,
                                        element: e,
                                        reply: reply@,
                                    },
                                ));
                                assert(s0.script_calls().is_prefix_of(self.script_calls())) by {
                                    assert(self.script_calls().subrange(0, s0len)
                                        =~= log_was.subrange(0, s0len));
                                }
                                assert forall|x: int| 0 <= x < logged.len() implies (
                                #[trigger] logged[x]).address == fv.factory_of().addr().unwrap()
                                    && logged[x].selector == fv.factory_of().ssel() by {
                                    if x < before.len() {
                                        assert(logged[x] == before[x]);
                                    }
                                }
                            }
                        }
                        match u128_from_le_bytes(&reply) {
                            Some(v) => {
                                proof {
                                    took = Some(v);
                                    if hyp2 {
                                        assert(self.script_calls() =~= plog.push(
                                            self.script_calls().last(),
                                        ));
                                        assert(self.script_calls().last().element == e);
                                        assert(self.script_calls().last().address == addr);
                                        assert(le_value(self.script_calls().last().reply, 16)
                                            == v);
                                    }
                                }
                                ps0 = ps0 | v;
                            },
                            None => {
                                proof {
                                    if hyp2 {
                                        assert(reply@.len() < 16);
                                    }
                                }
                                return Err(Errors::ScriptDecodingError);
                            },
                        }
                    }
                } else if (ti & 9 == 9 && ti & 27657 != 0) || ti & 2 == 2 {
                    // user/service/receive/default task (completed
                    // off-chain) or a plain gateway: produce the post-set
                    ps0 = ps0 | post_c;
                } else if ti & 12 == 12 {
                    // throw event: flush, throw, re-read; a kill during
                    // the throw ends this walk
                    proof {
                        if hyp2 {
                            assert(ti & 12 == 12 ==> ti != 0) by (bit_vector);
                            assert(fv.cond_map().contains_key(e));
                            assert(false);
                        }
                    }
                    let code = match self.flows.get(child_flow_id) {
                        Some(f) => f.get_event_code(e),
                        None => return Err(Errors::InstanceNotFound),
                    };
                    let ghost mid = *self;
                    let subf = self.put_both_markings(parent_case, ps0, ps1);
                    proof {
                        Self::lemma_frame_step_local(mid, *self);
                        Self::lemma_frame_trans(s0, mid, *self);
                    }
                    if let Err(er) = subf {
                        return Err(er);
                    }
                    let ghost mid2 = *self;
                    let sub = self.throw_event(host, parent_case, code, ti, fuel - 1);
                    proof {
                        Self::lemma_frame_trans(s0, mid2, *self);
                    }
                    if let Err(er) = sub {
                        return Err(er);
                    }
                    let (m, s) = match self.instances.get(parent_case) {
                        Some(d) => (d.get_marking(), d.get_started_activities()),
                        None => return Err(Errors::InstanceNotFound),
                    };
                    if m | s == 0 {
                        // the throw killed this instance
                        return Ok(());
                    }
                    ps0 = m;
                    ps1 = s;
                    if ti & 128 == 128 {
                        // intermediate event: produce its post-set
                        ps0 = ps0 | post_c;
                    }
                }
            }
            // enqueue the adjacency; enablement is re-checked on pop
            let mut jx: usize = 0;
            while jx < next.len()
                invariant
                    queue@.len() == 100,
                    count <= 99,
                    jx <= next@.len(),
                    queue@ == ring_enqueue(pq, pc, next@.subrange(0, jx as int)).0,
                    count as int == ring_enqueue(pq, pc, next@.subrange(0, jx as int)).1,
                    pq.len() == 100,
                    0 <= pc <= 99,
                decreases next@.len() - jx,
            {
                proof {
                    let longer = next@.subrange(0, jx + 1);
                    assert(longer.drop_last() =~= next@.subrange(0, jx as int));
                    assert(longer.last() == next@[jx as int]);
                }
                queue.set(count, next[jx]);
                count = (count + 1) % 100;
                jx += 1;
            }
            proof {
                assert(next@.subrange(0, next@.len() as int) =~= next@);
                if hyp2 {
                    let s0len = s0.script_calls().len() as int;
                    let logged = self.script_calls().skip(s0len);
                    let done = logged.map_values(|c: ScriptCall| le_value(c.reply, 16));
                    let delems = logged.map_values(|c: ScriptCall| c.element);
                    let qc = ring_enqueue(pq, pc, fv.next_of(e));
                    assert(queue@ == qc.0 && count as int == qc.1);
                    match took {
                        None => {
                            assert(self.script_calls() == plog);
                            assert forall|rs: Seq<u128>|
                                token_walk_from(fv, m0, element_index, done + rs) == ((
                                #[trigger] token_walk(
                                    fv,
                                    ps0,
                                    queue@,
                                    i as int,
                                    count as int,
                                    rs,
                                )).0, delems + token_walk(
                                    fv,
                                    ps0,
                                    queue@,
                                    i as int,
                                    count as int,
                                    rs,
                                ).1) by {
                                let cur = token_walk(fv, ps0, queue@, i as int, count as int, rs);
                                if ti & 42 == 42 {
                                    assert(pm & pre_c == pre_c);
                                    assert(token_walk(fv, pm, pq, pi, pc, rs) == walk_fired(
                                        fv,
                                        pm & !pre_c,
                                        pq,
                                        pi,
                                        pc,
                                        rs,
                                        e,
                                    ));
                                    assert(walk_fired(fv, pm & !pre_c, pq, pi, pc, rs, e) == cur);
                                } else if ti & 74 == 74 {
                                    assert(ps0 == pm);
                                    assert(token_walk(fv, pm, pq, pi, pc, rs) == cur);
                                } else {
                                    assert(pm & pre_c != 0);
                                    assert(token_walk(fv, pm, pq, pi, pc, rs) == walk_fired(
                                        fv,
                                        pm & !pre_c,
                                        pq,
                                        pi,
                                        pc,
                                        rs,
                                        e,
                                    ));
                                    assert(walk_fired(fv, pm & !pre_c, pq, pi, pc, rs, e) == cur);
                                }
                                assert(token_walk(fv, pm, pq, pi, pc, rs) == token_walk(
                                    fv,
                                    ps0,
                                    queue@,
                                    i as int,
                                    count as int,
                                    rs,
                                ));
                            }
                        },
                        Some(v) => {
                            let before = plog.skip(s0len);
                            let done_b = before.map_values(|c: ScriptCall| le_value(c.reply, 16));
                            let delems_b = before.map_values(|c: ScriptCall| c.element);
                            let last = self.script_calls().last();
                            assert(logged =~= before.push(last));
                            assert(done =~= done_b.push(v));
                            assert(delems =~= delems_b.push(e));
                            assert forall|rs: Seq<u128>|
                                token_walk_from(fv, m0, element_index, done + rs) == ((
                                #[trigger] token_walk(
                                    fv,
                                    ps0,
                                    queue@,
                                    i as int,
                                    count as int,
                                    rs,
                                )).0, delems + token_walk(
                                    fv,
                                    ps0,
                                    queue@,
                                    i as int,
                                    count as int,
                                    rs,
                                ).1) by {
                                let cur = token_walk(fv, ps0, queue@, i as int, count as int, rs);
                                assert((seq![v] + rs).len() > 0);
                                assert((seq![v] + rs)[0] == v);
                                assert((seq![v] + rs).drop_first() =~= rs);
                                assert(ti & 4105 == 4105 || (ti & 10 == 2 && ti & 80 != 0));
                                assert(fv.factory_of().addr() is Some);
                                assert(ps0 == (pm & !pre_c) | v);
                                assert(token_walk(fv, pm, pq, pi, pc, seq![v] + rs) == walk_fired(
                                    fv,
                                    pm & !pre_c,
                                    pq,
                                    pi,
                                    pc,
                                    seq![v] + rs,
                                    e,
                                ));
                                assert(walk_fired(fv, pm & !pre_c, pq, pi, pc, seq![v] + rs, e)
                                    == (cur.0, seq![e] + cur.1));
                                assert(token_walk(fv, pm, pq, pi, pc, seq![v] + rs) == (
                                cur.0,
                                seq![e] + cur.1,
                                ));
                                assert(done_b + (seq![v] + rs) =~= done + rs);
                                assert(token_walk_from(
                                    fv,
                                    m0,
                                    element_index,
                                    done_b + (seq![v] + rs),
                                ) == ((token_walk(fv, pm, pq, pi, pc, seq![v] + rs)).0, delems_b
                                    + token_walk(fv, pm, pq, pi, pc, seq![v] + rs).1));
                                assert(delems_b + (seq![e] + cur.1) =~= delems + cur.1);
                            }
                        },
                    }
                }
            }
        }
        let ghost q_done = queue@;
        let ghost i_done = i as int;
        let ghost count_done = count as int;
        // flush the final marking
        let ghost mid3 = *self;
        let subl = self.put_both_markings(parent_case, ps0, ps1);
        proof {
            Self::lemma_frame_step_local(mid3, *self);
            Self::lemma_frame_trans(s0, mid3, *self);
            if Self::terminated_inert(s0, parent_case) {
                // the markings written back are the zeroes already stored
                assert(mid3.instances_map()[parent_case].tokens() == 0);
                assert(mid3.instances_map()[parent_case].started() == 0);
                assert(self.instances_map() == s0.instances_map());
            }
            if hyp4 {
                assert(self.instances_map()[parent_case].tokens()
                    == s0.instances_map()[parent_case].tokens() & !fv.pre_of(element_index));
                assert(self.instances_map()[parent_case].started()
                    == s0.instances_map()[parent_case].started() | (1u128 << element_index));
                assert(self.instances_map()[parent_case].children_of(element_index)
                    == s0.instances_map()[parent_case].children_of(element_index).push(a3));
                assert(self.instances_map()[parent_case].count_of(element_index) == cnt3);
                assert(self.events_seq() == s0.events_seq().push(
                    InterpreterEvent::NewCaseCreated(a3),
                ));
                assert(self.instances_map()[a3].parent_id() == Some(parent_case));
            }
            if hyp3 {
                assert(self.instances_map()[parent_case].tokens()
                    == s0.instances_map()[parent_case].tokens() & !fv.pre_of(element_index));
                assert(self.instances_map()[parent_case].started()
                    == s0.instances_map()[parent_case].started() | (1u128 << element_index));
                assert(self.instances_map()[parent_case].children_of(element_index).len()
                    == s0.instances_map()[parent_case].children_of(element_index).len() + cnt3);
                assert(self.events_seq() == s0.events_seq() + Seq::new(
                    cnt3 as nat,
                    |x: int| InterpreterEvent::NewCaseCreated(a3),
                ));
            }
            if hyp2 {
                let s0len = s0.script_calls().len() as int;
                let logged = self.script_calls().skip(s0len);
                let done = logged.map_values(|c: ScriptCall| le_value(c.reply, 16));
                let delems = logged.map_values(|c: ScriptCall| c.element);
                assert(self.script_calls() == mid3.script_calls());
                // the exhausted queue replays exactly the logged replies
                assert(done + Seq::<u128>::empty() =~= done);
                assert(token_walk_from(fv, m0, element_index, done) == ((token_walk(
                    fv,
                    ps0,
                    q_done,
                    i_done,
                    count_done,
                    Seq::<u128>::empty(),
                )).0, delems + token_walk(
                    fv,
                    ps0,
                    q_done,
                    i_done,
                    count_done,
                    Seq::<u128>::empty(),
                ).1));
                assert(token_walk(
                    fv,
                    ps0,
                    q_done,
                    i_done,
                    count_done,
                    Seq::<u128>::empty(),
                ) == (ps0, Seq::<u128>::empty()));
                assert(delems + Seq::<u128>::empty() =~= delems);
                assert(token_walk_from(fv, m0, element_index, done).0 == ps0);
                assert(token_walk_from(fv, m0, element_index, done).1 == delems);
                assert(self.instances_map().dom() =~= s0.instances_map().dom());
            }
        }
        match subl {
            Ok(()) => Ok(()),
            Err(er) => Err(er),
        }
    }

    /// Seed a fresh instance's marking from its flow's start event and run
    /// from the start event's first adjacent element, if it has one.
    fn execution_required<H: Host>(
        &mut self,
        host: &mut H,
        child_flow_id: u128,
        child_case: u128,
        fuel: u64,
    ) -> (r: Result<(), Errors>)
        requires
            old(self).wf(),
        ensures
            final(self).wf(),
            Self::step_frame(*old(self), *final(self)),
            ({
                &&& fuel >= 2
                &&& old(self).flows_map().contains_key(child_flow_id)
                &&& flow_local(old(self).flows_map()[child_flow_id])
                &&& old(self).instances_map().contains_key(child_case)
                &&& old(self).instances_map()[child_case].flow_node() == child_flow_id
            }) ==> ({
                let cf = old(self).flows_map()[child_flow_id];
                let logged = final(self).script_calls().skip(old(self).script_calls().len() as int);
                let replies = logged.map_values(|c: ScriptCall| le_value(c.reply, 16));
                &&& r is Ok || r == Err::<(), Errors>(Errors::ScriptDecodingError)
                &&& old(self).script_calls().is_prefix_of(final(self).script_calls())
                &&& final(self).flows_map() == old(self).flows_map()
                &&& final(self).events_seq() == old(self).events_seq()
                &&& forall|x: int|
                    0 <= x < logged.len() ==> (#[trigger] logged[x]).address
                        == cf.factory_of().addr().unwrap() && logged[x].selector
                        == cf.factory_of().ssel()
                &&& r is Ok ==> {
                    &&& final(self).instances_map().dom() == old(self).instances_map().dom()
                    &&& forall|c: u128|
                        c != child_case && #[trigger] old(self).instances_map().contains_key(c)
                            ==> final(self).instances_map()[c] == old(self).instances_map()[c]
                    &&& final(self).instances_map()[child_case].tokens() == seeded_tokens(
                        cf,
                        replies,
                    )
                    &&& logged.map_values(|c: ScriptCall| c.element) == seeded_requests(
                        cf,
                        replies,
                    )
                    &&& final(self).instances_map()[child_case].started() == old(self).instances_map()[child_case].started()
                    &&& Idata::same_but_markings(
                        old(self).instances_map()[child_case],
                        final(self).instances_map()[child_case],
                    )
                }
            }),
            (fuel > 0 && old(self).flows_map().contains_key(child_flow_id) && old(self).flows_map()[child_flow_id].start_inert() && old(self).instances_map().contains_key(child_case)) ==> {
                let cf = old(self).flows_map()[child_flow_id];
                &&& r is Ok
                &&& final(self).flows_map() == old(self).flows_map()
                &&& final(self).events_seq() == old(self).events_seq()
                &&& final(self).script_calls() == old(self).script_calls()
                &&& final(self).instances_map().dom() == old(self).instances_map().dom()
                &&& forall|c: u128|
                    c != child_case && #[trigger] old(self).instances_map().contains_key(c)
                        ==> final(self).instances_map()[c] == old(self).instances_map()[c]
                &&& final(self).instances_map()[child_case].tokens() == cf.post_of(cf.start_event())
                &&& final(self).instances_map()[child_case].started() == old(self).instances_map()[child_case].started()
                &&& Idata::same_but_markings(
                    old(self).instances_map()[child_case],
                    final(self).instances_map()[child_case],
                )
            },
        decreases fuel,
    {
        proof {
            Self::lemma_frame_refl(*old(self));
        }
        if fuel == 0 {
            return Err(Errors::RecursionLimit);
        }
        let (post_start, first_ady) = match self.flows.get(child_flow_id) {
            Some(f) => {
                let first = f.get_first_elem();
                (f.get_post_condition(first), f.get_first_ady_element(first))
            },
            None => return Err(Errors::InstanceNotFound),
        };
        let subp = self.put_marking(child_case, post_start);
        proof {
            Self::lemma_frame_step_local(*old(self), *self);
        }
        if let Err(er) = subp {
            return Err(er);
        }
        if let Some(n0) = first_ady {
            let ghost mid = *self;
            let sub = self.execute_elements(host, child_case, n0, fuel - 1);
            proof {
                Self::lemma_frame_trans(*old(self), mid, *self);
            }
            sub
        } else {
            Ok(())
        }
    }

    /// Instantiate the sub-process linked behind `element_index` as a
    /// child of `parent_case`: materialise its data contract, register a
    /// fresh child record, note the child in the parent, emit
    /// `NewCaseCreated`, and run the child from its start event.
    pub fn create_instance<H: Host>(
        &mut self,
        host: &mut H,
        element_index: u128,
        parent_case: u128,
        fuel: u64,
    ) -> (r: Result<u128, Errors>)
        requires
            old(self).wf(),
        ensures
            final(self).wf(),
            Self::step_frame(*old(self), *final(self)),
            parent_case == 0 && fuel > 0 ==> r == Err::<u128, Errors>(Errors::ParentIsRoot),
            parent_case == 0 ==> final(self).flows_map() == old(self).flows_map() && final(self).instances_map() == old(self).instances_map() && final(self).events_seq() == old(self).events_seq(),
            (fuel >= 2 && Self::create_instance_ready(*old(self), element_index, parent_case))
                ==> r == Ok::<u128, Errors>(
                Self::linked_child_case(*old(self), element_index, parent_case),
            ) && Self::create_instance_effect(*old(self), *final(self), element_index, parent_case)
                && final(self).script_calls() == old(self).script_calls(),
            (fuel >= 3 && Self::create_instance_ready_walk(*old(self), element_index, parent_case))
                ==> ({
                let cfid = Self::linked_child_flow(*old(self), element_index, parent_case);
                let a = Self::linked_child_case(*old(self), element_index, parent_case);
                let cf = old(self).flows_map()[cfid];
                let logged = final(self).script_calls().skip(old(self).script_calls().len() as int);
                let replies = logged.map_values(|c: ScriptCall| le_value(c.reply, 16));
                &&& (r == Ok::<u128, Errors>(a) || r == Err::<u128, Errors>(
                    Errors::ScriptDecodingError,
                ))
                &&& old(self).script_calls().is_prefix_of(final(self).script_calls())
                &&& final(self).flows_map() == old(self).flows_map()
                &&& final(self).events_seq() == old(self).events_seq().push(
                    InterpreterEvent::NewCaseCreated(a),
                )
                &&& forall|x: int|
                    0 <= x < logged.len() ==> (#[trigger] logged[x]).address
                        == cf.factory_of().addr().unwrap() && logged[x].selector
                        == cf.factory_of().ssel()
                &&& r is Ok ==> {
                    &&& final(self).instances_map().dom() == old(self).instances_map().dom().insert(
                        a,
                    )
                    &&& forall|c: u128|
                        c != a && c != parent_case && #[trigger] old(self).instances_map().contains_key(c) ==> final(self).instances_map()[c] == old(self).instances_map()[c]
                    &&& final(self).instances_map().contains_key(a)
                    &&& final(self).instances_map()[a].tokens() == seeded_tokens(cf, replies)
                    &&& logged.map_values(|c: ScriptCall| c.element) == seeded_requests(cf, replies)
                    &&& final(self).instances_map()[a].started() == 0
                    &&& final(self).instances_map()[a].parent_id() == Some(parent_case)
                    &&& final(self).instances_map()[a].flow_node() == cfid
                    &&& final(self).instances_map()[a].index() == element_index
                    &&& final(self).instances_map()[parent_case].children_of(element_index) == old(self).instances_map()[parent_case].children_of(element_index).push(a)
                    &&& final(self).instances_map()[parent_case].count_of(element_index)
                        == Idata::incremented(
                        old(self).instances_map()[parent_case].count_of(element_index),
                    )
                    &&& final(self).instances_map()[parent_case].tokens() == old(self).instances_map()[parent_case].tokens()
                    &&& final(self).instances_map()[parent_case].started() == old(self).instances_map()[parent_case].started()
                }
            }),
        decreases fuel,
    {
        proof {
            Self::lemma_frame_refl(*old(self));
        }
        if fuel == 0 {
            return Err(Errors::RecursionLimit);
        }
        if parent_case == 0 {
            // the root sentinel cannot be a parent
            return Err(Errors::ParentIsRoot);
        }
        let ghost ready = fuel >= 2 && Self::create_instance_ready(
            *old(self),
            element_index,
            parent_case,
        );
        let parent_flow_id = match self.instances.get(parent_case) {
            Some(d) => d.get_flow_node(),
            None => return Err(Errors::InstanceNotFound),
        };
        let child_flow_id = match self.flows.get(parent_flow_id) {
            Some(f) => match f.get_sub_process_instance(element_index) {
                Some(c) => c,
                None => return Err(Errors::InstanceNotFound),
            },
            None => return Err(Errors::InstanceNotFound),
        };
        proof {
            // a linked element is a key of the reference table, so it can
            // address a marking bit
            assert(old(self).flows_map()[parent_flow_id].wf());
            assert(element_index < 128);
            if ready {
                assert(child_flow_id == Self::linked_child_flow(
                    *old(self),
                    element_index,
                    parent_case,
                ));
            }
        }
        // materialise the child flow's data contract
        let child_case = match self.flows.take(child_flow_id) {
            Some(mut cf) => {
                let ghost cf0 = cf;
                let res = cf.new_factory_instance(host, child_flow_id);
                self.flows.insert(child_flow_id, cf);
                proof {
                    Self::lemma_flow_refresh(old(self).flows_map(), child_flow_id, cf);
                    Self::lemma_prefix_refl(old(self).events_seq());
                    assert(Self::step_frame(*old(self), *self));
                    if ready {
                        assert(cf == cf0);
                        assert(self.flows_map() =~= old(self).flows_map());
                    }
                }
                match res {
                    Ok(c) => c,
                    Err(e) => return Err(e),
                }
            },
            None => return Err(Errors::InstanceNotFound),
        };
        proof {
            if ready {
                assert(child_case == Self::linked_child_case(
                    *old(self),
                    element_index,
                    parent_case,
                ));
                assert(child_case != parent_case);
                assert(self.instances_map() == old(self).instances_map());
                assert(self.events_seq() == old(self).events_seq());
            }
        }
        let ghost s1 = *self;
        // a fresh child record with its parent linkage
        let mut rec = Idata::new();
        rec.set_parent(Some(parent_case), child_flow_id, element_index);
        self.instances.insert(child_case, rec);
        proof {
            Self::lemma_insts_wf_insert(s1.instances_map(), child_case, rec);
            Self::lemma_prefix_refl(s1.events_seq());
            assert forall|c: u128| #[trigger] s1.instances_map().contains_key(c)
                implies self.instances_map().contains_key(c) by {}
            Self::lemma_frame_local(s1, *self);
            Self::lemma_frame_trans(*old(self), s1, *self);
        }
        // note the child in the parent record
        let ghost s2 = *self;
        let suba = self.put_add_child(parent_case, element_index, child_case);
        proof {
            Self::lemma_frame_step_local(s2, *self);
            Self::lemma_frame_trans(*old(self), s2, *self);
        }
        if let Err(er) = suba {
            return Err(er);
        }
        let ghost s3 = *self;
        self.emitted.push(InterpreterEvent::NewCaseCreated(child_case));
        proof {
            Self::lemma_prefix_push(s3.events_seq(), InterpreterEvent::NewCaseCreated(child_case));
            assert forall|c: u128| #[trigger] s3.instances_map().contains_key(c)
                implies self.instances_map().contains_key(c) by {}
            Self::lemma_frame_local(s3, *self);
            Self::lemma_frame_trans(*old(self), s3, *self);
        }
        // seed and run the child
        let ghost s4 = *self;
        let sub = self.execution_required(host, child_flow_id, child_case, fuel - 1);
        proof {
            Self::lemma_frame_trans(*old(self), s4, *self);
            if ready {
                let pre = *old(self);
                let a = Self::linked_child_case(pre, element_index, parent_case);
                let cfid = Self::linked_child_flow(pre, element_index, parent_case);
                assert(s4.flows_map().contains_key(cfid));
                assert(s4.flows_map()[cfid].start_inert());
                assert(s4.instances_map().contains_key(child_case));
                assert(sub is Ok);
                assert(self.flows_map() == pre.flows_map());
                assert(self.events_seq() =~= pre.events_seq().push(
                    InterpreterEvent::NewCaseCreated(a),
                ));
                assert(self.instances_map().dom() =~= pre.instances_map().dom().insert(a));
                assert forall|c: u128|
                    c != a && c != parent_case && #[trigger] pre.instances_map().contains_key(c)
                    implies self.instances_map()[c] == pre.instances_map()[c] by {
                    assert(s2.instances_map()[c] == pre.instances_map()[c]);
                    assert(s4.instances_map()[c] == s2.instances_map()[c]);
                }
                assert(self.instances_map()[a].tokens() == pre.flows_map()[cfid].post_of(
                    pre.flows_map()[cfid].start_event(),
                ));
                assert(self.instances_map()[a].started() == 0);
                assert(self.instances_map()[a].children_map() =~= Map::<u128, Seq<u128>>::empty());
                assert(self.instances_map()[a].counts_map() =~= Map::<u128, u128>::empty());
                assert(self.instances_map()[parent_case] == s4.instances_map()[parent_case]);
                assert(s4.instances_map()[parent_case].children_of(element_index)
                    == pre.instances_map()[parent_case].children_of(element_index).push(a));
                assert(Self::create_instance_effect(pre, *self, element_index, parent_case));
            }
        }
        match sub {
            Ok(()) => Ok(child_case),
            Err(er) => Err(er),
        }
    }

    /// Instantiate the root process of a flow: materialise its factory,
    /// register a fresh root record under the flow's own id, emit
    /// `NewCaseCreated`, and run the flow from its start event.
    pub fn create_root_instance<H: Host>(&mut self, host: &mut H, parent_case: u128, fuel: u64) -> (r: Result<(), Errors>)
        requires
            old(self).wf(),
        ensures
            final(self).wf(),
            Self::step_frame(*old(self), *final(self)),
            !old(self).flows_map().contains_key(parent_case) && fuel > 0 ==> r == Err::<(), Errors>(
                Errors::InstanceNotFound,
            ),
            !old(self).flows_map().contains_key(parent_case) ==> final(self).flows_map() == old(self).flows_map() && final(self).instances_map() == old(self).instances_map() && final(self).events_seq() == old(self).events_seq(),
            (fuel >= 2 && old(self).flows_map().contains_key(parent_case) && old(self).flows_map()[parent_case].factory_of().addr() is Some && old(self).flows_map()[parent_case].start_inert()) ==> {
                let fl = old(self).flows_map()[parent_case];
                let a = fl.factory_of().addr().unwrap();
                &&& r is Ok
                &&& final(self).flows_map() == old(self).flows_map()
                &&& final(self).events_seq() == old(self).events_seq().push(
                    InterpreterEvent::NewCaseCreated(a),
                )
                &&& final(self).instances_map().dom() == old(self).instances_map().dom().insert(
                    parent_case,
                )
                &&& forall|c: u128|
                    c != parent_case && #[trigger] old(self).instances_map().contains_key(c)
                        ==> final(self).instances_map()[c] == old(self).instances_map()[c]
                &&& final(self).instances_map().contains_key(parent_case)
                &&& final(self).instances_map()[parent_case].tokens() == fl.post_of(
                    fl.start_event(),
                )
                &&& final(self).instances_map()[parent_case].started() == 0
                &&& final(self).instances_map()[parent_case].parent_id() is None
                &&& final(self).instances_map()[parent_case].flow_node() == parent_case
                &&& final(self).instances_map()[parent_case].index() == 0
                &&& final(self).instances_map()[parent_case].children_map() == Map::<
                    u128,
                    Seq<u128>,
                >::empty()
                &&& final(self).instances_map()[parent_case].counts_map() == Map::<
                    u128,
                    u128,
                >::empty()
            },
            ({
                &&& fuel >= 3
                &&& old(self).flows_map().contains_key(parent_case)
                &&& old(self).flows_map()[parent_case].factory_of().addr() is Some
                &&& flow_local(old(self).flows_map()[parent_case])
            }) ==> ({
                let fl = old(self).flows_map()[parent_case];
                let a = fl.factory_of().addr().unwrap();
                let logged = final(self).script_calls().skip(old(self).script_calls().len() as int);
                let replies = logged.map_values(|c: ScriptCall| le_value(c.reply, 16));
                &&& (r is Ok || r == Err::<(), Errors>(Errors::ScriptDecodingError))
                &&& old(self).script_calls().is_prefix_of(final(self).script_calls())
                &&& final(self).flows_map() == old(self).flows_map()
                &&& final(self).events_seq() == old(self).events_seq().push(
                    InterpreterEvent::NewCaseCreated(a),
                )
                &&& forall|x: int|
                    0 <= x < logged.len() ==> (#[trigger] logged[x]).address
                        == fl.factory_of().addr().unwrap() && logged[x].selector
                        == fl.factory_of().ssel()
                &&& r is Ok ==> {
                    &&& final(self).instances_map().dom() == old(self).instances_map().dom().insert(
                        parent_case,
                    )
                    &&& forall|c: u128|
                        c != parent_case && #[trigger] old(self).instances_map().contains_key(c)
                            ==> final(self).instances_map()[c] == old(self).instances_map()[c]
                    &&& final(self).instances_map().contains_key(parent_case)
                    &&& final(self).instances_map()[parent_case].tokens() == seeded_tokens(
                        fl,
                        replies,
                    )
                    &&& logged.map_values(|c: ScriptCall| c.element) == seeded_requests(
                        fl,
                        replies,
                    )
                    &&& final(self).instances_map()[parent_case].started() == 0
                    &&& final(self).instances_map()[parent_case].parent_id() is None
                    &&& final(self).instances_map()[parent_case].flow_node() == parent_case
                    &&& final(self).instances_map()[parent_case].index() == 0
                }
            }),
        decreases fuel,
    {
        proof {
            Self::lemma_frame_refl(*old(self));
        }
        if fuel == 0 {
            return Err(Errors::RecursionLimit);
        }
        let ghost ready = fuel >= 2 && old(self).flows_map().contains_key(parent_case) && old(
            self,
        ).flows_map()[parent_case].factory_of().addr() is Some && old(self).flows_map()[parent_case].start_inert();
        let contract_id = match self.flows.take(parent_case) {
            Some(mut f) => {
                let ghost f0 = f;
                let res = f.new_factory_instance(host, parent_case);
                self.flows.insert(parent_case, f);
                proof {
                    Self::lemma_flow_refresh(old(self).flows_map(), parent_case, f);
                    Self::lemma_prefix_refl(old(self).events_seq());
                    assert(Self::step_frame(*old(self), *self));
                    if ready {
                        assert(f == f0);
                        assert(self.flows_map() =~= old(self).flows_map());
                    }
                }
                match res {
                    Ok(c) => c,
                    Err(e) => return Err(e),
                }
            },
            None => return Err(Errors::InstanceNotFound),
        };
        proof {
            if ready {
                assert(contract_id == old(self).flows_map()[parent_case].factory_of().addr().unwrap());
                assert(self.instances_map() == old(self).instances_map());
                assert(self.events_seq() == old(self).events_seq());
            }
        }
        let ghost s1 = *self;
        let mut rec = Idata::new();
        rec.set_parent(None, parent_case, 0);
        self.instances.insert(parent_case, rec);
        proof {
            Self::lemma_insts_wf_insert(s1.instances_map(), parent_case, rec);
            Self::lemma_prefix_refl(s1.events_seq());
            assert forall|c: u128| #[trigger] s1.instances_map().contains_key(c)
                implies self.instances_map().contains_key(c) by {}
            Self::lemma_frame_local(s1, *self);
            Self::lemma_frame_trans(*old(self), s1, *self);
        }
        let ghost s2 = *self;
        self.emitted.push(InterpreterEvent::NewCaseCreated(contract_id));
        proof {
            Self::lemma_prefix_push(s2.events_seq(), InterpreterEvent::NewCaseCreated(contract_id));
            assert forall|c: u128| #[trigger] s2.instances_map().contains_key(c)
                implies self.instances_map().contains_key(c) by {}
            Self::lemma_frame_local(s2, *self);
            Self::lemma_frame_trans(*old(self), s2, *self);
        }
        let ghost s3 = *self;
        let sub = self.execution_required(host, parent_case, parent_case, fuel - 1);
        proof {
            Self::lemma_frame_trans(*old(self), s3, *self);
            if ready {
                let fl = old(self).flows_map()[parent_case];
                assert(s3.flows_map().contains_key(parent_case));
                assert(s3.flows_map()[parent_case].start_inert());
                assert(s3.instances_map().contains_key(parent_case));
                assert(sub is Ok);
                assert(self.events_seq() =~= old(self).events_seq().push(
                    InterpreterEvent::NewCaseCreated(contract_id),
                ));
                assert(self.instances_map().dom() =~= old(self).instances_map().dom().insert(
                    parent_case,
                ));
                assert(self.instances_map()[parent_case].tokens() == fl.post_of(fl.start_event()));
                assert(self.instances_map()[parent_case].children_map() =~= Map::<
                    u128,
                    Seq<u128>,
                >::empty());
                assert(self.instances_map()[parent_case].counts_map() =~= Map::<
                    u128,
                    u128,
                >::empty());
                assert forall|c: u128|
                    c != parent_case && #[trigger] old(self).instances_map().contains_key(c)
                    implies self.instances_map()[c] == old(self).instances_map()[c] by {
                    assert(s3.instances_map()[c] == old(self).instances_map()[c]);
                }
            }
        }
        sub
    }

    /// Resume execution of an instance at one element: the external entry
    /// point after an off-chain user, service or receive task completes.
    pub fn continue_execution<H: Host>(
        &mut self,
        host: &mut H,
        instance_id: u128,
        element_index: u128,
        fuel: u64,
    ) -> (r: Result<(), Errors>)
        requires
            old(self).wf(),
        ensures
            final(self).wf(),
            Self::step_frame(*old(self), *final(self)),
            Self::terminated_inert(*old(self), instance_id) ==> final(self).instances_map() == old(self).instances_map() && final(self).flows_map() == old(self).flows_map() && final(self).events_seq() == old(self).events_seq(),
            !old(self).instances_map().contains_key(instance_id) ==> r == Err::<(), Errors>(
                Errors::InstanceNotFound,
            ) && final(self).instances_map() == old(self).instances_map() && final(self).flows_map() == old(self).flows_map() && final(self).events_seq() == old(self).events_seq(),
            ({
                &&& fuel > 0
                &&& old(self).instances_map().contains_key(instance_id)
                &&& old(self).flows_map().contains_key(old(self).instances_map()[instance_id].flow_node())
                &&& flow_local(old(self).flows_map()[old(self).instances_map()[instance_id].flow_node()])
            }) ==> ({
                let fv = old(self).flows_map()[old(self).instances_map()[instance_id].flow_node()];
                let m0v = old(self).instances_map()[instance_id].tokens();
                let logged = final(self).script_calls().skip(old(self).script_calls().len() as int);
                let replies = logged.map_values(|c: ScriptCall| le_value(c.reply, 16));
                &&& r is Ok || r == Err::<(), Errors>(Errors::ScriptDecodingError)
                &&& old(self).script_calls().is_prefix_of(final(self).script_calls())
                &&& final(self).flows_map() == old(self).flows_map()
                &&& final(self).events_seq() == old(self).events_seq()
                &&& forall|x: int|
                    0 <= x < logged.len() ==> (#[trigger] logged[x]).address
                        == fv.factory_of().addr().unwrap() && logged[x].selector
                        == fv.factory_of().ssel()
                &&& !(r is Ok) ==> final(self).instances_map() == old(self).instances_map()
                &&& r is Ok ==> {
                    &&& final(self).instances_map().dom() == old(self).instances_map().dom()
                    &&& forall|c: u128|
                        c != instance_id && #[trigger] old(self).instances_map().contains_key(c)
                            ==> final(self).instances_map()[c] == old(self).instances_map()[c]
                    &&& final(self).instances_map()[instance_id].tokens() == token_walk_from(
                        fv,
                        m0v,
                        element_index,
                        replies,
                    ).0
                    &&& logged.map_values(|c: ScriptCall| c.element) == token_walk_from(
                        fv,
                        m0v,
                        element_index,
                        replies,
                    ).1
                    &&& final(self).instances_map()[instance_id].started() == old(self).instances_map()[instance_id].started()
                    &&& Idata::same_but_markings(
                        old(self).instances_map()[instance_id],
                        final(self).instances_map()[instance_id],
                    )
                }
            }),
    {
        proof {
            Self::lemma_frame_refl(*old(self));
        }
        match self.instances.get(instance_id) {
            Some(_) => {},
            None => return Err(Errors::InstanceNotFound),
        }
        self.execute_elements(host, instance_id, element_index, fuel)
    }
}

} // verus!
