//! Step contract: the core abstraction of the component framework.
//!
//! Every component implements a contract that is called **once per engine
//! step**: the engine gathers its state into [`StepInput`] (arrays) and
//! [`StepContext`] (metadata), calls the component, and reads [`StepOutput`]
//! (arrays and plan).
//!
//! The contract is deliberately engine-agnostic. A shim translates between the
//! engine's internal types and these structs.

use crate::buffer::BufferView;
use crate::error::ComponentResult;
use std::collections::BTreeMap;
use vstd::prelude::*;
use vstd::std_specs::iter::IteratorSpec;

verus! {

/// Metadata describing the current scheduling step.
#[derive(Debug, Clone)]
pub struct StepContext {
    /// Engine step sequence number (monotonically increasing within a run).
    pub step_id: u64,
    /// Number of requests currently in the engine (running + waiting).
    pub num_requests: usize,
    /// Number of requests actively decoding this step.
    pub num_running: usize,
    /// Number of requests waiting for prefill.
    pub num_waiting: usize,
    /// Maximum batch size the engine allows this step.
    pub max_batch_size: usize,
    /// Maximum number of tokens that can be scheduled for prefill this step.
    pub max_prefill_tokens: usize,
    /// Free KV blocks available for allocation.
    pub free_kv_blocks: usize,
    /// Total KV blocks in the pool.
    pub total_kv_blocks: usize,
    /// Engine configuration flags that affect scheduling, as opaque key-value
    /// pairs. The component reads the ones it understands and ignores the rest.
    pub engine_config: BTreeMap<String, String>,
}

impl Default for StepContext {
    fn default() -> (c: Self)
        ensures
            c.step_id == 0,
            c.num_requests == 0,
            c.num_running == 0,
            c.num_waiting == 0,
            c.max_batch_size == 0,
            c.max_prefill_tokens == 0,
            c.free_kv_blocks == 0,
            c.total_kv_blocks == 0,
            c.engine_config@ == Map::<String, String>::empty(),
    {
        StepContext {
            step_id: 0,
            num_requests: 0,
            num_running: 0,
            num_waiting: 0,
            max_batch_size: 0,
            max_prefill_tokens: 0,
            free_kv_blocks: 0,
            total_kv_blocks: 0,
            engine_config: BTreeMap::new(),
        }
    }
}

/// Whether less than a tenth of the KV blocks is free.
pub open spec fn kv_pressure(free: nat, total: nat) -> bool {
    total > 0 && free * 10 < total
}

impl StepContext {
    /// The free KV blocks and the KV blocks they are to be measured against;
    /// without any KV blocks, 1 of 1.
    pub fn kv_free_ratio(&self) -> (ratio: (usize, usize))
        ensures
            ratio == (if self.total_kv_blocks == 0 {
                (1usize, 1usize)
            } else {
                (self.free_kv_blocks, self.total_kv_blocks)
            }),
            ratio.1 > 0,
    {
        if self.total_kv_blocks == 0 {
            return (1, 1);
        }
        (self.free_kv_blocks, self.total_kv_blocks)
    }

    /// Whether the engine is under memory pressure (< 10% free KV blocks).
    /// Without any KV blocks it is not.
    pub fn is_kv_pressured(&self) -> (pressured: bool)
        ensures
            pressured == (self.total_kv_blocks > 0 && self.free_kv_blocks * 10
                < self.total_kv_blocks),
            pressured == kv_pressure(self.free_kv_blocks as nat, self.total_kv_blocks as nat),
    {
        let (free, total) = self.kv_free_ratio();
        (free as u128) * 10 < total as u128
    }
}

/// A single request in the step input.
///
/// The engine packs its request state into these structs; the component
/// operates on them without touching the engine's internal request objects.
#[derive(Debug, Clone)]
pub struct StepRequest {
    /// Unique request ID (opaque to the component; echoed in the output).
    pub id: u64,
    /// Number of prompt tokens (prefill).
    pub num_prompt_tokens: usize,
    /// Number of tokens already generated (decode).
    pub num_output_tokens: usize,
    /// KV blocks currently held by this request.
    pub kv_blocks_held: usize,
    /// Hash of the prompt prefix (for prefix-cache matching). 0 if none.
    pub prefix_hash: u64,
    /// Priority (0 = normal, higher = more important).
    pub priority: i32,
    /// Whether this request is in the prefill phase.
    pub is_prefill: bool,
    /// Whether this request is using speculative decoding.
    pub is_spec_decode: bool,
}

/// Input arrays for a step, keyed by a stable string name.
///
/// The names are part of the component contract and are documented in the
/// manifest. Example names: `"token_ids"`, `"block_table"`, `"slot_mapping"`,
/// `"cu_seqlens"`.
pub type StepInput = BTreeMap<String, BufferView<'static>>;

/// A scheduling decision for a single request in the step plan.
#[derive(Debug, Clone, Copy, PartialEq, Eq, Structural)]
pub enum StepDecision {
    /// Admit this request into the batch for this step.
    Admit {
        /// Number of tokens to process this step (for chunked prefill).
        num_tokens: usize,
        /// KV blocks to allocate for this request.
        num_kv_blocks: usize,
    },
    /// Defer this request to a future step.
    Defer,
    /// Preempt this request (evict from KV cache, return to waiting).
    Preempt {
        /// Whether to keep the prefix cache entry.
        keep_prefix: bool,
    },
    /// Finish this request (no more work needed).
    Finish,
}

/// The step plan: the component's decision for each request.
#[derive(Debug, Clone)]
pub struct StepPlan {
    /// Decisions, keyed by request ID.
    pub decisions: BTreeMap<u64, StepDecision>,
    /// Total KV blocks to allocate this step.
    pub total_kv_blocks_to_allocate: usize,
    /// Total KV blocks freed this step.
    pub total_kv_blocks_freed: usize,
    /// Total tokens scheduled for prefill this step.
    pub total_prefill_tokens: usize,
    /// Total tokens scheduled for decode this step.
    pub total_decode_tokens: usize,
}

/// What a [`StepPlan`] says.
#[verifier::ext_equal]
pub struct Plan {
    /// The decision for each request.
    pub decisions: Map<u64, StepDecision>,
    /// KV blocks to allocate.
    pub allocated: int,
    /// KV blocks freed.
    pub freed: int,
    /// Tokens scheduled for prefill.
    pub prefill: int,
    /// Tokens scheduled for decode.
    pub decode: int,
}

impl View for StepPlan {
    type V = Plan;

    open spec fn view(&self) -> Plan {
        Plan {
            decisions: self.decisions@,
            allocated: self.total_kv_blocks_to_allocate as int,
            freed: self.total_kv_blocks_freed as int,
            prefill: self.total_prefill_tokens as int,
            decode: self.total_decode_tokens as int,
        }
    }
}

impl Plan {
    /// Nothing is planned.
    pub open spec fn none() -> Plan {
        Plan { decisions: Map::empty(), allocated: 0, freed: 0, prefill: 0, decode: 0 }
    }

    /// One more decision.
    pub open spec fn with(self, id: u64, decision: StepDecision) -> Plan {
        Plan {
            decisions: self.decisions.insert(id, decision),
            allocated: self.allocated + allocates(decision),
            freed: self.freed + frees(decision),
            ..self
        }
    }

    /// Several more decisions, one after the other.
    pub open spec fn with_all(self, added: Seq<(u64, StepDecision)>) -> Plan
        decreases added.len(),
    {
        if added.len() == 0 {
            self
        } else {
            self.with_all(added.drop_last()).with(added.last().0, added.last().1)
        }
    }
}

/// KV blocks that a decision allocates.
pub open spec fn allocates(decision: StepDecision) -> nat {
    match decision {
        StepDecision::Admit { num_tokens, num_kv_blocks } => num_kv_blocks as nat,
        _ => 0,
    }
}

/// KV blocks that a decision is sure to free: a preemption frees at least one.
pub open spec fn frees(decision: StepDecision) -> nat {
    if decision is Preempt {
        1
    } else {
        0
    }
}

/// The requests that are admitted.
pub open spec fn admitted(decisions: Map<u64, StepDecision>) -> Set<u64> {
    decisions.dom().filter(|id: u64| decisions[id] is Admit)
}

/// The requests that are preempted.
pub open spec fn preempted(decisions: Map<u64, StepDecision>) -> Set<u64> {
    decisions.dom().filter(|id: u64| decisions[id] is Preempt)
}

/// How many of the requests are decided in the given way.
spec fn count(ids: Seq<u64>, chosen: spec_fn(u64) -> bool) -> nat
    decreases ids.len(),
{
    if ids.len() == 0 {
        0
    } else {
        count(ids.drop_last(), chosen) + (if chosen(ids.last()) {
            1nat
        } else {
            0nat
        })
    }
}

/// Counting the requests one by one counts the set.
proof fn lemma_count(ids: Seq<u64>, all: Set<u64>, chosen: spec_fn(u64) -> bool)
    requires
        ids.no_duplicates(),
        ids.to_set() == all,
    ensures
        count(ids, chosen) == all.filter(chosen).len(),
        count(ids, chosen) <= ids.len(),
        all.filter(chosen).finite(),
    decreases ids.len(),
{
    if ids.len() == 0 {
        assert(all =~= Set::empty());
        assert(all.filter(chosen) =~= Set::empty());
    } else {
        let init = ids.drop_last();
        let last = ids.last();
        let rest = all.remove(last);
        assert(init.to_set() =~= rest) by {
            assert forall|id: u64| init.to_set().contains(id) == rest.contains(id) by {
                if init.contains(id) {
                    let i = choose|i: int| 0 <= i < init.len() && init[i] == id;
                    assert(ids[i] == id);
                    assert(ids[ids.len() - 1] == last);
                    assert(all.contains(id));
                }
                if rest.contains(id) {
                    assert(ids.contains(id));
                    let i = choose|i: int| 0 <= i < ids.len() && ids[i] == id;
                    assert(init[i] == id);
                }
            }
        }
        lemma_count(init, rest, chosen);
        assert(ids.contains(last)) by {
            assert(ids[ids.len() - 1] == last);
        }
        assert(all.contains(last));
        if chosen(last) {
            assert(all.filter(chosen) =~= rest.filter(chosen).insert(last));
        } else {
            assert(all.filter(chosen) =~= rest.filter(chosen));
        }
    }
}

/// The requests that are decided in the given way.
spec fn decided(
    decisions: Map<u64, StepDecision>,
    wanted: spec_fn(StepDecision) -> bool,
) -> Set<u64> {
    decisions.dom().filter(|id: u64| wanted(decisions[id]))
}

/// How many requests are decided in the given way.
fn count_decisions<F: Fn(&StepDecision) -> bool>(
    decisions: &BTreeMap<u64, StepDecision>,
    is_wanted: F,
    Ghost(wanted): Ghost<spec_fn(StepDecision) -> bool>,
) -> (n: usize)
    requires
        forall|decision: &StepDecision| call_requires(is_wanted, (decision,)),
        forall|decision: &StepDecision, r: bool|
            call_ensures(is_wanted, (decision,), r) ==> r == wanted(*decision),
    ensures
        n == decided(decisions@, wanted).len(),
{
    let ghost chosen = |id: u64| wanted(decisions@[id]);
    let bound = decisions.len();
    let values = decisions.values();
    let ghost ids = choose|ids: Seq<u64>|
        {
            &&& ids.to_set() == decisions@.dom()
            &&& ids.no_duplicates()
            &&& values.remaining() == ids.map(|i: int, k: u64| &decisions@[k])
        };
    proof {
        lemma_count(ids, decisions@.dom(), chosen);
        ids.unique_seq_to_set();
    }
    let mut n: usize = 0;
    for decision in it: values
        invariant
            it.seq() == ids.map(|i: int, k: u64| &decisions@[k]),
            chosen == (|id: u64| wanted(decisions@[id])),
            n == count(ids.take(it.index() as int), chosen),
            n <= it.index(),
            ids.len() <= bound,
            forall|decision: &StepDecision| call_requires(is_wanted, (decision,)),
            forall|decision: &StepDecision, r: bool|
                call_ensures(is_wanted, (decision,), r) ==> r == wanted(*decision),
    {
        let ghost i = it.index() as int;
        assert(ids.take(i + 1).drop_last() =~= ids.take(i));
        if is_wanted(decision) {
            n = n + 1;
        }
    }
    assert(ids.take(ids.len() as int) =~= ids);
    n
}

impl StepPlan {
    /// Create an empty plan.
    pub fn new() -> (p: Self)
        ensures
            p.decisions@ == Map::<u64, StepDecision>::empty(),
            p.total_kv_blocks_to_allocate == 0,
            p.total_kv_blocks_freed == 0,
            p.total_prefill_tokens == 0,
            p.total_decode_tokens == 0,
            p@ == Plan::none(),
    {
        StepPlan {
            decisions: BTreeMap::new(),
            total_kv_blocks_to_allocate: 0,
            total_kv_blocks_freed: 0,
            total_prefill_tokens: 0,
            total_decode_tokens: 0,
        }
    }

    /// Add a decision for a request. It takes the place of an earlier decision
    /// for that request; the totals count both.
    pub fn add(&mut self, request_id: u64, decision: StepDecision)
        requires
            old(self).total_kv_blocks_to_allocate + allocates(decision) <= usize::MAX,
            old(self).total_kv_blocks_freed + frees(decision) <= usize::MAX,
        ensures
            final(self).decisions@ == old(self).decisions@.insert(request_id, decision),
            final(self).total_kv_blocks_to_allocate == old(self).total_kv_blocks_to_allocate
                + allocates(decision),
            final(self).total_kv_blocks_freed == old(self).total_kv_blocks_freed + frees(decision),
            final(self).total_prefill_tokens == old(self).total_prefill_tokens,
            final(self).total_decode_tokens == old(self).total_decode_tokens,
            final(self)@ == old(self)@.with(request_id, decision),
    {
        match decision {
            StepDecision::Admit { num_tokens, num_kv_blocks } => {
                self.total_kv_blocks_to_allocate = self.total_kv_blocks_to_allocate
                    + num_kv_blocks;
            },
            StepDecision::Preempt { keep_prefix } => {
                self.total_kv_blocks_freed = self.total_kv_blocks_freed + 1;
            },
            _ => {},
        }
        self.decisions.insert(request_id, decision);
    }

    /// Number of requests admitted this step.
    pub fn num_admitted(&self) -> (n: usize)
        ensures
            n == admitted(self.decisions@).len(),
    {
        let is_admit = |decision: &StepDecision| -> (r: bool)
            ensures
                r == (decision is Admit),
            { matches!(decision, StepDecision::Admit { .. }) };
        let n = count_decisions(
            &self.decisions,
            is_admit,
            Ghost(|decision: StepDecision| decision is Admit),
        );
        assert(admitted(self.decisions@) =~= decided(
            self.decisions@,
            |decision: StepDecision| decision is Admit,
        ));
        n
    }

    /// Number of requests preempted this step.
    pub fn num_preempted(&self) -> (n: usize)
        ensures
            n == preempted(self.decisions@).len(),
    {
        let is_preempt = |decision: &StepDecision| -> (r: bool)
            ensures
                r == (decision is Preempt),
            { matches!(decision, StepDecision::Preempt { .. }) };
        let n = count_decisions(
            &self.decisions,
            is_preempt,
            Ghost(|decision: StepDecision| decision is Preempt),
        );
        assert(preempted(self.decisions@) =~= decided(
            self.decisions@,
            |decision: StepDecision| decision is Preempt,
        ));
        n
    }
}

impl Default for StepPlan {
    fn default() -> (p: Self)
        ensures
            p.decisions@ == Map::<u64, StepDecision>::empty(),
            p.total_kv_blocks_to_allocate == 0,
            p.total_kv_blocks_freed == 0,
            p.total_prefill_tokens == 0,
            p.total_decode_tokens == 0,
            p@ == Plan::none(),
    {
        Self::new()
    }
}

/// Output from a component step.
///
/// Components that produce scheduling decisions fill in `plan`. Components that
/// produce data (e.g. parsers) fill in `output_buffers`. Most components fill
/// only one of the two.
#[derive(Debug)]
pub struct StepOutput {
    /// Scheduling decisions.
    pub plan: Option<StepPlan>,
    /// Output arrays. Keys are defined by the component contract.
    pub output_buffers: BTreeMap<String, Vec<u8>>,
    /// Whether this step was a no-op (no work done). The engine can use this
    /// to skip processing. Defaults to `true`: an empty output means nothing
    /// was done.
    pub no_op: bool,
}

impl Default for StepOutput {
    fn default() -> (o: Self)
        ensures
            o.plan is None,
            o.output_buffers@ == Map::<String, Vec<u8>>::empty(),
            o.no_op,
    {
        StepOutput { plan: None, output_buffers: BTreeMap::new(), no_op: true }
    }
}

/// Result of a step call.
pub type StepResult = ComponentResult<StepOutput>;

/// The core trait that every component implements.
///
/// One call per engine step. The engine gathers its state into `input` and
/// `context`, calls `step`, and reads the output.
///
/// Components are stateful: they maintain internal state across steps. The
/// engine creates one instance at startup and calls `step` repeatedly.
pub trait StepComponent: Send + Sync {
    /// The component name (e.g. "infe-kv", "infe-parsers").
    const NAME: &'static str;

    /// Process one engine step: array inputs and scalar metadata in,
    /// scheduling decisions and/or output arrays out.
    fn step(&mut self, input: &StepInput, context: &StepContext) -> StepResult;

    /// Reset the component to its initial state.
    ///
    /// Called when the engine resets (e.g. on model reload). The default does
    /// nothing. Components override it if they have state.
    fn reset(&mut self) {
    }
}

/// After a decision is added, the request counts among the admitted or the
/// preempted as the decision says, and every other request as before.
pub proof fn law_added_decision_counts(
    decisions: Map<u64, StepDecision>,
    id: u64,
    decision: StepDecision,
)
    ensures
        ({
            let after = decisions.insert(id, decision);
            &&& admitted(after) == (if decision is Admit {
                admitted(decisions).insert(id)
            } else {
                admitted(decisions).remove(id)
            })
            &&& preempted(after) == (if decision is Preempt {
                preempted(decisions).insert(id)
            } else {
                preempted(decisions).remove(id)
            })
        }),
{
    let after = decisions.insert(id, decision);
    assert(admitted(after) =~= if decision is Admit {
        admitted(decisions).insert(id)
    } else {
        admitted(decisions).remove(id)
    });
    assert(preempted(after) =~= if decision is Preempt {
        preempted(decisions).insert(id)
    } else {
        preempted(decisions).remove(id)
    });
}

/// Without decisions no request is admitted or preempted.
pub proof fn law_no_decisions()
    ensures
        admitted(Map::<u64, StepDecision>::empty()) == Set::<u64>::empty(),
        preempted(Map::<u64, StepDecision>::empty()) == Set::<u64>::empty(),
        Plan::none().decisions == Map::<u64, StepDecision>::empty(),
        Plan::none().allocated == 0 && Plan::none().freed == 0,
        Plan::none().prefill == 0 && Plan::none().decode == 0,
{
    assert(admitted(Map::<u64, StepDecision>::empty()) =~= Set::<u64>::empty());
    assert(preempted(Map::<u64, StepDecision>::empty()) =~= Set::<u64>::empty());
}

/// No request is both admitted and preempted, so the two counts together are
/// no more than the decisions.
pub proof fn law_admitted_and_preempted_differ(decisions: Map<u64, StepDecision>)
    requires
        decisions.dom().finite(),
    ensures
        admitted(decisions).disjoint(preempted(decisions)),
        admitted(decisions).len() + preempted(decisions).len() <= decisions.dom().len(),
{
    let a = admitted(decisions);
    let p = preempted(decisions);
    assert(a.disjoint(p));
    assert(a.subset_of(decisions.dom()));
    assert(p.subset_of(decisions.dom()));
    vstd::set_lib::lemma_set_disjoint_lens(a, p);
    vstd::set_lib::lemma_len_subset(a.union(p), decisions.dom());
}

/// Without KV blocks there is no pressure. Otherwise a tenth is the border: with
/// exactly a tenth free there is none, with less there is, and the more blocks are
/// free, or the fewer there are in all, the less pressure there is. What counts is
/// the share alone.
pub proof fn law_a_tenth_is_the_border(free: nat, more: nat, total: nat, times: nat)
    ensures
        !kv_pressure(free, 0),
        !kv_pressure(free, 10 * free),
        kv_pressure(free, 10 * free + 1),
        kv_pressure(free + more, total) ==> kv_pressure(free, total),
        total > 0 && kv_pressure(free, total) ==> kv_pressure(free, total + more),
        times > 0 ==> (kv_pressure(times * free, times * total) <==> kv_pressure(free, total)),
{
    if times > 0 {
        assert(times * free * 10 < times * total <==> free * 10 < total) by (nonlinear_arith)
            requires
                times > 0,
        ;
        assert(times * total > 0 <==> total > 0) by (nonlinear_arith)
            requires
                times > 0,
        ;
    }
}

/// The ratio of free KV blocks is that of the fields, and 1 without any blocks.
pub proof fn law_free_ratio(context: StepContext, ratio: (usize, usize))
    requires
        call_ensures(StepContext::kv_free_ratio, (&context,), ratio),
    ensures
        ratio.1 > 0,
        context.total_kv_blocks > 0 ==> ratio.0 * context.total_kv_blocks
            == context.free_kv_blocks * ratio.1,
        context.total_kv_blocks == 0 ==> ratio.0 == ratio.1,
{
}

/// The KV blocks of all admissions among the decisions.
pub open spec fn admitted_blocks(added: Seq<(u64, StepDecision)>) -> nat
    decreases added.len(),
{
    if added.len() == 0 {
        0
    } else {
        admitted_blocks(added.drop_last()) + (match added.last().1 {
            StepDecision::Admit { num_tokens, num_kv_blocks } => num_kv_blocks as nat,
            _ => 0,
        })
    }
}

/// The number of preemptions among the decisions.
pub open spec fn preemptions(added: Seq<(u64, StepDecision)>) -> nat
    decreases added.len(),
{
    if added.len() == 0 {
        0
    } else {
        preemptions(added.drop_last()) + (match added.last().1 {
            StepDecision::Preempt { keep_prefix } => 1nat,
            _ => 0nat,
        })
    }
}

/// The totals of a plan are the sums over the decisions that were added: the KV
/// blocks of the admissions, however many tokens they are for, and one block for
/// each preemption. Other decisions do not count.
pub proof fn law_totals_are_sums(plan: Plan, added: Seq<(u64, StepDecision)>)
    ensures
        plan.with_all(added).allocated == plan.allocated + admitted_blocks(added),
        plan.with_all(added).freed == plan.freed + preemptions(added),
        plan.with_all(added).prefill == plan.prefill,
        plan.with_all(added).decode == plan.decode,
    decreases added.len(),
{
    if added.len() > 0 {
        law_totals_are_sums(plan, added.drop_last());
    }
}

/// A request has the last decision that was added for it, and the decision that it
/// had before if none was.
pub proof fn law_last_decision_counts(plan: Plan, added: Seq<(u64, StepDecision)>, at: int, id: u64)
    ensures
        0 <= at < added.len() && (forall|j: int| at < j < added.len() ==> (#[trigger] added[j]).0
            != added[at].0) ==> plan.with_all(added).decisions.contains_pair(
            added[at].0,
            added[at].1,
        ),
        (forall|j: int| 0 <= j < added.len() ==> (#[trigger] added[j]).0 != id) ==> {
            &&& plan.with_all(added).decisions.contains_key(id) <==> plan.decisions.contains_key(id)
            &&& plan.with_all(added).decisions[id] == plan.decisions[id]
        },
    decreases added.len(),
{
    if added.len() > 0 {
        let init = added.drop_last();
        let last = added.last();
        law_last_decision_counts(plan, init, at, id);
        assert(added[added.len() - 1] == last);
        assert forall|j: int| 0 <= j < init.len() implies init[j] == added[j] by {}
        if forall|j: int| 0 <= j < added.len() ==> (#[trigger] added[j]).0 != id {
            assert forall|j: int| 0 <= j < init.len() implies (#[trigger] init[j]).0 != id by {
                assert(added[j].0 != id);
            }
        }
        if 0 <= at < init.len() && (forall|j: int|
            at < j < added.len() ==> (#[trigger] added[j]).0 != added[at].0) {
            assert forall|j: int| at < j < init.len() implies (#[trigger] init[j]).0
                != init[at].0 by {
                assert(added[j].0 != added[at].0);
            }
            assert(added[added.len() - 1].0 != added[at].0);
        }
    }
}

} // verus!
