use vstd::prelude::*;
use vstd::seq_lib::seq_to_set_is_finite;
use vstd::set_lib::lemma_len_subset;
use crate::error::{
    default_error_handler, default_strategy, SystemErrorContext, SystemErrorStrategy, TX2Error,
};
use crate::world::World;

verus! {

/// Identifier of a registered system, unique within a scheduler.
pub type SystemId = String;

/// The fixed per-tick sequence of stages in which systems run.
#[derive(Debug, Clone, Copy, PartialEq, Eq, Hash, Structural)]
pub enum SystemPhase {
    Init,
    FixedUpdate,
    Update,
    LateUpdate,
    Cleanup,
}

/// The position of a phase in the fixed sequence.
pub open spec fn phase_index_spec(p: SystemPhase) -> int {
    match p {
        SystemPhase::Init => 0,
        SystemPhase::FixedUpdate => 1,
        SystemPhase::Update => 2,
        SystemPhase::LateUpdate => 3,
        SystemPhase::Cleanup => 4,
    }
}

/// The name a phase carries in failure contexts.
pub open spec fn phase_name_spec(phase: SystemPhase) -> Seq<char> {
    match phase {
        SystemPhase::Init => "init"@,
        SystemPhase::FixedUpdate => "fixedUpdate"@,
        SystemPhase::Update => "update"@,
        SystemPhase::LateUpdate => "lateUpdate"@,
        SystemPhase::Cleanup => "cleanup"@,
    }
}

/// Builds the name a phase carries in failure contexts.
pub fn phase_name(phase: SystemPhase) -> (r: String)
    ensures
        r@ == phase_name_spec(phase),
{
    match phase {
        SystemPhase::Init => "init".to_owned(),
        SystemPhase::FixedUpdate => "fixedUpdate".to_owned(),
        SystemPhase::Update => "update".to_owned(),
        SystemPhase::LateUpdate => "lateUpdate".to_owned(),
        SystemPhase::Cleanup => "cleanup".to_owned(),
    }
}

/// What one invocation receives beside the world: frame timing in the
/// driver's integer time unit, and the running phase.
pub struct SystemContext {
    pub delta_time: u64,
    pub time: u64,
    pub phase: SystemPhase,
}

/// The behavior of a system. Implementors promise to leave the world well
/// formed; the runtime promises exclusive access for the invocation.
pub trait SystemFn {
    /// What the per-system error handler decides; `None` defers to the
    /// default policy. A behavior with a handler of its own overrides both
    /// this description and `on_error` together.
    open spec fn on_error_spec(&self, ctx: SystemErrorContext) -> Option<SystemErrorStrategy> {
        Option::None
    }

    /// One invocation of the behavior, with exclusive world access.
    fn run(&mut self, world: &mut World, ctx: &SystemContext) -> (r: Result<(), String>)
        requires
            old(world).wf(),
        ensures
            final(world).wf(),
    ;

    /// The per-system error handler; `None` defers to the default policy.
    fn on_error(&self, ctx: &SystemErrorContext) -> (r: Option<SystemErrorStrategy>)
        ensures
            r == self.on_error_spec(*ctx),
    ;
}

/// The failure counter saturates instead of wrapping.
pub open spec fn sat_inc(n: u32) -> u32 {
    if n == u32::MAX {
        n
    } else {
        (n + 1) as u32
    }
}

/// A registered unit of behavior: identity, scheduling attributes, failure
/// state, and the behavior itself.
pub struct System<F: SystemFn> {
    pub id: SystemId,
    pub name: String,
    pub phases: Vec<SystemPhase>,
    pub priority: i32,
    pub run_before: Vec<SystemId>,
    pub run_after: Vec<SystemId>,
    pub enabled: bool,
    pub consecutive_failures: u32,
    pub fn_ptr: F,
}

impl<F: SystemFn> System<F> {
    /// The behavior value, for specifications.
    pub closed spec fn behavior(self) -> F {
        self.fn_ptr
    }

    /// The scheduling attributes a run never changes.
    pub open spec fn same_shape(s0: System<F>, s1: System<F>) -> bool {
        &&& s1.id == s0.id
        &&& s1.name == s0.name
        &&& s1.phases == s0.phases
        &&& s1.priority == s0.priority
        &&& s1.run_before == s0.run_before
        &&& s1.run_after == s0.run_after
    }

    pub fn new(
        id: SystemId,
        name: String,
        phases: Vec<SystemPhase>,
        priority: i32,
        run_before: Vec<SystemId>,
        run_after: Vec<SystemId>,
        func: F,
    ) -> (s: System<F>)
        ensures
            s.id == id,
            s.name == name,
            s.phases == phases,
            s.priority == priority,
            s.run_before == run_before,
            s.run_after == run_after,
            s.enabled,
            s.consecutive_failures == 0,
            s.behavior() == func,
    {
        System {
            id,
            name,
            phases,
            priority,
            run_before,
            run_after,
            enabled: true,
            consecutive_failures: 0,
            fn_ptr: func,
        }
    }

    /// Runs the behavior once, unless disabled. On success the failure
    /// counter resets; on failure it is incremented and the error policy —
    /// the system's own handler, or the default rule — decides whether the
    /// system stays enabled.
    pub fn run(&mut self, world: &mut World, ctx: &SystemContext)
        requires
            old(world).wf(),
        ensures
            final(world).wf(),
            run_transition(*old(self), *final(self), ctx.phase),
            !old(self).enabled ==> *final(self) == *old(self) && *final(world) == *old(world),
    {
        if !self.enabled {
            return ;
        }
        let r = self.fn_ptr.run(world, ctx);
        match r {
            Ok(_) => {
                self.consecutive_failures = 0;
            },
            Err(e) => {
                if self.consecutive_failures < u32::MAX {
                    self.consecutive_failures = self.consecutive_failures + 1;
                }
                let error_ctx = SystemErrorContext {
                    system_id: self.id.clone(),
                    error: e,
                    phase: phase_name(ctx.phase),
                    consecutive_failures: self.consecutive_failures,
                };
                let strategy = match self.fn_ptr.on_error(&error_ctx) {
                    Some(s) => s,
                    None => default_error_handler(&error_ctx),
                };
                match strategy {
                    SystemErrorStrategy::Disable => {
                        self.enabled = false;
                    },
                    SystemErrorStrategy::Ignore => {},
                    SystemErrorStrategy::Retry => {},
                }
                proof {
                    assert(failure_step(*old(self), *self, ctx.phase)) by {
                        assert(error_ctx.system_id@ == old(self).id@);
                        assert(error_ctx.phase@ == phase_name_spec(ctx.phase));
                        assert(self.consecutive_failures == sat_inc(
                            old(self).consecutive_failures));
                        assert(self.behavior() == self.fn_ptr);
                        assert(witnesses_failure(*old(self), *self, ctx.phase, error_ctx));
                    }
                }
            },
        }
    }
}

/// One concrete failure context explains the observed transition.
pub open spec fn witnesses_failure<F: SystemFn>(
    s0: System<F>,
    s1: System<F>,
    phase: SystemPhase,
    ectx: SystemErrorContext,
) -> bool {
    &&& ectx.system_id@ == s0.id@
    &&& ectx.phase@ == phase_name_spec(phase)
    &&& ectx.consecutive_failures == s1.consecutive_failures
    &&& s1.consecutive_failures == sat_inc(s0.consecutive_failures)
    &&& {
        let strat = match s1.behavior().on_error_spec(ectx) {
            Some(s) => s,
            None => default_strategy(ectx.consecutive_failures),
        };
        s1.enabled == (strat != SystemErrorStrategy::Disable)
    }
}

/// How a failing run changes a system: the counter is incremented, and the
/// system stays enabled exactly when the resolved strategy — its own
/// handler's, or the default rule's — is not `Disable`.
pub open spec fn failure_step<F: SystemFn>(
    s0: System<F>,
    s1: System<F>,
    phase: SystemPhase,
) -> bool {
    exists|ectx: SystemErrorContext| #[trigger] witnesses_failure(s0, s1, phase, ectx)
}

/// Whether the system declares the phase.
pub open spec fn declares_phase<F: SystemFn>(s: System<F>, p: SystemPhase) -> bool {
    s.phases@.contains(p)
}

/// Whether the system lists the identifier as a predecessor.
pub open spec fn lists_after<F: SystemFn>(s: System<F>, id: Seq<char>) -> bool {
    exists|t: int| 0 <= t < s.run_after@.len() && (#[trigger] s.run_after@[t])@ == id
}

/// Two distinct systems that each name the other as predecessor.
pub open spec fn mutual<F: SystemFn>(systems: Seq<System<F>>, i: int, j: int) -> bool {
    &&& 0 <= i < systems.len()
    &&& 0 <= j < systems.len()
    &&& i != j
    &&& lists_after(systems[i], systems[j].id@)
    &&& lists_after(systems[j], systems[i].id@)
}

/// A mutual predecessor pair whose members both declare the phase.
pub open spec fn mutual_in_phase<F: SystemFn>(systems: Seq<System<F>>, p: SystemPhase) -> bool {
    exists|i: int, j: int|
        #[trigger] mutual(systems, i, j) && declares_phase(systems[i], p) && declares_phase(
            systems[j],
            p,
        )
}

/// Whether no system carries any ordering constraint.
pub open spec fn unconstrained<F: SystemFn>(systems: Seq<System<F>>) -> bool {
    forall|k: int|
        0 <= k < systems.len() ==> (#[trigger] systems[k]).run_after@.len() == 0
            && systems[k].run_before@.len() == 0
}

/// Whether no system carries a successor constraint; only then is no
/// candidate ever silently dropped from an order.
pub open spec fn no_befores<F: SystemFn>(systems: Seq<System<F>>) -> bool {
    forall|k: int| 0 <= k < systems.len() ==> (#[trigger] systems[k]).run_before@.len() == 0
}

/// Whether the system lists the identifier as a successor.
pub open spec fn lists_before<F: SystemFn>(s: System<F>, id: Seq<char>) -> bool {
    exists|t: int| 0 <= t < s.run_before@.len() && (#[trigger] s.run_before@[t])@ == id
}

/// The position of the system carrying the identifier; with unique
/// identifiers, the only one.
pub open spec fn named_index<F: SystemFn>(systems: Seq<System<F>>, id: Seq<char>) -> int {
    choose|k: int| 0 <= k < systems.len() && (#[trigger] systems[k]).id@ == id
}

/// How one phase execution may change one system: exactly one run of
/// `System::run`, or nothing at all.
pub open spec fn run_transition<F: SystemFn>(
    s0: System<F>,
    s1: System<F>,
    phase: SystemPhase,
) -> bool {
    &&& System::same_shape(s0, s1)
    &&& (!s0.enabled ==> s1 == s0)
    &&& (s0.enabled ==> (s1.enabled && s1.consecutive_failures == 0) || failure_step(
        s0,
        s1,
        phase,
    ))
}

/// What a phase's computed execution order promises: every named system is
/// a registered candidate of the phase, no system is named twice; when no
/// successor constraint exists, every named predecessor precedes its
/// dependent; and when no constraint exists at all, the order is exactly
/// the candidates, highest priority first, registration order on ties.
pub open spec fn valid_phase_order<F: SystemFn>(
    systems: Seq<System<F>>,
    phase: SystemPhase,
    o: Seq<SystemId>,
) -> bool {
    &&& forall|t: int|
        0 <= t < o.len() ==> exists|k: int|
            0 <= k < systems.len() && (#[trigger] o[t])@ == systems[k].id@ && declares_phase(
                systems[k],
                phase,
            )
    &&& forall|t1: int, t2: int| 0 <= t1 < t2 < o.len() ==> (o[t1])@ != (o[t2])@
    &&& (no_befores(systems) ==> forall|t1: int, t2: int|
        #![trigger o[t1], o[t2]]
        0 <= t1 < o.len() && 0 <= t2 < o.len() && lists_after(
            systems[named_index(systems, (o[t2])@)],
            (o[t1])@,
        ) ==> t1 < t2)
    &&& (unconstrained(systems) ==> forall|x: int|
        0 <= x < systems.len() && declares_phase(#[trigger] systems[x], phase) ==> exists|t: int|
            0 <= t < o.len() && (#[trigger] o[t])@ == systems[x].id@)
    &&& (unconstrained(systems) ==> forall|t1: int, t2: int|
        #![trigger o[t1], o[t2]]
        0 <= t1 < t2 < o.len() ==> {
            let k1 = named_index(systems, (o[t1])@);
            let k2 = named_index(systems, (o[t2])@);
            systems[k1].priority > systems[k2].priority || (systems[k1].priority
                == systems[k2].priority && k1 < k2)
        })
}

spec fn sys_ids_unique<F: SystemFn>(systems: Seq<System<F>>) -> bool {
    forall|i: int, j: int| 0 <= i < j < systems.len() ==> systems[i].id@ != systems[j].id@
}

/// Whether the index has a mutual partner within the candidate set.
spec fn has_partner<F: SystemFn>(systems: Seq<System<F>>, cand: Seq<usize>, v: usize) -> bool {
    exists|w: usize| #[trigger] cand.contains(w) && mutual(systems, v as int, w as int)
}

/// No member of any mutual pair among the candidates has been finalized.
spec fn no_pair_visited<F: SystemFn>(
    systems: Seq<System<F>>,
    cand: Seq<usize>,
    visited: Seq<usize>,
) -> bool {
    forall|v: usize|
        cand.contains(v) && #[trigger] has_partner(systems, cand, v) ==> !visited.contains(v)
}

/// The finalized order and the visited set move in step: each appended
/// identifier is the identifier of the candidate finalized at that point.
spec fn order_matches<F: SystemFn>(
    systems: Seq<System<F>>,
    cand: Seq<usize>,
    order: Seq<SystemId>,
    visited: Seq<usize>,
) -> bool {
    &&& visited.len() == order.len()
    &&& visited.no_duplicates()
    &&& forall|t: int| 0 <= t < visited.len() ==> cand.contains(#[trigger] visited[t])
    &&& forall|t: int|
        0 <= t < visited.len() ==> (#[trigger] order[t])@ == systems[visited[t] as int].id@
}

/// Every candidate predecessor of a finalized candidate was finalized
/// earlier; holds throughout when no successor constraint can drop anyone.
spec fn preds_closed<F: SystemFn>(
    systems: Seq<System<F>>,
    cand: Seq<usize>,
    visited: Seq<usize>,
) -> bool {
    forall|t: int, j: usize|
        #![trigger visited[t], cand.contains(j)]
        0 <= t < visited.len() && cand.contains(j) && lists_after(
            systems[visited[t] as int],
            systems[j as int].id@,
        ) ==> exists|t2: int| 0 <= t2 < t && visited[t2] == j
}

/// Whether the identifier occurs in the vector.
fn contains_usize(v: &Vec<usize>, x: usize) -> (r: bool)
    ensures
        r == v@.contains(x),
{
    let n = v.len();
    let mut i: usize = 0;
    while i < n
        invariant
            n == v@.len(),
            i <= n,
            forall|k: int| 0 <= k < i ==> v@[k] != x,
        decreases n - i,
    {
        if v[i] == x {
            proof {
                assert(v@[i as int] == x);
            }
            return true;
        }
        i = i + 1;
    }
    false
}

proof fn lemma_usize_push_contains(s: Seq<usize>, e: usize)
    ensures
        forall|z: usize| s.push(e).contains(z) == (s.contains(z) || z == e),
{
    assert forall|z: usize| s.push(e).contains(z) == (s.contains(z) || z == e) by {
        if s.contains(z) {
            let k = choose|k: int| 0 <= k < s.len() && s[k] == z;
            assert(s.push(e)[k] == z);
        }
        assert(s.push(e)[s.len() as int] == e);
        if s.push(e).contains(z) && z != e {
            let k = choose|k: int| 0 <= k < s.push(e).len() && s.push(e)[k] == z;
            assert(s[k] == z);
        }
    }
}

proof fn lemma_usize_push_nodup(s: Seq<usize>, e: usize)
    requires
        s.no_duplicates(),
        !s.contains(e),
    ensures
        s.push(e).no_duplicates(),
{
    let t = s.push(e);
    assert forall|a: int, b: int| 0 <= a < t.len() && 0 <= b < t.len() && a != b implies t[a]
        != t[b] by {
        if a < s.len() && b < s.len() {
        } else if a < s.len() {
            if s[a] == e {
                assert(s.contains(e));
            }
        } else {
            if s[b] == e {
                assert(s.contains(e));
            }
        }
    }
}

/// A valid phase order stays valid across run transitions: they never touch
/// identifiers, phases, priorities or constraints.
proof fn lemma_valid_order_shape_preserved<F: SystemFn>(
    s1: Seq<System<F>>,
    s2: Seq<System<F>>,
    phase: SystemPhase,
    o: Seq<SystemId>,
)
    requires
        s2.len() == s1.len(),
        forall|k: int| 0 <= k < s1.len() ==> System::same_shape(#[trigger] s1[k], s2[k]),
        sys_ids_unique(s1),
        valid_phase_order(s1, phase, o),
    ensures
        valid_phase_order(s2, phase, o),
{
    assert forall|k: int| 0 <= k < s1.len() implies (#[trigger] s2[k]).id@ == s1[k].id@
        && s2[k].phases == s1[k].phases && s2[k].run_after == s1[k].run_after
        && s2[k].run_before == s1[k].run_before && s2[k].priority == s1[k].priority by {}
    assert forall|t: int| 0 <= t < o.len() implies exists|k: int|
        0 <= k < s2.len() && (#[trigger] o[t])@ == s2[k].id@ && declares_phase(s2[k], phase) by {
        let k = choose|k: int|
            0 <= k < s1.len() && (#[trigger] o[t])@ == s1[k].id@ && declares_phase(s1[k], phase);
        assert((o[t])@ == s2[k].id@ && declares_phase(s2[k], phase));
    }
    assert forall|id: Seq<char>, k: int|
        #![trigger named_index(s2, id), s2[k]]
        0 <= k < s2.len() && s2[k].id@ == id implies named_index(s2, id) == k && named_index(
            s1,
            id,
        ) == k by {
        let k2 = named_index(s2, id);
        assert(s2[k].id@ == id);
        assert(0 <= k2 < s2.len() && s2[k2].id@ == id);
        if k2 != k {
            if k2 < k {
                assert(s1[k2].id@ != s1[k].id@);
            } else {
                assert(s1[k].id@ != s1[k2].id@);
            }
        }
        let k1 = named_index(s1, id);
        assert(s1[k].id@ == id);
        assert(0 <= k1 < s1.len() && s1[k1].id@ == id);
        if k1 != k {
            if k1 < k {
                assert(s1[k1].id@ != s1[k].id@);
            } else {
                assert(s1[k].id@ != s1[k1].id@);
            }
        }
    }
    assert(no_befores(s2) == no_befores(s1)) by {
        if no_befores(s1) {
            assert forall|k: int| 0 <= k < s2.len() implies (#[trigger] s2[k]).run_before@.len()
                == 0 by {
                assert(s1[k].run_before@.len() == 0);
            }
        }
        if no_befores(s2) {
            assert forall|k: int| 0 <= k < s1.len() implies (#[trigger] s1[k]).run_before@.len()
                == 0 by {
                assert(s2[k].run_before@.len() == 0);
            }
        }
    }
    assert(unconstrained(s2) == unconstrained(s1)) by {
        if unconstrained(s1) {
            assert forall|k: int| 0 <= k < s2.len() implies (#[trigger] s2[k]).run_after@.len()
                == 0 && s2[k].run_before@.len() == 0 by {
                assert(s1[k].run_after@.len() == 0 && s1[k].run_before@.len() == 0);
            }
        }
        if unconstrained(s2) {
            assert forall|k: int| 0 <= k < s1.len() implies (#[trigger] s1[k]).run_after@.len()
                == 0 && s1[k].run_before@.len() == 0 by {
                assert(s2[k].run_after@.len() == 0 && s2[k].run_before@.len() == 0);
            }
        }
    }
    if no_befores(s2) {
        assert forall|t1: int, t2: int|
            #![trigger o[t1], o[t2]]
            0 <= t1 < o.len() && 0 <= t2 < o.len() && lists_after(
                s2[named_index(s2, (o[t2])@)],
                (o[t1])@,
            ) implies t1 < t2 by {
            let k = choose|k: int|
                0 <= k < s1.len() && (#[trigger] o[t2])@ == s1[k].id@ && declares_phase(
                    s1[k],
                    phase,
                );
            assert(s2[k].id@ == (o[t2])@);
            assert(named_index(s2, (o[t2])@) == k && named_index(s1, (o[t2])@) == k);
            assert(lists_after(s1[k], (o[t1])@));
        }
    }
    if unconstrained(s2) {
        assert forall|x: int|
            0 <= x < s2.len() && declares_phase(#[trigger] s2[x], phase) implies exists|t: int|
            0 <= t < o.len() && (#[trigger] o[t])@ == s2[x].id@ by {
            assert(declares_phase(s1[x], phase));
            let t = choose|t: int| 0 <= t < o.len() && (#[trigger] o[t])@ == s1[x].id@;
        }
        assert forall|t1: int, t2: int|
            #![trigger o[t1], o[t2]]
            0 <= t1 < t2 < o.len() implies {
            let k1 = named_index(s2, (o[t1])@);
            let k2 = named_index(s2, (o[t2])@);
            s2[k1].priority > s2[k2].priority || (s2[k1].priority == s2[k2].priority && k1 < k2)
        } by {
            let j1 = choose|k: int|
                0 <= k < s1.len() && (#[trigger] o[t1])@ == s1[k].id@ && declares_phase(
                    s1[k],
                    phase,
                );
            let j2 = choose|k: int|
                0 <= k < s1.len() && (#[trigger] o[t2])@ == s1[k].id@ && declares_phase(
                    s1[k],
                    phase,
                );
            assert(s2[j1].id@ == (o[t1])@ && s2[j2].id@ == (o[t2])@);
            assert(named_index(s2, (o[t1])@) == j1 && named_index(s1, (o[t1])@) == j1);
            assert(named_index(s2, (o[t2])@) == j2 && named_index(s1, (o[t2])@) == j2);
            assert(s1[j1].priority > s1[j2].priority || (s1[j1].priority == s1[j2].priority
                && j1 < j2));
        }
    }
}

/// A duplicate-free sequence drawn from another duplicate-free sequence is
/// no longer than it.
proof fn lemma_unique_subset_len(sub: Seq<usize>, sup: Seq<usize>)
    requires
        sub.no_duplicates(),
        sup.no_duplicates(),
        forall|x: usize| sub.contains(x) ==> sup.contains(x),
    ensures
        sub.len() <= sup.len(),
{
    broadcast use seq_to_set_is_finite;

    sub.unique_seq_to_set();
    sup.unique_seq_to_set();
    lemma_len_subset(sub.to_set(), sup.to_set());
}


/// Assembles a phase's order validity from the DFS bookkeeping: the
/// correspondence of order and finalized set, predecessor closure, and the
/// sorted candidate characterization.
proof fn lemma_phase_order_valid<F: SystemFn>(
    systems: Seq<System<F>>,
    phase: SystemPhase,
    cand: Seq<usize>,
    visited: Seq<usize>,
    order: Seq<SystemId>,
)
    requires
        sys_ids_unique(systems),
        systems.len() <= usize::MAX,
        cand.no_duplicates(),
        forall|t: int| 0 <= t < cand.len() ==> cand[t] < systems.len(),
        forall|x: usize|
            #[trigger] cand.contains(x) == (x < systems.len() && declares_phase(
                systems[x as int],
                phase,
            )),
        forall|a: int, b: int|
            #![trigger cand[a], cand[b]]
            0 <= a < b < cand.len() ==> systems[cand[a] as int].priority
                > systems[cand[b] as int].priority || (systems[cand[a] as int].priority
                == systems[cand[b] as int].priority && cand[a] < cand[b]),
        order_matches(systems, cand, order, visited),
        no_befores(systems) ==> preds_closed(systems, cand, visited),
        no_befores(systems) ==> forall|t: int|
            0 <= t < cand.len() ==> visited.contains(#[trigger] cand[t]),
        unconstrained(systems) ==> visited =~= cand,
    ensures
        valid_phase_order(systems, phase, order),
{
    assert(valid_phase_order(systems, phase, order)) by {
                assert forall|t: int| 0 <= t < order.len() implies exists|k: int|
                    0 <= k < systems.len() && (#[trigger] order[t])@
                        == systems[k].id@ && declares_phase(systems[k], phase) by {
                    let k = visited[t];
                    assert(cand.contains(k));
                    assert(0 <= k < systems.len() && (order[t])@
                        == systems[k as int].id@ && declares_phase(
                        systems[k as int], phase));
                }
                assert forall|t1: int, t2: int| 0 <= t1 < t2 < order.len() implies (
                    order[t1])@ != (order[t2])@ by {
                    assert(visited[t1] != visited[t2]);
                    assert(cand.contains(visited[t1]));
                    assert(cand.contains(visited[t2]));
                    if (visited[t1] as int) < (visited[t2] as int) {
                        assert(systems[visited[t1] as int].id@
                            != systems[visited[t2] as int].id@);
                    } else {
                        assert(systems[visited[t2] as int].id@
                            != systems[visited[t1] as int].id@);
                    }
                }
                if no_befores(systems) {
                    assert forall|t1: int, t2: int|
                        #![trigger order[t1], order[t2]]
                        0 <= t1 < order.len() && 0 <= t2 < order.len() && lists_after(
                            systems[named_index(systems, (order[t2])@)],
                            (order[t1])@,
                        ) implies t1 < t2 by {
                        let k2 = named_index(systems, (order[t2])@);
                        assert(cand.contains(visited[t2]));
                        assert(0 <= k2 < systems.len() && systems[k2].id@ == (
                            order[t2])@) by {
                            assert(systems[visited[t2] as int].id@ == (order[t2])@);
                        }
                        assert(k2 == visited[t2] as int) by {
                            if k2 != visited[t2] as int {
                                if k2 < visited[t2] as int {
                                    assert(systems[k2].id@
                                        != systems[visited[t2] as int].id@);
                                } else {
                                    assert(systems[visited[t2] as int].id@
                                        != systems[k2].id@);
                                }
                            }
                        }
                        let j = visited[t1];
                        assert(cand.contains(j));
                        assert(lists_after(systems[visited[t2] as int],
                            systems[j as int].id@));
                        let t2b = choose|t2b: int| 0 <= t2b < t2 && visited[t2b] == j;
                        assert(t2b == t1) by {
                            if t2b != t1 {
                                assert(visited[t2b] != visited[t1]);
                            }
                        }
                    }
                }
                if unconstrained(systems) {
                    assert forall|x: int|
                        0 <= x < systems.len() && declares_phase(
                            #[trigger] systems[x], phase) implies exists|t: int|
                        0 <= t < order.len() && (#[trigger] order[t])@
                            == systems[x].id@ by {
                        assert(((x as usize) as int) == x);
                        assert(cand.contains(x as usize)) by {
                            assert((x as usize) < systems.len() && declares_phase(
                                systems[(x as usize) as int], phase));
                        }
                        let t = choose|t: int| 0 <= t < cand.len() && cand[t] == x as usize;
                        assert(visited[t] == x as usize);
                        assert((order[t])@ == systems[x].id@);
                    }
                    assert forall|t1: int, t2: int|
                        #![trigger order[t1], order[t2]]
                        0 <= t1 < t2 < order.len() implies {
                        let k1 = named_index(systems, (order[t1])@);
                        let k2 = named_index(systems, (order[t2])@);
                        systems[k1].priority > systems[k2].priority || (
                        systems[k1].priority == systems[k2].priority && k1 < k2)
                    } by {
                        let k1 = named_index(systems, (order[t1])@);
                        let k2 = named_index(systems, (order[t2])@);
                        assert(visited[t1] == cand[t1] && visited[t2] == cand[t2]);
                        assert(systems[cand[t1] as int].id@ == (order[t1])@);
                        assert(systems[cand[t2] as int].id@ == (order[t2])@);
                        assert(k1 == cand[t1] as int) by {
                            assert(0 <= k1 < systems.len() && systems[k1].id@ == (
                                order[t1])@);
                            if k1 != cand[t1] as int {
                                if k1 < cand[t1] as int {
                                    assert(systems[k1].id@
                                        != systems[cand[t1] as int].id@);
                                } else {
                                    assert(systems[cand[t1] as int].id@
                                        != systems[k1].id@);
                                }
                            }
                        }
                        assert(k2 == cand[t2] as int) by {
                            assert(0 <= k2 < systems.len() && systems[k2].id@ == (
                                order[t2])@);
                            if k2 != cand[t2] as int {
                                if k2 < cand[t2] as int {
                                    assert(systems[k2].id@
                                        != systems[cand[t2] as int].id@);
                                } else {
                                    assert(systems[cand[t2] as int].id@
                                        != systems[k2].id@);
                                }
                            }
                        }
                        assert(systems[cand[t1] as int].priority
                            > systems[cand[t2] as int].priority || (systems[
                        cand[t1] as int].priority == systems[cand[t2] as int].priority
                            && cand[t1] < cand[t2]));
                    }
                }
            }
}

/// Holds registered systems and a cached execution order per phase,
/// recomputed after any registration change.
pub struct SystemScheduler<F: SystemFn> {
    systems: Vec<System<F>>,
    execution_order: Vec<Vec<SystemId>>,
    dirty: bool,
}

impl<F: SystemFn> SystemScheduler<F> {
    /// The registered systems, in registration order.
    pub closed spec fn systems(self) -> Seq<System<F>> {
        self.systems@
    }

    /// Whether the cached execution order is stale.
    pub closed spec fn dirty(self) -> bool {
        self.dirty
    }

    /// Identifiers are unique, one order slot exists for each phase, and a
    /// non-stale cache holds a valid order for every phase.
    pub closed spec fn wf(self) -> bool {
        &&& sys_ids_unique(self.systems@)
        &&& self.execution_order@.len() == 5
        &&& (!self.dirty ==> forall|p: SystemPhase|
            valid_phase_order(
                self.systems@,
                p,
                (#[trigger] self.execution_order@[phase_index_spec(p)])@,
            ))
    }

    /// The cached execution order of a phase.
    pub closed spec fn order_for(self, phase: SystemPhase) -> Seq<SystemId> {
        self.execution_order@[phase_index_spec(phase)]@
    }

    pub fn new() -> (r: SystemScheduler<F>)
        ensures
            r.wf(),
            r.systems().len() == 0,
            r.dirty(),
    {
        let mut orders: Vec<Vec<SystemId>> = Vec::new();
        orders.push(Vec::new());
        orders.push(Vec::new());
        orders.push(Vec::new());
        orders.push(Vec::new());
        orders.push(Vec::new());
        SystemScheduler { systems: Vec::new(), execution_order: orders, dirty: true }
    }

    fn find_system(&self, id: &String) -> (r: Option<usize>)
        ensures
            match r {
                Some(i) => 0 <= i < self.systems@.len() && self.systems@[i as int].id@ == id@,
                None => forall|k: int|
                    0 <= k < self.systems@.len() ==> (#[trigger] self.systems@[k]).id@ != id@,
            },
    {
        let n = self.systems.len();
        let mut i: usize = 0;
        while i < n
            invariant
                n == self.systems@.len(),
                i <= n,
                forall|k: int| 0 <= k < i ==> (#[trigger] self.systems@[k]).id@ != id@,
            decreases n - i,
        {
            if self.systems[i].id == *id {
                return Some(i);
            }
            i = i + 1;
        }
        None
    }

    /// Registers a system; a duplicate identifier is a usage error and
    /// yields a fatal result. The cached order becomes stale.
    pub fn add(&mut self, system: System<F>) -> (r: Result<(), TX2Error>)
        requires
            old(self).wf(),
        ensures
            final(self).wf(),
            r is Ok <==> !exists|k: int|
                0 <= k < old(self).systems().len() && (#[trigger] old(self).systems()[k]).id@
                    == system.id@,
            r is Ok ==> final(self).systems() == old(self).systems().push(system) && final(
                self).dirty(),
            r is Err ==> *final(self) == *old(self),
    {
        match self.find_system(&system.id) {
            Some(i) => {
                proof {
                    assert((old(self).systems()[i as int]).id@ == system.id@);
                }
                Err(TX2Error::duplicate_system())
            },
            None => {
                let ghost pre = self.systems@;
                let ghost gid = system.id@;
                self.systems.push(system);
                self.dirty = true;
                proof {
                    assert forall|a: int, b: int|
                        0 <= a < b < self.systems@.len() implies self.systems@[a].id@
                        != self.systems@[b].id@ by {
                        if b == pre.len() {
                            assert(self.systems@[a] == pre[a]);
                            assert(pre[a].id@ != gid);
                        } else {
                            assert(self.systems@[a] == pre[a]);
                            assert(self.systems@[b] == pre[b]);
                        }
                    }
                }
                Ok(())
            },
        }
    }

    /// Unregisters a system by identifier; reports whether it existed. The
    /// cached order becomes stale.
    pub fn remove(&mut self, system_id: &String) -> (r: bool)
        requires
            old(self).wf(),
        ensures
            final(self).wf(),
            r == exists|k: int|
                0 <= k < old(self).systems().len() && (#[trigger] old(self).systems()[k]).id@
                    == system_id@,
            forall|k: int|
                0 <= k < final(self).systems().len()
                    ==> (#[trigger] final(self).systems()[k]).id@ != system_id@,
            r ==> final(self).dirty(),
            !r ==> *final(self) == *old(self),
    {
        match self.find_system(system_id) {
            Some(i) => {
                let ghost pre = self.systems@;
                self.systems.remove(i);
                self.dirty = true;
                proof {
                    pre.remove_ensures(i as int);
                    assert(pre[i as int].id@ == system_id@);
                    assert((old(self).systems()[i as int]).id@ == system_id@);
                    assert forall|k: int|
                        0 <= k < self.systems@.len() implies (#[trigger] self.systems@[k]).id@
                        != system_id@ by {
                        if k < i {
                            assert(self.systems@[k] == pre[k]);
                        } else {
                            assert(self.systems@[k] == pre[k + 1]);
                        }
                    }
                    assert forall|a: int, b: int|
                        0 <= a < b < self.systems@.len() implies self.systems@[a].id@
                        != self.systems@[b].id@ by {
                        let a2: int = if a < i {
                            a
                        } else {
                            a + 1
                        };
                        let b2: int = if b < i {
                            b
                        } else {
                            b + 1
                        };
                        assert(self.systems@[a] == pre[a2] && self.systems@[b] == pre[b2]);
                    }
                }
                true
            },
            None => false,
        }
    }

    /// The candidate systems of a phase, in registration order.
    fn phase_candidates(&self, phase: SystemPhase) -> (r: Vec<usize>)
        ensures
            r@.no_duplicates(),
            forall|t: int| 0 <= t < r@.len() ==> r@[t] < self.systems@.len(),
            forall|a: int, b: int| 0 <= a < b < r@.len() ==> r@[a] < r@[b],
            forall|k: usize|
                #[trigger] r@.contains(k) == (k < self.systems@.len() && declares_phase(
                    self.systems@[k as int],
                    phase,
                )),
    {
        let n = self.systems.len();
        let mut out: Vec<usize> = Vec::new();
        let mut i: usize = 0;
        while i < n
            invariant
                n == self.systems@.len(),
                i <= n,
                out@.no_duplicates(),
                forall|t: int| 0 <= t < out@.len() ==> out@[t] < i,
                forall|a: int, b: int| 0 <= a < b < out@.len() ==> out@[a] < out@[b],
                forall|k: usize|
                    #[trigger] out@.contains(k) == (k < i && declares_phase(
                        self.systems@[k as int],
                        phase,
                    )),
            decreases n - i,
        {
            let ghost pre_out = out@;
            if self.has_phase(i, phase) {
                out.push(i);
                proof {
                    lemma_usize_push_contains(pre_out, i);
                    assert(!pre_out.contains(i));
                    lemma_usize_push_nodup(pre_out, i);
                }
            }
            proof {
                assert forall|k: usize|
                    #[trigger] out@.contains(k) == (k < i + 1 && declares_phase(
                        self.systems@[k as int],
                        phase,
                    )) by {
                    if k == i {
                        if declares_phase(self.systems@[k as int], phase) {
                            assert(out@.contains(k));
                        } else {
                            assert(out@ == pre_out);
                            assert(!out@.contains(k));
                        }
                    } else {
                        assert(out@.contains(k) == pre_out.contains(k) || (out@.contains(k)
                            == (pre_out.contains(k) || k == i)));
                    }
                }
            }
            i = i + 1;
        }
        out
    }

    /// Whether the system at the index declares the phase.
    fn has_phase(&self, i: usize, phase: SystemPhase) -> (r: bool)
        requires
            i < self.systems@.len(),
        ensures
            r == declares_phase(self.systems@[i as int], phase),
    {
        let ps = &self.systems[i].phases;
        let m = ps.len();
        let mut t: usize = 0;
        while t < m
            invariant
                i < self.systems@.len(),
                ps@ == self.systems@[i as int].phases@,
                m == ps@.len(),
                t <= m,
                forall|u: int| 0 <= u < t ==> ps@[u] != phase,
            decreases m - t,
        {
            if ps[t] == phase {
                proof {
                    assert(ps@[t as int] == phase);
                    assert(self.systems@[i as int].phases@.contains(phase));
                }
                return true;
            }
            t = t + 1;
        }
        proof {
            if declares_phase(self.systems@[i as int], phase) {
                let u = choose|u: int| 0 <= u < ps@.len() && ps@[u] == phase;
                assert(false);
            }
        }
        false
    }

    /// Sorts candidate indices by priority, highest first, keeping the
    /// registration order of equal priorities (insertion into position).
    fn sort_by_priority(&self, cand: Vec<usize>) -> (r: Vec<usize>)
        requires
            cand@.no_duplicates(),
            forall|t: int| 0 <= t < cand@.len() ==> cand@[t] < self.systems@.len(),
            forall|a: int, b: int| 0 <= a < b < cand@.len() ==> cand@[a] < cand@[b],
        ensures
            r@.no_duplicates(),
            r@.len() == cand@.len(),
            forall|t: int| 0 <= t < r@.len() ==> r@[t] < self.systems@.len(),
            forall|x: usize| r@.contains(x) == cand@.contains(x),
            forall|a: int, b: int|
                #![trigger r@[a], r@[b]]
                0 <= a < b < r@.len() ==> self.systems@[r@[a] as int].priority
                    > self.systems@[r@[b] as int].priority || (self.systems@[r@[a] as int].priority
                    == self.systems@[r@[b] as int].priority && r@[a] < r@[b]),
    {
        let n = cand.len();
        let mut out: Vec<usize> = Vec::new();
        let mut i: usize = 0;
        while i < n
            invariant
                n == cand@.len(),
                i <= n,
                cand@.no_duplicates(),
                forall|t: int| 0 <= t < cand@.len() ==> cand@[t] < self.systems@.len(),
                forall|a: int, b: int| 0 <= a < b < cand@.len() ==> cand@[a] < cand@[b],
                out@.no_duplicates(),
                out@.len() == i,
                forall|t: int| 0 <= t < out@.len() ==> out@[t] < self.systems@.len(),
                forall|x: usize|
                    #[trigger] out@.contains(x) == exists|t: int| 0 <= t < i && cand@[t] == x,
                forall|a: int, b: int|
                    #![trigger out@[a], out@[b]]
                    0 <= a < b < out@.len() ==> self.systems@[out@[a] as int].priority
                        > self.systems@[out@[b] as int].priority || (self.systems@[out@[
                    a] as int].priority == self.systems@[out@[b] as int].priority && out@[a]
                        < out@[b]),
            decreases n - i,
        {
            let x = cand[i];
            proof {
                assert forall|t: int| 0 <= t < out@.len() implies out@[t] < x by {
                    assert(out@.contains(out@[t]));
                    let u = choose|u: int| 0 <= u < i && cand@[u] == out@[t];
                    assert(cand@[u] < cand@[i as int]);
                }
            }
            proof {
                if out@.contains(x) {
                    let t = choose|t: int| 0 <= t < i && cand@[t] == x;
                    assert(cand@[t] == cand@[i as int]);
                    assert(false);
                }
            }
            let m = out.len();
            let mut p: usize = 0;
            let mut found = false;
            while p < m && !found
                invariant
                    m == out@.len(),
                    p <= m,
                    i < n == cand@.len(),
                    x == cand@[i as int],
                    forall|t: int| 0 <= t < out@.len() ==> out@[t] < self.systems@.len(),
                    x < self.systems@.len(),
                    forall|u: int|
                        0 <= u < p ==> self.systems@[out@[u] as int].priority
                            >= self.systems@[x as int].priority,
                    found ==> p < m && self.systems@[out@[p as int] as int].priority
                        < self.systems@[x as int].priority,
                decreases m - p + 1 - (found as int),
            {
                if self.systems[out[p]].priority < self.systems[x].priority {
                    found = true;
                } else {
                    p = p + 1;
                }
            }
            let ghost pre_out = out@;
            out.insert(p, x);
            proof {
                pre_out.insert_ensures(p as int, x);
                assert forall|z: usize|
                    #[trigger] out@.contains(z) == (pre_out.contains(z) || z == x) by {
                    if pre_out.contains(z) {
                        let t = choose|t: int| 0 <= t < pre_out.len() && pre_out[t] == z;
                        if t < p {
                            assert(out@[t] == z);
                        } else {
                            assert(out@[t + 1] == z);
                        }
                    }
                    assert(out@[p as int] == x);
                    if out@.contains(z) && z != x {
                        let t = choose|t: int| 0 <= t < out@.len() && out@[t] == z;
                        if t < p {
                            assert(pre_out[t] == z);
                        } else {
                            assert(t != p);
                            assert(pre_out[t - 1] == z);
                        }
                    }
                }
                assert(out@.no_duplicates()) by {
                    assert forall|a: int, b: int|
                        0 <= a < out@.len() && 0 <= b < out@.len() && a != b implies out@[a]
                        != out@[b] by {
                        let a2: int = if a < p {
                            a
                        } else {
                            a - 1
                        };
                        let b2: int = if b < p {
                            b
                        } else {
                            b - 1
                        };
                        if a == p || b == p {
                            let other: int = if a == p {
                                b
                            } else {
                                a
                            };
                            let o2: int = if other < p {
                                other
                            } else {
                                other - 1
                            };
                            assert(out@[other] == pre_out[o2]);
                            if out@[other] == x {
                                assert(pre_out.contains(x));
                            }
                        } else {
                            assert(out@[a] == pre_out[a2] && out@[b] == pre_out[b2]);
                        }
                    }
                }
                assert forall|t: int| 0 <= t < out@.len() implies out@[t]
                    < self.systems@.len() by {
                    if t < p {
                        assert(out@[t] == pre_out[t]);
                    } else if t == p {
                    } else {
                        assert(out@[t] == pre_out[t - 1]);
                    }
                }
                assert forall|z: usize|
                    #[trigger] out@.contains(z) == exists|t: int|
                        0 <= t < i + 1 && cand@[t] == z by {
                    if out@.contains(z) {
                        if z == x {
                            assert(cand@[i as int] == z);
                        } else {
                            assert(pre_out.contains(z));
                        }
                    }
                    if exists|t: int| 0 <= t < i + 1 && cand@[t] == z {
                        let t = choose|t: int| 0 <= t < i + 1 && cand@[t] == z;
                        if t < i {
                            assert(pre_out.contains(z));
                        } else {
                            assert(z == x);
                        }
                        assert(out@.contains(z));
                    }
                }
                assert forall|a: int, b: int|
                    #![trigger out@[a], out@[b]]
                    0 <= a < b < out@.len() implies self.systems@[out@[a] as int].priority
                    > self.systems@[out@[b] as int].priority || (self.systems@[out@[
                a] as int].priority == self.systems@[out@[b] as int].priority && out@[a]
                    < out@[b]) by {
                    let a2: int = if a < p {
                        a
                    } else {
                        a - 1
                    };
                    let b2: int = if b < p {
                        b
                    } else {
                        b - 1
                    };
                    if a == p {
                        assert(out@[b] == pre_out[b2]);
                        assert(b2 >= p);
                        assert(p < pre_out.len());
                        assert(found);
                        if b2 > p {
                            assert(self.systems@[pre_out[p as int] as int].priority
                                >= self.systems@[pre_out[b2] as int].priority);
                        }
                        assert(self.systems@[pre_out[p as int] as int].priority
                            < self.systems@[x as int].priority);
                    } else if b == p {
                        assert(out@[a] == pre_out[a2]);
                        assert(a2 < p);
                        assert(self.systems@[pre_out[a2] as int].priority
                            >= self.systems@[x as int].priority);
                        assert(pre_out[a2] < x);
                    } else {
                        assert(out@[a] == pre_out[a2] && out@[b] == pre_out[b2]);
                        assert(a2 < b2);
                    }
                }
            }
            i = i + 1;
        }
        proof {
            assert forall|x: usize| out@.contains(x) == cand@.contains(x) by {
                if cand@.contains(x) {
                    let t = choose|t: int| 0 <= t < n && cand@[t] == x;
                }
                if out@.contains(x) {
                    let t = choose|t: int| 0 <= t < n && cand@[t] == x;
                }
            }
        }
        out
    }

    /// The index among the candidates of the system with the identifier.
    fn find_in_candidates(&self, cand: &Vec<usize>, id: &String) -> (r: Option<usize>)
        requires
            forall|t: int| 0 <= t < cand@.len() ==> cand@[t] < self.systems@.len(),
        ensures
            match r {
                Some(w) => cand@.contains(w) && w < self.systems@.len()
                    && self.systems@[w as int].id@ == id@,
                None => forall|w: usize|
                    #[trigger] cand@.contains(w) ==> self.systems@[w as int].id@ != id@,
            },
    {
        let n = cand.len();
        let mut t: usize = 0;
        while t < n
            invariant
                n == cand@.len(),
                t <= n,
                forall|u: int| 0 <= u < cand@.len() ==> cand@[u] < self.systems@.len(),
                forall|u: int| 0 <= u < t ==> self.systems@[cand@[u] as int].id@ != id@,
            decreases n - t,
        {
            let w = cand[t];
            if self.systems[w].id == *id {
                proof {
                    assert(cand@[t as int] == w);
                }
                return Some(w);
            }
            t = t + 1;
        }
        proof {
            assert forall|w: usize| #[trigger] cand@.contains(w) implies
                self.systems@[w as int].id@ != id@ by {
                let u = choose|u: int| 0 <= u < cand@.len() && cand@[u] == w;
            }
        }
        None
    }

    /// Depth-first finalization of one candidate: predecessors first, a hit
    /// on the active stack is a cycle, an unfinalized successor silently
    /// drops the candidate from this attempt.
    fn visit(
        &self,
        cand: &Vec<usize>,
        v: usize,
        visited: &mut Vec<usize>,
        visiting: &mut Vec<usize>,
        order: &mut Vec<SystemId>,
    ) -> (r: Result<(), TX2Error>)
        requires
            sys_ids_unique(self.systems@),
            cand@.no_duplicates(),
            forall|t: int| 0 <= t < cand@.len() ==> cand@[t] < self.systems@.len(),
            cand@.contains(v),
            old(visiting)@.no_duplicates(),
            forall|x: usize| old(visiting)@.contains(x) ==> cand@.contains(x),
            forall|x: usize| old(visiting)@.contains(x) ==> !old(visited)@.contains(x),
            no_pair_visited(self.systems@, cand@, old(visited)@),
            order_matches(self.systems@, cand@, old(order)@, old(visited)@),
            no_befores(self.systems@) ==> preds_closed(self.systems@, cand@, old(visited)@),
        ensures
            r is Ok ==> final(visiting)@ == old(visiting)@,
            r is Ok ==> forall|x: usize|
                old(visiting)@.contains(x) ==> !final(visited)@.contains(x),
            r is Ok ==> no_pair_visited(self.systems@, cand@, final(visited)@),
            r is Ok ==> forall|x: usize|
                old(visited)@.contains(x) ==> final(visited)@.contains(x),
            r is Ok ==> !has_partner(self.systems@, cand@, v),
            r is Ok ==> order_matches(self.systems@, cand@, final(order)@, final(visited)@),
            r is Ok ==> (no_befores(self.systems@) ==> preds_closed(self.systems@, cand@,
                final(visited)@)),
            r is Ok ==> (no_befores(self.systems@) ==> final(visited)@.contains(v)),
            r is Ok ==> final(visited)@.contains(v) || (exists|w: usize|
                #[trigger] cand@.contains(w) && lists_before(self.systems@[v as int],
                    self.systems@[w as int].id@) && !final(visited)@.contains(w)),
            r is Ok ==> (unconstrained(self.systems@) && !old(visited)@.contains(v) ==> final(
                visited)@ =~= old(visited)@.push(v)),
            old(visiting)@.contains(v) ==> r is Err,
            (exists|w: usize|
                #[trigger] cand@.contains(w) && mutual(self.systems@, v as int, w as int) && old(
                    visiting,
                )@.contains(w)) ==> r is Err,
            unconstrained(self.systems@) && !old(visiting)@.contains(v) ==> r is Ok,
        decreases cand@.len() - old(visiting)@.len(),
    {
        proof {
            lemma_unique_subset_len(old(visiting)@, cand@);
        }
        if contains_usize(visited, v) {
            proof {
                if has_partner(self.systems@, cand@, v) {
                    assert(!old(visited)@.contains(v));
                }
                if exists|w: usize|
                    #[trigger] cand@.contains(w) && mutual(self.systems@, v as int, w as int)
                        && old(visiting)@.contains(w) {
                    let w = choose|w: usize|
                        #[trigger] cand@.contains(w) && mutual(self.systems@, v as int,
                            w as int) && old(visiting)@.contains(w);
                    assert(has_partner(self.systems@, cand@, v));
                    assert(false);
                }
            }
            return Ok(());
        }
        if contains_usize(visiting, v) {
            return Err(TX2Error::circular_dependency());
        }
        let ghost pre_visiting = visiting@;
        let ghost pre_visited = visited@;
        visiting.push(v);
        proof {
            lemma_usize_push_contains(pre_visiting, v);
            lemma_usize_push_nodup(pre_visiting, v);
        }
        let ra_len = self.systems[v].run_after.len();
        let mut k: usize = 0;
        while k < ra_len
            invariant
                sys_ids_unique(self.systems@),
                cand@.no_duplicates(),
                forall|t: int| 0 <= t < cand@.len() ==> cand@[t] < self.systems@.len(),
                cand@.contains(v),
                v < self.systems@.len(),
                ra_len == self.systems@[v as int].run_after@.len(),
                k <= ra_len,
                pre_visiting == old(visiting)@,
                pre_visited == old(visited)@,
                visiting@ == pre_visiting.push(v),
                visiting@.no_duplicates(),
                forall|x: usize| visiting@.contains(x) ==> cand@.contains(x),
                no_pair_visited(self.systems@, cand@, visited@),
                forall|x: usize| pre_visited.contains(x) ==> visited@.contains(x),
                forall|x: usize| visiting@.contains(x) ==> !visited@.contains(x),
                order_matches(self.systems@, cand@, order@, visited@),
                unconstrained(self.systems@) ==> visited@ == pre_visited,
                no_befores(self.systems@) ==> preds_closed(self.systems@, cand@, visited@),
                no_befores(self.systems@) ==> forall|t: int, u: usize|
                    #![trigger self.systems@[v as int].run_after@[t], cand@.contains(u)]
                    0 <= t < k && cand@.contains(u) && (self.systems@[v as int].run_after@[t])@
                        == self.systems@[u as int].id@ ==> visited@.contains(u),
                forall|w: usize|
                    #[trigger] cand@.contains(w) && mutual(self.systems@, v as int, w as int)
                        ==> forall|t: int|
                        0 <= t < k ==> (#[trigger] self.systems@[v as int].run_after@[t])@
                            != self.systems@[w as int].id@,
            decreases ra_len - k,
        {
            let after_id = &self.systems[v].run_after[k];
            match self.find_in_candidates(cand, after_id) {
                Some(w) => {
                    proof {
                        lemma_unique_subset_len(visiting@, cand@);
                    }
                    let res = self.visit(cand, w, visited, visiting, order);
                    if res.is_err() {
                        return Err(TX2Error::circular_dependency());
                    }
                    proof {
                        assert forall|u: usize|
                            #[trigger] cand@.contains(u) && mutual(self.systems@, v as int,
                                u as int) implies (self.systems@[v as int].run_after@[
                            k as int])@ != self.systems@[u as int].id@ by {
                            if (self.systems@[v as int].run_after@[k as int])@
                                == self.systems@[u as int].id@ {
                                assert(self.systems@[w as int].id@
                                    == self.systems@[u as int].id@);
                                let ui = choose|t: int|
                                    0 <= t < cand@.len() && cand@[t] == u;
                                let wi = choose|t: int|
                                    0 <= t < cand@.len() && cand@[t] == w;
                                assert(u == w) by {
                                    if u != w {
                                        if (u as int) < (w as int) {
                                            assert(self.systems@[u as int].id@
                                                != self.systems@[w as int].id@);
                                        } else {
                                            assert(self.systems@[w as int].id@
                                                != self.systems@[u as int].id@);
                                        }
                                    }
                                }
                                assert(mutual(self.systems@, v as int, w as int));
                                assert(visiting@.contains(v));
                                assert(mutual(self.systems@, w as int, v as int));
                                assert(false);
                            }
                        }
                        if no_befores(self.systems@) {
                            assert forall|t: int, u: usize|
                                #![trigger self.systems@[v as int].run_after@[t],
                                cand@.contains(u)]
                                0 <= t < k + 1 && cand@.contains(u) && (
                                self.systems@[v as int].run_after@[t])@
                                    == self.systems@[u as int].id@ implies visited@.contains(
                                u) by {
                                if t == k {
                                    assert(self.systems@[w as int].id@
                                        == self.systems@[u as int].id@);
                                    assert(u == w) by {
                                        if u != w {
                                            if (u as int) < (w as int) {
                                                assert(self.systems@[u as int].id@
                                                    != self.systems@[w as int].id@);
                                            } else {
                                                assert(self.systems@[w as int].id@
                                                    != self.systems@[u as int].id@);
                                            }
                                        }
                                    }
                                    assert(visited@.contains(w));
                                }
                            }
                        }
                    }
                },
                None => {
                    proof {
                        assert forall|u: usize|
                            #[trigger] cand@.contains(u) && mutual(self.systems@, v as int,
                                u as int) implies (self.systems@[v as int].run_after@[
                            k as int])@ != self.systems@[u as int].id@ by {}
                    }
                },
            }
            k = k + 1;
        }
        proof {
            assert(!has_partner(self.systems@, cand@, v)) by {
                if has_partner(self.systems@, cand@, v) {
                    let w = choose|w: usize|
                        #[trigger] cand@.contains(w) && mutual(self.systems@, v as int,
                            w as int);
                    let t = choose|t: int|
                        0 <= t < self.systems@[v as int].run_after@.len() && (
                        #[trigger] self.systems@[v as int].run_after@[t])@
                            == self.systems@[w as int].id@;
                    assert(false);
                }
            }
        }
        let rb_len = self.systems[v].run_before.len();
        let mut b: usize = 0;
        let mut dropped = false;
        while b < rb_len && !dropped
            invariant
                v < self.systems@.len(),
                rb_len == self.systems@[v as int].run_before@.len(),
                b <= rb_len,
                forall|t: int| 0 <= t < cand@.len() ==> cand@[t] < self.systems@.len(),
                dropped ==> exists|w: usize|
                    #[trigger] cand@.contains(w) && lists_before(self.systems@[v as int],
                        self.systems@[w as int].id@) && !visited@.contains(w),
            decreases rb_len - b + 1 - (dropped as int),
        {
            let before_id = &self.systems[v].run_before[b];
            match self.find_in_candidates(cand, before_id) {
                Some(w) => {
                    if !contains_usize(visited, w) {
                        proof {
                            assert(lists_before(self.systems@[v as int],
                                self.systems@[w as int].id@)) by {
                                assert((self.systems@[v as int].run_before@[b as int])@
                                    == self.systems@[w as int].id@);
                            }
                        }
                        dropped = true;
                    } else {
                        b = b + 1;
                    }
                },
                None => {
                    b = b + 1;
                },
            }
        }
        if dropped {
            let popped = visiting.pop();
            proof {
                assert(visiting@ =~= pre_visiting);
                assert(!no_befores(self.systems@)) by {
                    if no_befores(self.systems@) {
                        assert(self.systems@[v as int].run_before@.len() == 0);
                    }
                }
            }
            return Ok(());
        }
        let popped = visiting.pop();
        proof {
            assert(visiting@ =~= pre_visiting);
        }
        let ghost mid_visited = visited@;
        let ghost mid_order = order@;
        proof {
            assert(!mid_visited.contains(v));
        }
        visited.push(v);
        order.push(self.systems[v].id.clone());
        proof {
            lemma_usize_push_contains(mid_visited, v);
            lemma_usize_push_nodup(mid_visited, v);
            assert forall|u: usize|
                cand@.contains(u) && #[trigger] has_partner(self.systems@, cand@, u) implies
                !visited@.contains(u) by {
                assert(!mid_visited.contains(u));
                if u == v {
                    assert(false);
                }
            }
            assert(order_matches(self.systems@, cand@, order@, visited@)) by {
                assert(visited@ =~= mid_visited.push(v));
                assert(order@ =~= mid_order.push(order@.last()));
                assert((order@[mid_order.len() as int])@ == self.systems@[v as int].id@);
                assert forall|t: int| 0 <= t < visited@.len() implies cand@.contains(
                    #[trigger] visited@[t]) && (order@[t])@
                    == self.systems@[visited@[t] as int].id@ by {
                    if t < mid_visited.len() {
                        assert(visited@[t] == mid_visited[t]);
                        assert(order@[t] == mid_order[t]);
                    }
                }
            }
            if no_befores(self.systems@) {
                assert(preds_closed(self.systems@, cand@, visited@)) by {
                    assert forall|t: int, j: usize|
                        #![trigger visited@[t], cand@.contains(j)]
                        0 <= t < visited@.len() && cand@.contains(j) && lists_after(
                            self.systems@[visited@[t] as int],
                            self.systems@[j as int].id@,
                        ) implies exists|t2: int| 0 <= t2 < t && visited@[t2] == j by {
                        if t < mid_visited.len() {
                            assert(mid_visited[t] == visited@[t]);
                            let t2 = choose|t2: int| 0 <= t2 < t && mid_visited[t2] == j;
                            assert(visited@[t2] == j);
                        } else {
                            assert(visited@[t] == v);
                            let u = choose|u: int|
                                0 <= u < self.systems@[v as int].run_after@.len() && (
                                #[trigger] self.systems@[v as int].run_after@[u])@
                                    == self.systems@[j as int].id@;
                            assert(mid_visited.contains(j));
                            let t2 = choose|t2: int|
                                0 <= t2 < mid_visited.len() && mid_visited[t2] == j;
                            assert(visited@[t2] == j);
                        }
                    }
                }
            }
            if unconstrained(self.systems@) {
                assert(mid_visited =~= pre_visited);
                assert(visited@ =~= pre_visited.push(v));
            }
        }
        Ok(())
    }

    /// Whether system `a` lists system `b`'s identifier as predecessor.
    fn lists_after_exec(&self, a: usize, b: usize) -> (r: bool)
        requires
            a < self.systems@.len(),
            b < self.systems@.len(),
        ensures
            r == lists_after(self.systems@[a as int], self.systems@[b as int].id@),
    {
        let ra = &self.systems[a].run_after;
        let n = ra.len();
        let mut t: usize = 0;
        while t < n
            invariant
                n == ra@.len(),
                a < self.systems@.len(),
                b < self.systems@.len(),
                ra == self.systems@[a as int].run_after,
                t <= n,
                forall|u: int| 0 <= u < t ==> (#[trigger] ra@[u])@ != self.systems@[b as int].id@,
            decreases n - t,
        {
            if ra[t] == self.systems[b].id {
                proof {
                    assert((ra@[t as int])@ == self.systems@[b as int].id@);
                }
                return true;
            }
            t = t + 1;
        }
        proof {
            if lists_after(self.systems@[a as int], self.systems@[b as int].id@) {
                let u = choose|u: int|
                    0 <= u < ra@.len() && (#[trigger] ra@[u])@ == self.systems@[b as int].id@;
                assert(false);
            }
        }
        false
    }

    /// Computes a phase's execution order: candidates sorted by priority,
    /// highest first, finalized depth first with predecessors ahead of
    /// dependents. A mutual predecessor pair among the candidates is a
    /// usage error and yields a fatal result, never a silently dropped
    /// system.
    #[verifier::rlimit(100)]
    fn phase_order(&self, phase: SystemPhase) -> (r: Result<Vec<SystemId>, TX2Error>)
        requires
            self.wf(),
        ensures
            mutual_in_phase(self.systems(), phase) ==> r is Err,
            unconstrained(self.systems()) ==> r is Ok,
            r matches Ok(o) ==> valid_phase_order(self.systems(), phase, o@),
    {
        let cand0 = self.phase_candidates(phase);
        let cand = self.sort_by_priority(cand0);
        let mut visited: Vec<usize> = Vec::new();
        let mut visiting: Vec<usize> = Vec::new();
        let mut order: Vec<SystemId> = Vec::new();
        let n = cand.len();
        let mut i: usize = 0;
        while i < n
            invariant
                self.wf(),
                n == cand@.len(),
                i <= n,
                cand@.no_duplicates(),
                forall|t: int| 0 <= t < cand@.len() ==> cand@[t] < self.systems@.len(),
                visiting@.len() == 0,
                no_pair_visited(self.systems@, cand@, visited@),
                forall|t: int| 0 <= t < i ==> !has_partner(self.systems@, cand@,
                    #[trigger] cand@[t]),
                order_matches(self.systems@, cand@, order@, visited@),
                no_befores(self.systems@) ==> preds_closed(self.systems@, cand@, visited@),
                no_befores(self.systems@) ==> forall|t: int|
                    0 <= t < i ==> visited@.contains(#[trigger] cand@[t]),
                unconstrained(self.systems@) ==> visited@ =~= cand@.take(i as int),
                forall|x: usize| #[trigger] visited@.contains(x) ==> cand@.contains(x),
                forall|x: usize| #[trigger] cand@.contains(x) == (x < self.systems@.len()
                    && declares_phase(self.systems@[x as int], phase)),
                forall|a: int, b: int|
                    #![trigger cand@[a], cand@[b]]
                    0 <= a < b < cand@.len() ==> self.systems@[cand@[a] as int].priority
                        > self.systems@[cand@[b] as int].priority || (self.systems@[cand@[
                    a] as int].priority == self.systems@[cand@[b] as int].priority && cand@[a]
                        < cand@[b]),
            decreases n - i,
        {
            let v = cand[i];
            proof {
                assert(cand@[i as int] == v);
                assert(cand@.contains(v));
            }
            let ghost pre_visited_outer = visited@;
            let res = self.visit(&cand, v, &mut visited, &mut visiting, &mut order);
            if res.is_err() {
                return Err(TX2Error::circular_dependency());
            }
            proof {
                assert(!has_partner(self.systems@, cand@, v));
                if no_befores(self.systems@) {
                    assert forall|t: int| 0 <= t < i + 1 implies visited@.contains(
                        #[trigger] cand@[t]) by {
                        if t < i {
                            assert(pre_visited_outer.contains(cand@[t]));
                        } else {
                            assert(cand@[t] == v);
                        }
                    }
                }
                if unconstrained(self.systems@) {
                    assert(!pre_visited_outer.contains(v)) by {
                        if pre_visited_outer.contains(v) {
                            let t = choose|t: int|
                                0 <= t < i && pre_visited_outer[t] == v;
                            assert(cand@.take(i as int)[t] == v);
                            assert(cand@[t] == v);
                            assert(cand@[t] == cand@[i as int]);
                        }
                    }
                    assert(visited@ =~= pre_visited_outer.push(v));
                    assert(visited@ =~= cand@.take(i as int + 1));
                }
            }
            i = i + 1;
        }
        proof {
            if mutual_in_phase(self.systems@, phase) {
                let (a, b) = choose|a: int, b: int|
                    #[trigger] mutual(self.systems@, a, b) && declares_phase(self.systems@[a],
                        phase) && declares_phase(self.systems@[b], phase);
                assert(self.systems.len() == self.systems@.len());
                assert(self.systems@.len() <= usize::MAX);
                assert(((a as usize) as int) == a);
                assert(((b as usize) as int) == b);
                assert(cand@.contains(a as usize)) by {
                    assert((a as usize) < self.systems@.len() && declares_phase(
                        self.systems@[(a as usize) as int], phase));
                }
                assert(cand@.contains(b as usize));
                let t = choose|t: int| 0 <= t < cand@.len() && cand@[t] == a as usize;
                assert(has_partner(self.systems@, cand@, a as usize)) by {
                    assert(cand@.contains(b as usize) && mutual(self.systems@, a, b));
                }
                assert(false);
            }
            assert(self.systems.len() == self.systems@.len());
            if unconstrained(self.systems@) {
                assert(visited@ =~= cand@.take(n as int));
                assert(cand@.take(n as int) =~= cand@);
            }
            lemma_phase_order_valid(self.systems@, phase, cand@, visited@, order@);
        }
        Ok(order)
    }

    /// Recomputes the execution order of every phase; on success each
    /// phase's slot holds a valid order of that phase's candidates. A
    /// mutual predecessor pair in any phase is a usage error and yields a
    /// fatal result, with the scheduler left unchanged.
    pub fn recompute_execution_order(&mut self) -> (r: Result<(), TX2Error>)
        requires
            old(self).wf(),
        ensures
            final(self).wf(),
            final(self).systems() == old(self).systems(),
            r is Ok ==> !final(self).dirty(),
            r is Ok ==> forall|p: SystemPhase|
                valid_phase_order(final(self).systems(), p, #[trigger] final(self).order_for(
                    p,
                )),
            r is Err ==> *final(self) == *old(self),
            (exists|p: SystemPhase| mutual_in_phase(old(self).systems(), p)) ==> r is Err,
            unconstrained(old(self).systems()) ==> r is Ok,
    {
        let phases = phase_sequence();
        let mut orders: Vec<Vec<SystemId>> = Vec::new();
        let mut i: usize = 0;
        while i < 5
            invariant
                self.wf(),
                self == old(self),
                phases@.len() == 5,
                forall|t: int| 0 <= t < 5 ==> phases@[t] == phase_at(t),
                i <= 5,
                orders@.len() == i,
                forall|p: SystemPhase|
                    phase_index_spec(p) < i ==> !mutual_in_phase(self.systems@, p),
                forall|t: int|
                    0 <= t < i ==> valid_phase_order(self.systems@, phase_at(t),
                        (#[trigger] orders@[t])@),
            decreases 5 - i,
        {
            match self.phase_order(phases[i]) {
                Ok(o) => {
                    orders.push(o);
                    proof {
                        assert forall|p: SystemPhase|
                            phase_index_spec(p) < i + 1 implies !mutual_in_phase(
                            self.systems@, p) by {
                            if phase_index_spec(p) == i {
                                assert(phases@[i as int] == phase_at(i as int));
                                match p {
                                    SystemPhase::Init => {
                                        assert(i == 0);
                                    },
                                    SystemPhase::FixedUpdate => {
                                        assert(i == 1);
                                    },
                                    SystemPhase::Update => {
                                        assert(i == 2);
                                    },
                                    SystemPhase::LateUpdate => {
                                        assert(i == 3);
                                    },
                                    SystemPhase::Cleanup => {
                                        assert(i == 4);
                                    },
                                }
                                assert(phase_at(i as int) == p);
                                assert(phases@[i as int] == p);
                            }
                        }
                    }
                },
                Err(e) => {
                    return Err(e);
                },
            }
            i = i + 1;
        }
        self.execution_order = orders;
        self.dirty = false;
        proof {
            assert forall|p: SystemPhase| !mutual_in_phase(self.systems@, p) by {
                assert(phase_index_spec(p) < 5);
            }
            assert forall|p: SystemPhase|
                valid_phase_order(self.systems@, p, (#[trigger] self.execution_order@[
                phase_index_spec(p)])@) by {
                let t = phase_index_spec(p);
                assert(0 <= t < 5);
                assert(valid_phase_order(self.systems@, phase_at(t), (orders@[t])@));
                assert(phase_at(t) == p) by {
                    match p {
                        SystemPhase::Init => {},
                        SystemPhase::FixedUpdate => {},
                        SystemPhase::Update => {},
                        SystemPhase::LateUpdate => {},
                        SystemPhase::Cleanup => {},
                    }
                }
            }
        }
        Ok(())
    }

    /// Runs one phase: recomputes stale orders first, then invokes each
    /// system the phase's cached order names — exactly one run transition
    /// per named system, in order — skipping disabled ones and absorbing
    /// behavior failures through the error policy. Systems of other phases
    /// are untouched; with no ordering constraints registered, every system
    /// of the phase is run, none silently skipped. A mutual predecessor
    /// pair discovered during recomputation is a usage error and yields a
    /// fatal result before any system runs, leaving scheduler and world
    /// unchanged.
    pub fn execute_phase(
        &mut self,
        phase: SystemPhase,
        world: &mut World,
        delta_time: u64,
        time: u64,
    ) -> (r: Result<(), TX2Error>)
        requires
            old(self).wf(),
            old(world).wf(),
        ensures
            final(self).wf(),
            final(world).wf(),
            old(self).dirty() && (exists|p: SystemPhase|
                mutual_in_phase(old(self).systems(), p)) ==> r is Err,
            !old(self).dirty() ==> r is Ok,
            unconstrained(old(self).systems()) ==> r is Ok,
            r is Err ==> *final(world) == *old(world) && *final(self) == *old(self),
            final(self).systems().len() == old(self).systems().len(),
            r is Ok ==> !final(self).dirty(),
            r is Ok ==> valid_phase_order(old(self).systems(), phase, final(self).order_for(
                phase,
            )),
            forall|k: int|
                0 <= k < final(self).systems().len() ==> final(self).systems()[k] == old(
                    self).systems()[k] || run_transition(#[trigger] old(self).systems()[k],
                    final(self).systems()[k], phase),
            r is Ok ==> forall|k: int|
                0 <= k < final(self).systems().len() && (exists|t: int|
                    0 <= t < final(self).order_for(phase).len()
                        && (#[trigger] final(self).order_for(phase)[t])@ == old(
                        self).systems()[k].id@) ==> run_transition(old(self).systems()[k],
                    #[trigger] final(self).systems()[k], phase),
            forall|k: int|
                0 <= k < final(self).systems().len() && !declares_phase(
                    #[trigger] old(self).systems()[k],
                    phase,
                ) ==> final(self).systems()[k] == old(self).systems()[k],
            unconstrained(old(self).systems()) ==> forall|k: int|
                0 <= k < final(self).systems().len() && declares_phase(
                    #[trigger] old(self).systems()[k],
                    phase,
                ) ==> run_transition(old(self).systems()[k], final(self).systems()[k], phase),
    {
        if self.dirty {
            match self.recompute_execution_order() {
                Ok(_) => {},
                Err(e) => {
                    return Err(e);
                },
            }
        }
        let ghost systems0 = self.systems@;
        proof {
            assert(systems0 == old(self).systems@);
            assert(valid_phase_order(systems0, phase, self.order_for(phase)));
        }
        let pi = phase_index(phase);
        let order = clone_id_vec(&self.execution_order[pi]);
        proof {
            assert(order@.len() == self.order_for(phase).len());
            assert(forall|t: int|
                0 <= t < order@.len() ==> (#[trigger] order@[t])@ == self.order_for(phase)[t]@);
        }
        let ctx = SystemContext { delta_time, time, phase };
        let n = order.len();
        let mut i: usize = 0;
        while i < n
            invariant
                world.wf(),
                self.wf(),
                !self.dirty(),
                ctx.phase == phase,
                n == order@.len(),
                i <= n,
                systems0 == old(self).systems@,
                self.systems@.len() == systems0.len(),
                order@.len() == self.order_for(phase).len(),
                forall|t: int|
                    0 <= t < order@.len() ==> (#[trigger] order@[t])@ == self.order_for(
                        phase,
                    )[t]@,
                valid_phase_order(systems0, phase, self.order_for(phase)),
                forall|k: int|
                    0 <= k < self.systems@.len() ==> System::same_shape(
                        #[trigger] systems0[k],
                        self.systems@[k],
                    ),
                forall|k: int|
                    #![trigger self.systems@[k]]
                    0 <= k < self.systems@.len() ==> if exists|t: int|
                        0 <= t < i && (#[trigger] order@[t])@ == systems0[k].id@ {
                        run_transition(systems0[k], self.systems@[k], phase)
                    } else {
                        self.systems@[k] == systems0[k]
                    },
            decreases n - i,
        {
            let ghost pre = self.systems@;
            match self.find_system(&order[i]) {
                Some(idx) => {
                    proof {
                        assert(!exists|t: int|
                            0 <= t < i && (#[trigger] order@[t])@ == systems0[idx as int].id@)
                            by {
                            if exists|t: int|
                                0 <= t < i && (#[trigger] order@[t])@
                                    == systems0[idx as int].id@ {
                                let t = choose|t: int|
                                    0 <= t < i && (#[trigger] order@[t])@
                                        == systems0[idx as int].id@;
                                assert((self.order_for(phase)[t])@ == (self.order_for(
                                    phase,
                                )[i as int])@);
                            }
                        }
                        assert(self.systems@[idx as int] == systems0[idx as int]);
                    }
                    let mut sys = self.systems.remove(idx);
                    sys.run(world, &ctx);
                    let ghost gsys = sys;
                    self.systems.insert(idx, sys);
                    proof {
                        pre.remove_ensures(idx as int);
                        pre.remove(idx as int).insert_ensures(idx as int, gsys);
                        assert forall|k: int|
                            0 <= k < self.systems@.len() implies self.systems@[k] == if k
                            == idx {
                            gsys
                        } else {
                            pre[k]
                        } by {
                            if k > idx {
                                assert(pre.remove(idx as int).insert(idx as int, gsys)[(k - 1)
                                    + 1] == pre.remove(idx as int)[k - 1]);
                            }
                        }
                        assert(run_transition(systems0[idx as int], gsys, phase));
                        assert(sys_ids_unique(self.systems@)) by {
                            assert forall|a: int, b: int|
                                0 <= a < b < self.systems@.len() implies self.systems@[a].id@
                                != self.systems@[b].id@ by {
                                assert(self.systems@[a].id@ == pre[a].id@);
                                assert(self.systems@[b].id@ == pre[b].id@);
                            }
                        }
                        assert forall|k: int|
                            #![trigger self.systems@[k]]
                            0 <= k < self.systems@.len() implies if exists|t: int|
                                0 <= t < i + 1 && (#[trigger] order@[t])@ == systems0[k].id@ {
                                run_transition(systems0[k], self.systems@[k], phase)
                            } else {
                                self.systems@[k] == systems0[k]
                            } by {
                            if k == idx {
                                assert((order@[i as int])@ == systems0[idx as int].id@);
                            } else {
                                assert(self.systems@[k] == pre[k]);
                                if exists|t: int|
                                    0 <= t < i + 1 && (#[trigger] order@[t])@
                                        == systems0[k].id@ {
                                    let t = choose|t: int|
                                        0 <= t < i + 1 && (#[trigger] order@[t])@
                                            == systems0[k].id@;
                                    if t == i {
                                        assert((order@[i as int])@ == systems0[idx as int].id@);
                                        assert(systems0[k].id@ == systems0[idx as int].id@);
                                        if k < idx {
                                            assert(systems0[k].id@ != systems0[idx as int].id@);
                                        } else {
                                            assert(systems0[idx as int].id@ != systems0[k].id@);
                                        }
                                    }
                                }
                            }
                        }
                        assert forall|p: SystemPhase|
                            valid_phase_order(self.systems@, p, (#[trigger] self
                                .execution_order@[phase_index_spec(p)])@) by {
                            lemma_valid_order_shape_preserved(pre, self.systems@, p,
                                (self.execution_order@[phase_index_spec(p)])@);
                        }
                        lemma_valid_order_shape_preserved(systems0, self.systems@, phase,
                            self.order_for(phase));
                    }
                },
                None => {
                    proof {
                        assert((order@[i as int])@ == self.order_for(phase)[i as int]@);
                        let k = choose|k: int|
                            0 <= k < systems0.len() && (#[trigger] self.order_for(
                                phase,
                            )[i as int])@ == systems0[k].id@ && declares_phase(
                                systems0[k],
                                phase,
                            );
                        assert(self.systems@[k].id@ == systems0[k].id@);
                        assert(false);
                    }
                },
            }
            i = i + 1;
        }
        proof {
            assert forall|k: int|
                0 <= k < self.systems@.len() implies self.systems@[k] == systems0[k]
                || run_transition(#[trigger] systems0[k], self.systems@[k], phase) by {}
            assert forall|k: int|
                0 <= k < self.systems@.len() && (exists|t: int|
                    0 <= t < self.order_for(phase).len() && (#[trigger] self.order_for(
                        phase,
                    )[t])@ == systems0[k].id@) implies run_transition(systems0[k],
                #[trigger] self.systems@[k], phase) by {
                let t = choose|t: int|
                    0 <= t < self.order_for(phase).len() && (#[trigger] self.order_for(
                        phase,
                    )[t])@ == systems0[k].id@;
                assert((order@[t])@ == systems0[k].id@);
            }
            assert forall|k: int|
                0 <= k < self.systems@.len() && !declares_phase(#[trigger] systems0[k], phase)
                implies self.systems@[k] == systems0[k] by {
                if exists|t: int| 0 <= t < n && (#[trigger] order@[t])@ == systems0[k].id@ {
                    let t = choose|t: int|
                        0 <= t < n && (#[trigger] order@[t])@ == systems0[k].id@;
                    let k2 = choose|k2: int|
                        0 <= k2 < systems0.len() && (#[trigger] self.order_for(phase)[t])@
                            == systems0[k2].id@ && declares_phase(systems0[k2], phase);
                    assert(systems0[k2].id@ == systems0[k].id@);
                    assert(k2 == k) by {
                        if k2 != k {
                            if k2 < k {
                                assert(systems0[k2].id@ != systems0[k].id@);
                            } else {
                                assert(systems0[k].id@ != systems0[k2].id@);
                            }
                        }
                    }
                    assert(false);
                }
            }
            if unconstrained(systems0) {
                assert forall|k: int|
                    0 <= k < self.systems@.len() && declares_phase(#[trigger] systems0[k], phase)
                    implies run_transition(systems0[k], self.systems@[k], phase) by {
                    let t = choose|t: int|
                        0 <= t < self.order_for(phase).len() && (#[trigger] self.order_for(
                            phase,
                        )[t])@ == systems0[k].id@;
                    assert((order@[t])@ == systems0[k].id@);
                }
            }
        }
        Ok(())
    }
}

/// The phase at each position of the fixed sequence.
pub open spec fn phase_at(i: int) -> SystemPhase {
    if i == 0 {
        SystemPhase::Init
    } else if i == 1 {
        SystemPhase::FixedUpdate
    } else if i == 2 {
        SystemPhase::Update
    } else if i == 3 {
        SystemPhase::LateUpdate
    } else {
        SystemPhase::Cleanup
    }
}

/// The fixed phase sequence, in execution order.
fn phase_sequence() -> (r: Vec<SystemPhase>)
    ensures
        r@.len() == 5,
        forall|t: int| 0 <= t < 5 ==> r@[t] == phase_at(t),
{
    let mut v: Vec<SystemPhase> = Vec::new();
    v.push(SystemPhase::Init);
    v.push(SystemPhase::FixedUpdate);
    v.push(SystemPhase::Update);
    v.push(SystemPhase::LateUpdate);
    v.push(SystemPhase::Cleanup);
    v
}

/// The position of a phase in the fixed sequence.
fn phase_index(p: SystemPhase) -> (r: usize)
    ensures
        r == phase_index_spec(p),
        r < 5,
{
    match p {
        SystemPhase::Init => 0,
        SystemPhase::FixedUpdate => 1,
        SystemPhase::Update => 2,
        SystemPhase::LateUpdate => 3,
        SystemPhase::Cleanup => 4,
    }
}

/// Copies a vector of identifiers.
fn clone_id_vec(v: &Vec<SystemId>) -> (r: Vec<SystemId>)
    ensures
        r@.len() == v@.len(),
        forall|t: int| 0 <= t < v@.len() ==> r@[t] == v@[t],
{
    let n = v.len();
    let mut out: Vec<SystemId> = Vec::new();
    let mut i: usize = 0;
    while i < n
        invariant
            n == v@.len(),
            i <= n,
            out@.len() == i,
            forall|t: int| 0 <= t < i ==> out@[t] == v@[t],
        decreases n - i,
    {
        out.push(v[i].clone());
        i = i + 1;
    }
    out
}

} // verus!
