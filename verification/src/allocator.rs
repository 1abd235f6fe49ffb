//! The allocator abstraction: a source of proc lifecycle states toward a
//! target extent. For a given slot, states are strictly ordered `Created ->
//! Running -> Stopped`.
//!
//! [`SimAlloc`] is a deterministic in-memory allocation: it emits `Created`
//! for every rank, then `Running` for every rank, and thereafter whatever
//! stop events have been requested. An allocator backed by real processes
//! would suspend while no event is pending; this synchronous model returns
//! `None` then, and its contracts say exactly when that happens.

use vstd::prelude::*;

verus! {

use crate::extent::Extent;
use crate::point::Point;

/// Why a proc stopped.
#[derive(Debug, Clone, PartialEq, Eq)]
pub enum ProcStopReason {
    /// An orderly stop.
    Stopped,
    /// Killed by a signal; the flag records whether a core was dumped.
    Killed(i32, bool),
    /// Failed with a message.
    Failed(String),
}

/// The identity of a proc: the world it belongs to and its rank there.
#[derive(Debug, Clone, Copy, PartialEq, Eq, Structural)]
pub struct ProcId {
    pub world: u64,
    pub rank: usize,
}

impl ProcId {
    /// The name of the world this proc belongs to.
    pub fn world_name(&self) -> (r: u64)
        ensures
            r == self.world,
    {
        self.world
    }
}

/// Placement constraints of an allocation request.
#[derive(Debug, PartialEq, Eq)]
pub struct AllocConstraints {
    pub match_labels: Vec<(String, String)>,
}

/// An allocation request: the extent to fill, constraints, and an optional
/// proc name.
#[derive(Debug, PartialEq, Eq)]
pub struct AllocSpec {
    pub extent: Extent,
    pub constraints: AllocConstraints,
    pub proc_name: Option<String>,
}

/// A lifecycle state emitted by an allocator. Consumers ignore variants they
/// do not know.
#[derive(Debug, PartialEq, Eq)]
pub enum ProcState {
    /// A slot was reserved at a coordinate; the create key is its unique
    /// token for the rest of the lifecycle.
    Created { create_key: u64, point: Point },
    /// The proc is reachable, identified, and hosts a mesh agent.
    Running { create_key: u64, proc_id: ProcId, addr: u64 },
    /// The proc is gone.
    Stopped { create_key: u64, reason: ProcStopReason },
}

/// A fully started slot, as reported by `initialize`.
#[derive(Debug, Clone, Copy, PartialEq, Eq, Structural)]
pub struct AllocatedProc {
    pub create_key: u64,
    pub proc_id: ProcId,
    pub addr: u64,
}

/// Errors from allocation and teardown.
#[derive(Debug, Clone, PartialEq, Eq)]
pub enum AllocatorError {
    /// The allocation did not reach a fully running cohort.
    Incomplete,
}

/// The channel transport an allocation uses.
#[derive(Debug, Clone, Copy, PartialEq, Eq, Structural)]
pub enum ChannelTransport {
    Unix,
    Sim,
    Tcp,
}

/// An allocator of deterministic in-memory allocations; each allocation
/// gets a fresh world name.
#[derive(Debug, PartialEq, Eq, Structural)]
pub struct SimAllocator {
    pub next_world: u64,
}

impl SimAllocator {
    /// A fresh allocator.
    pub fn new() -> (r: SimAllocator)
        ensures
            r.next_world == 0,
    {
        SimAllocator { next_world: 0 }
    }

    /// Produces an allocation for `spec` under a world name not handed out
    /// before by this allocator.
    pub fn allocate(&mut self, spec: AllocSpec) -> (r: SimAlloc)
        requires
            spec.extent.wf(),
            old(self).next_world < u64::MAX,
        ensures
            final(self).next_world == old(self).next_world + 1,
            r.wf(),
            r.name == old(self).next_world,
            r.spec == spec,
            r.created_upto == 0 && r.running_upto == 0,
            !r.stopping,
            r.stop_queue@.len() == 0,
    {
        let size = spec.extent.num_ranks();
        let name = self.next_world;
        self.next_world = self.next_world + 1;
        let mut alive: Vec<bool> = Vec::new();
        let mut i: usize = 0;
        while i < size
            invariant
                i <= size,
                alive@.len() == i,
                forall|t: int| 0 <= t < i ==> #[trigger] alive@[t],
            decreases size - i,
        {
            alive.push(true);
            i = i + 1;
        }
        SimAlloc {
            name,
            spec,
            size,
            created_upto: 0,
            running_upto: 0,
            alive,
            stop_queue: Vec::new(),
            stopping: false,
        }
    }
}

/// A stop for `rank` is already queued.
pub open spec fn rank_queued(q: Seq<(usize, ProcStopReason)>, rank: int) -> bool {
    exists|t: int| 0 <= t < q.len() && (#[trigger] q[t]).0 == rank
}

/// The orderly stops teardown appends to the queue `q0`: one `Stopped` per
/// rank from `lo` up that is alive and not already queued, in rank order.
pub open spec fn orderly_stops(
    q0: Seq<(usize, ProcStopReason)>,
    alive: Seq<bool>,
    lo: int,
) -> Seq<(usize, ProcStopReason)>
    decreases alive.len() - lo,
{
    if lo < 0 || lo >= alive.len() {
        Seq::empty()
    } else {
        (if alive[lo] && !rank_queued(q0, lo) {
            seq![(lo as usize, ProcStopReason::Stopped)]
        } else {
            Seq::empty()
        }) + orderly_stops(q0, alive, lo + 1)
    }
}

/// The position of the first queued stop whose rank is still alive (the
/// queue length when none is).
pub open spec fn first_live_stop(q: Seq<(usize, ProcStopReason)>, alive: Seq<bool>) -> int
    decreases q.len(),
{
    if q.len() == 0 {
        0
    } else if q[0].0 < alive.len() && alive[q[0].0 as int] {
        0
    } else {
        1 + first_live_stop(q.skip(1), alive)
    }
}

/// A queue position preceded only by dead entries and itself live (or the
/// end) is where the first live stop stands.
pub proof fn lemma_first_live_stop(q: Seq<(usize, ProcStopReason)>, alive: Seq<bool>, j: int)
    requires
        0 <= j <= q.len(),
        forall|t: int| 0 <= t < j ==> !((#[trigger] q[t]).0 < alive.len() && alive[q[t].0 as int]),
        j < q.len() ==> q[j].0 < alive.len() && alive[q[j].0 as int],
    ensures
        first_live_stop(q, alive) == j,
    decreases j, q.len(),
{
    if q.len() == 0 {
    } else if j == 0 {
    } else {
        assert(!(q[0].0 < alive.len() && alive[q[0].0 as int]));
        assert forall|t: int| 0 <= t < j - 1 implies
            !((#[trigger] q.skip(1)[t]).0 < alive.len() && alive[q.skip(1)[t].0 as int]) by {
            assert(q.skip(1)[t] == q[t + 1]);
        }
        assert(j - 1 < q.skip(1).len() ==> q.skip(1)[j - 1] == q[j]);
        lemma_first_live_stop(q.skip(1), alive, j - 1);
    }
}

/// A deterministic in-memory allocation: a cohort of simulated procs whose
/// lifecycle events are queued and handed out one per `next` call.
#[derive(Debug, PartialEq, Eq)]
pub struct SimAlloc {
    pub name: u64,
    pub spec: AllocSpec,
    pub size: usize,
    pub created_upto: usize,
    pub running_upto: usize,
    pub alive: Vec<bool>,
    pub stop_queue: Vec<(usize, ProcStopReason)>,
    pub stopping: bool,
}

impl SimAlloc {
    /// Consistency of the lifecycle counters with the target extent.
    pub open spec fn wf(&self) -> bool {
        &&& self.spec.extent.wf()
        &&& self.size == self.spec.extent.spec_num_ranks()
        &&& self.alive@.len() == self.size
        &&& self.created_upto <= self.size
        &&& self.running_upto <= self.created_upto
        &&& forall|t: int| 0 <= t < self.stop_queue@.len()
            ==> (#[trigger] self.stop_queue@[t]).0 < self.size
    }

    /// The world name of this allocation.
    pub fn name(&self) -> (r: u64)
        ensures
            r == self.name,
    {
        self.name
    }

    /// The number of procs this allocation serves.
    pub fn size(&self) -> (r: usize)
        ensures
            r == self.size,
    {
        self.size
    }

    /// The allocation request this allocation serves.
    pub fn spec(&self) -> (r: &AllocSpec)
        ensures
            r == &self.spec,
    {
        &self.spec
    }

    /// The extent this allocation fills.
    pub fn extent(&self) -> (r: &Extent)
        ensures
            r == &self.spec.extent,
    {
        &self.spec.extent
    }

    /// The world name, as the id of the world the procs live in.
    pub fn world_id(&self) -> (r: u64)
        ensures
            r == self.name,
    {
        self.name
    }

    /// The channel transport simulated allocations use.
    pub fn transport(&self) -> (r: ChannelTransport)
        ensures
            r == ChannelTransport::Sim,
    {
        ChannelTransport::Sim
    }

    /// Requests that the proc at `rank` be stopped with `reason`: the
    /// matching `Stopped` event is queued and delivered by a later `next`.
    pub fn chaos_monkey(&mut self, rank: usize, reason: ProcStopReason)
        requires
            old(self).wf(),
            rank < old(self).size,
        ensures
            final(self).wf(),
            final(self).stop_queue@ == old(self).stop_queue@.push((rank, reason)),
            final(self).spec == old(self).spec,
            final(self).name == old(self).name,
            final(self).size == old(self).size,
            final(self).alive@ == old(self).alive@,
            final(self).created_upto == old(self).created_upto,
            final(self).running_upto == old(self).running_upto,
            final(self).stopping == old(self).stopping,
    {
        self.stop_queue.push((rank, reason));
    }

    /// Requests orderly teardown: the stop queue is extended by exactly one
    /// orderly `Stopped` per rank that is alive and not already queued, in
    /// rank order, and the allocation is marked stopping, so `next` ends
    /// with `None` once the queue drains.
    #[verifier::loop_isolation(false)]
    pub fn stopper(&mut self)
        requires
            old(self).wf(),
        ensures
            final(self).wf(),
            final(self).stopping,
            final(self).name == old(self).name,
            final(self).size == old(self).size,
            final(self).alive@ == old(self).alive@,
            final(self).created_upto == old(self).created_upto,
            final(self).running_upto == old(self).running_upto,
            final(self).spec == old(self).spec,
            final(self).stop_queue@ == old(self).stop_queue@
                + orderly_stops(old(self).stop_queue@, old(self).alive@, 0),
    {
        let ghost q0 = self.stop_queue@;
        let ghost alive0 = self.alive@;
        let n = self.size;
        let mut rank: usize = 0;
        while rank < n
            invariant
                rank <= n,
                n == self.size,
                self.wf(),
                self.name == old(self).name,
                self.size == old(self).size,
                self.alive@ == alive0,
                self.stopping == old(self).stopping,
                self.created_upto == old(self).created_upto,
                self.running_upto == old(self).running_upto,
                self.spec == old(self).spec,
                q0.len() <= self.stop_queue@.len(),
                forall|t: int| 0 <= t < q0.len() ==> #[trigger] self.stop_queue@[t] == q0[t],
                forall|t: int| q0.len() <= t < self.stop_queue@.len()
                    ==> (#[trigger] self.stop_queue@[t]).0 < rank,
                self.stop_queue@ + orderly_stops(q0, alive0, rank as int)
                    == q0 + orderly_stops(q0, alive0, 0),
            decreases n - rank,
        {
            let mut queued = false;
            let m = self.stop_queue.len();
            let mut t: usize = 0;
            while t < m
                invariant
                    t <= m,
                    m == self.stop_queue@.len(),
                    queued <==> exists|t2: int| 0 <= t2 < t
                        && (#[trigger] self.stop_queue@[t2]).0 == rank,
                decreases m - t,
            {
                if self.stop_queue[t].0 == rank {
                    queued = true;
                }
                t = t + 1;
            }
            proof {
                // A queued check against the grown queue agrees with one
                // against the original: everything appended stops a rank
                // strictly below this one.
                assert(queued == rank_queued(q0, rank as int)) by {
                    if queued {
                        let t2 = choose|t2: int| 0 <= t2 < self.stop_queue@.len()
                            && (#[trigger] self.stop_queue@[t2]).0 == rank;
                        assert(t2 < q0.len());
                        assert(q0[t2].0 == rank);
                    }
                    if rank_queued(q0, rank as int) {
                        let t2 = choose|t2: int| 0 <= t2 < q0.len()
                            && (#[trigger] q0[t2]).0 == rank;
                        assert(self.stop_queue@[t2].0 == rank);
                    }
                }
            }
            let ghost pre_q = self.stop_queue@;
            if self.alive[rank] && !queued {
                self.stop_queue.push((rank, ProcStopReason::Stopped));
            }
            rank = rank + 1;
            proof {
                assert(orderly_stops(q0, alive0, rank - 1)
                    == (if alive0[rank - 1] && !rank_queued(q0, rank - 1) {
                        seq![((rank - 1) as usize, ProcStopReason::Stopped)]
                    } else {
                        Seq::<(usize, ProcStopReason)>::empty()
                    }) + orderly_stops(q0, alive0, rank as int));
                assert(self.stop_queue@ + orderly_stops(q0, alive0, rank as int)
                    =~= q0 + orderly_stops(q0, alive0, 0));
            }
        }
        proof {
            assert(orderly_stops(q0, alive0, n as int) =~= Seq::<(usize, ProcStopReason)>::empty());
            assert(self.stop_queue@ =~= q0 + orderly_stops(q0, alive0, 0));
        }
        self.stopping = true;
    }

    /// Requests orderly teardown; equivalent to `stopper`.
    pub fn stop(&mut self) -> (r: Result<(), AllocatorError>)
        requires
            old(self).wf(),
        ensures
            final(self).wf(),
            final(self).stopping,
            final(self).alive@ == old(self).alive@,
            final(self).stop_queue@ == old(self).stop_queue@
                + orderly_stops(old(self).stop_queue@, old(self).alive@, 0),
            r is Ok,
    {
        self.stopper();
        Ok(())
    }

    /// The next lifecycle event: `Created` for each rank in order, then
    /// `Running` for each rank in order, then each queued stop of a
    /// still-alive proc; `None` when nothing is pending.
    #[verifier::loop_isolation(false)]
    pub fn next(&mut self) -> (r: Option<ProcState>)
        requires
            old(self).wf(),
        ensures
            final(self).wf(),
            final(self).name == old(self).name,
            final(self).size == old(self).size,
            final(self).spec == old(self).spec,
            final(self).stopping == old(self).stopping,
            old(self).created_upto < old(self).size ==> {
                &&& r matches Some(ProcState::Created { create_key, point })
                &&& final(self).created_upto == old(self).created_upto + 1
                &&& final(self).running_upto == old(self).running_upto
                &&& final(self).alive@ == old(self).alive@
                &&& final(self).stop_queue@ == old(self).stop_queue@
            },
            (old(self).created_upto == old(self).size && old(self).running_upto < old(self).size)
                ==> {
                &&& r matches Some(ProcState::Running { create_key, proc_id, addr })
                &&& final(self).created_upto == old(self).created_upto
                &&& final(self).running_upto == old(self).running_upto + 1
                &&& final(self).alive@ == old(self).alive@
                &&& final(self).stop_queue@ == old(self).stop_queue@
            },
            (old(self).created_upto == old(self).size && old(self).running_upto == old(self).size)
                ==> {
                let q = old(self).stop_queue@;
                let alive = old(self).alive@;
                let j = first_live_stop(q, alive);
                &&& final(self).created_upto == old(self).created_upto
                &&& final(self).running_upto == old(self).running_upto
                &&& if j < q.len() {
                    &&& r == Some(ProcState::Stopped { create_key: q[j].0 as u64, reason: q[j].1 })
                    &&& final(self).alive@ == old(self).alive@.update(q[j].0 as int, false)
                    &&& final(self).stop_queue@ == q.skip(j + 1)
                } else {
                    &&& r is None
                    &&& final(self).stop_queue@.len() == 0
                    &&& final(self).alive@ == old(self).alive@
                }
            },
            match r {
                Some(ProcState::Created { create_key, point }) => {
                    &&& old(self).created_upto < old(self).size
                    &&& create_key == old(self).created_upto
                    &&& point.rank == old(self).created_upto
                    &&& final(self).created_upto == old(self).created_upto + 1
                    &&& final(self).running_upto == old(self).running_upto
                },
                Some(ProcState::Running { create_key, proc_id, addr }) => {
                    &&& old(self).created_upto == old(self).size
                    &&& old(self).running_upto < old(self).size
                    &&& create_key == old(self).running_upto
                    &&& proc_id.world == old(self).name
                    &&& proc_id.rank == old(self).running_upto
                    &&& addr == old(self).running_upto
                    &&& final(self).running_upto == old(self).running_upto + 1
                },
                Some(ProcState::Stopped { create_key, reason }) => {
                    &&& create_key < old(self).size
                    &&& old(self).alive@[create_key as int]
                    &&& !final(self).alive@[create_key as int]
                    &&& final(self).created_upto == old(self).created_upto
                    &&& final(self).running_upto == old(self).running_upto
                    &&& final(self).stop_queue@.len() < old(self).stop_queue@.len()
                },
                None => {
                    &&& final(self).created_upto == old(self).created_upto
                    &&& final(self).running_upto == old(self).running_upto
                    &&& final(self).stop_queue@.len() == 0
                },
            },
    {
        if self.created_upto < self.size {
            let rank = self.created_upto;
            let point = match self.spec.extent.point_of_rank(rank) {
                Ok(p) => p,
                Err(_) => {
                    proof {
                        assert(false);
                    }
                    unreached()
                }
            };
            self.created_upto = rank + 1;
            return Some(ProcState::Created { create_key: rank as u64, point });
        }
        if self.running_upto < self.size {
            let rank = self.running_upto;
            self.running_upto = rank + 1;
            return Some(ProcState::Running {
                create_key: rank as u64,
                proc_id: ProcId { world: self.name, rank },
                addr: rank as u64,
            });
        }
        let ghost q0 = self.stop_queue@;
        let ghost alive0 = self.alive@;
        let ghost mut k: int = 0;
        while self.stop_queue.len() > 0
            invariant
                self.wf(),
                self.name == old(self).name,
                self.size == old(self).size,
                self.stopping == old(self).stopping,
                self.created_upto == old(self).created_upto,
                self.running_upto == old(self).running_upto,
                self.spec == old(self).spec,
                self.alive@ == alive0,
                self.created_upto == self.size,
                self.running_upto == self.size,
                0 <= k <= q0.len(),
                self.stop_queue@ == q0.skip(k),
                forall|t: int| 0 <= t < k
                    ==> !((#[trigger] q0[t]).0 < alive0.len() && alive0[q0[t].0 as int]),
            decreases self.stop_queue@.len(),
        {
            let (rank, reason) = self.stop_queue.remove(0);
            proof {
                assert(q0.skip(k)[0] == q0[k]);
                assert(self.stop_queue@ =~= q0.skip(k + 1));
            }
            if self.alive[rank] {
                self.alive.set(rank, false);
                proof {
                    lemma_first_live_stop(q0, alive0, k);
                }
                return Some(ProcState::Stopped { create_key: rank as u64, reason });
            }
            proof {
                k = k + 1;
            }
        }
        proof {
            assert(k == q0.len()) by {
                assert(q0.skip(k).len() == 0);
            }
            lemma_first_live_stop(q0, alive0, k);
        }
        None
    }

    /// Drives the lifecycle until every rank is running, returning the
    /// ordered slot list.
    #[verifier::loop_isolation(false)]
    pub fn initialize(&mut self) -> (r: Result<Vec<AllocatedProc>, AllocatorError>)
        requires
            old(self).wf(),
            old(self).created_upto == 0,
            old(self).running_upto == 0,
        ensures
            final(self).wf(),
            final(self).name == old(self).name,
            final(self).size == old(self).size,
            final(self).spec == old(self).spec,
            match r {
                Ok(procs) => {
                    &&& procs@.len() == old(self).size
                    &&& forall|t: int| 0 <= t < procs@.len()
                        ==> (#[trigger] procs@[t]).create_key == t
                            && procs@[t].proc_id.world == old(self).name
                            && procs@[t].proc_id.rank == t
                            && procs@[t].addr == t
                },
                Err(_) => false,
            },
    {
        let n = self.size;
        let mut created: usize = 0;
        while created < n
            invariant
                self.wf(),
                created == self.created_upto,
                self.running_upto == 0,
                n == self.size == old(self).size,
                self.name == old(self).name,
                self.spec == old(self).spec,
            decreases n - created,
        {
            let _ = self.next();
            created = created + 1;
        }
        let mut procs: Vec<AllocatedProc> = Vec::new();
        let mut running: usize = 0;
        while running < n
            invariant
                self.wf(),
                self.created_upto == n,
                running == self.running_upto,
                n == self.size == old(self).size,
                self.name == old(self).name,
                self.spec == old(self).spec,
                procs@.len() == running,
                forall|t: int| 0 <= t < running
                    ==> (#[trigger] procs@[t]).create_key == t
                        && procs@[t].proc_id.world == old(self).name
                        && procs@[t].proc_id.rank == t
                        && procs@[t].addr == t,
            decreases n - running,
        {
            match self.next() {
                Some(ProcState::Running { create_key, proc_id, addr }) => {
                    procs.push(AllocatedProc { create_key, proc_id, addr });
                }
                _ => {
                    proof {
                        assert(false);
                    }
                }
            }
            running = running + 1;
        }
        Ok(procs)
    }
}

} // verus!
