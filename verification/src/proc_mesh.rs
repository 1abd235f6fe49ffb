//! The proc-mesh lifecycle: tying an allocation into a routable mesh,
//! installing supervision, spawning actor meshes, and normalizing lifecycle
//! and supervision events for subscribers.
//!
//! The channel plumbing of the full system (mailboxes, ports, comm-actor
//! fabric) is outside this model; what stands here is the decision core: the
//! address book and completion bookkeeping of allocation, the last-sink-wins
//! supervision sink, per-mesh event registration, gspawn collection, and the
//! event-normalization rules of the supervision stream.

use vstd::prelude::*;

verus! {

use crate::allocator::first_live_stop;
use crate::allocator::AllocatedProc;
use crate::allocator::AllocatorError;
use crate::allocator::ProcId;
use crate::allocator::ProcState;
use crate::allocator::ProcStopReason;
use crate::allocator::SimAlloc;
use crate::extent::Extent;
use crate::text::chars_of;
use crate::text::string_of;

/// The identity of an actor: its proc, its name, and its pid within the
/// name.
#[derive(Debug, PartialEq, Eq)]
pub struct ActorId {
    pub proc_id: ProcId,
    pub name: String,
    pub pid: usize,
}

impl Clone for ActorId {
    /// A clone is the same identity.
    fn clone(&self) -> (r: Self)
        ensures
            r == *self,
    {
        ActorId { proc_id: self.proc_id, name: clone_string(&self.name), pid: self.pid }
    }
}

/// The lifecycle status an actor reports.
#[derive(Debug, PartialEq, Eq)]
pub enum ActorStatus {
    Running,
    Stopped,
    Failed(String),
}

impl Clone for ActorStatus {
    /// A clone is the same status.
    fn clone(&self) -> (r: Self)
        ensures
            r == *self,
    {
        match self {
            ActorStatus::Running => ActorStatus::Running,
            ActorStatus::Stopped => ActorStatus::Stopped,
            ActorStatus::Failed(msg) => ActorStatus::Failed(clone_string(msg)),
        }
    }
}

/// A supervision event: an actor, its status, an optional actor-mesh header
/// carried by casts through the comm tree, and an optional cause.
#[derive(Debug, PartialEq, Eq)]
pub struct ActorSupervisionEvent {
    pub actor_id: ActorId,
    pub actor_status: ActorStatus,
    pub cast_mesh_id: Option<(u64, String)>,
    pub caused_by: Option<String>,
}

impl Clone for ActorSupervisionEvent {
    /// A clone is the same event.
    fn clone(&self) -> (r: Self)
        ensures
            r == *self,
    {
        ActorSupervisionEvent {
            actor_id: self.actor_id.clone(),
            actor_status: self.actor_status.clone(),
            cast_mesh_id: match &self.cast_mesh_id {
                Some(p) => Some((p.0, clone_string(&p.1))),
                None => None,
            },
            caused_by: match &self.caused_by {
                Some(c) => Some(clone_string(c)),
                None => None,
            },
        }
    }
}

/// A clone of a string, as the same value.
fn clone_string(s: &String) -> (r: String)
    ensures
        r == *s,
{
    s.clone()
}

/// The per-rank outcome of a group spawn.
#[derive(Debug, Clone, PartialEq, Eq)]
pub enum GspawnResult {
    Success { rank: usize, actor_id: ActorId },
    Error(String),
}

/// The outcome of asking an agent to stop an actor.
#[derive(Debug, Clone, Copy, PartialEq, Eq, Structural)]
pub enum StopActorResult {
    Success,
    NotFound,
    Timeout,
}

/// Where the proc-event stream is in its life.
#[derive(Debug, Clone, Copy, PartialEq, Eq, Structural)]
pub enum SupervisionEventState {
    SupervisionEventForward,
    SupervisionEventForwardFailed,
    SupervisionEventReceived,
    SupervisionEventTransmitFailed,
}

/// A set of per-rank completion slots: each rank completes at most
/// meaningfully once, and the set knows when all have completed.
pub struct Ranks<T> {
    pub slots: Vec<Option<T>>,
}

impl<T> Ranks<T> {
    /// `n` empty completion slots.
    pub fn new(n: usize) -> (r: Ranks<T>)
        ensures
            r.slots@.len() == n,
            forall|t: int| 0 <= t < n ==> (#[trigger] r.slots@[t]) is None,
    {
        let mut slots: Vec<Option<T>> = Vec::new();
        let mut i: usize = 0;
        while i < n
            invariant
                i <= n,
                slots@.len() == i,
                forall|t: int| 0 <= t < i ==> (#[trigger] slots@[t]) is None,
            decreases n - i,
        {
            slots.push(None);
            i = i + 1;
        }
        Ranks { slots }
    }

    /// Records a completion for `rank`, returning what was there before —
    /// `Some` signals a duplicate completion.
    pub fn insert(&mut self, rank: usize, value: T) -> (r: Option<T>)
        requires
            rank < old(self).slots@.len(),
        ensures
            final(self).slots@ == old(self).slots@.update(rank as int, Some(value)),
            r == old(self).slots@[rank as int],
    {
        let prev = self.slots.remove(rank);
        self.slots.insert(rank, Some(value));
        proof {
            assert(final(self).slots@ =~= old(self).slots@.update(rank as int, Some(value)));
        }
        prev
    }

    /// Whether every rank has completed.
    pub fn is_full(&self) -> (r: bool)
        ensures
            r == forall|t: int| 0 <= t < self.slots@.len() ==> (#[trigger] self.slots@[t]) is Some,
    {
        let n = self.slots.len();
        let mut i: usize = 0;
        while i < n
            invariant
                i <= n,
                n == self.slots@.len(),
                forall|t: int| 0 <= t < i ==> (#[trigger] self.slots@[t]) is Some,
            decreases n - i,
        {
            let some = match &self.slots[i] {
                Some(_) => true,
                None => false,
            };
            if !some {
                return false;
            }
            i = i + 1;
        }
        true
    }

    /// The completed values in rank order; every rank must have completed.
    pub fn into_vec(self) -> (r: Vec<T>)
        requires
            forall|t: int| 0 <= t < self.slots@.len() ==> (#[trigger] self.slots@[t]) is Some,
        ensures
            r@.len() == self.slots@.len(),
            forall|t: int| 0 <= t < r@.len() ==> Some(#[trigger] r@[t]) == self.slots@[t],
    {
        let ghost orig = self.slots@;
        let mut slots = self.slots;
        let n = slots.len();
        let mut out: Vec<T> = Vec::new();
        let mut i: usize = 0;
        while i < n
            invariant
                i <= n,
                n == orig.len(),
                slots@ == orig.skip(i as int),
                forall|t: int| 0 <= t < n ==> (#[trigger] orig[t]) is Some,
                out@.len() == i,
                forall|t: int| 0 <= t < i ==> Some(#[trigger] out@[t]) == orig[t],
            decreases n - i,
        {
            let slot = slots.remove(0);
            proof {
                assert(orig.skip(i as int)[0] == orig[i as int]);
            }
            match slot {
                Some(v) => {
                    out.push(v);
                }
                None => {
                    proof {
                        assert(false);
                    }
                }
            }
            i = i + 1;
            proof {
                assert(slots@ =~= orig.skip(i as int));
            }
        }
        out
    }
}

/// The process-global supervision sink: a single optional handle with
/// last-sink-wins semantics.
///
/// This is an admitted stopgap kept deliberately: when several meshes exist
/// in one process, the most recently installed sink replaces the prior one,
/// and the replaced handle is returned to the caller. A longer-term design
/// would use per-world clients; the last-sink-wins rule is preserved here
/// verbatim rather than replaced by another policy.
#[derive(Debug, PartialEq, Eq, Structural)]
pub struct SupervisionSink {
    pub current: Option<u64>,
}

impl SupervisionSink {
    /// An empty sink cell.
    pub fn new() -> (r: SupervisionSink)
        ensures
            r.current is None,
    {
        SupervisionSink { current: None }
    }

    /// Installs (or replaces) the sink: the new handle wins, and the
    /// previous one — still a valid handle — is returned for logging.
    pub fn set(&mut self, sink: u64) -> (r: Option<u64>)
        ensures
            final(self).current == Some(sink),
            r == old(self).current,
    {
        let prev = self.current;
        self.current = Some(sink);
        prev
    }

    /// The currently installed sink, re-read on every event so a newer mesh
    /// can take over routing.
    pub fn get(&self) -> (r: Option<u64>)
        ensures
            r == self.current,
    {
        match &self.current {
            Some(s) => Some(*s),
            None => None,
        }
    }
}

/// The in-memory mesh agent of one proc: accepts configuration and spawns
/// named actors, at most one per name.
#[derive(Debug, PartialEq, Eq)]
pub struct MeshAgent {
    pub proc_id: ProcId,
    pub rank: usize,
    pub configured: bool,
    pub spawned: Vec<String>,
}

impl MeshAgent {
    /// Whether an actor of this name exists on this agent's proc.
    pub open spec fn has_actor(&self, name: Seq<char>) -> bool {
        exists|t: int| 0 <= t < self.spawned@.len() && (#[trigger] self.spawned@[t])@ == name
    }

    /// Accepts the rank and address book; acks with the rank.
    pub fn configure(&mut self, rank: usize) -> (r: usize)
        ensures
            final(self).configured,
            final(self).rank == rank,
            final(self).proc_id == old(self).proc_id,
            final(self).spawned@ == old(self).spawned@,
            r == rank,
    {
        self.configured = true;
        self.rank = rank;
        rank
    }

    /// Spawns an actor of the given name: succeeds with the new actor's id
    /// iff no actor of that name exists here yet, and otherwise reports the
    /// duplicate as an error message.
    pub fn gspawn(&mut self, actor_name: &str, _params: &Vec<u8>) -> (r: GspawnResult)
        ensures
            final(self).proc_id == old(self).proc_id,
            final(self).rank == old(self).rank,
            final(self).configured == old(self).configured,
            if old(self).has_actor(actor_name@) {
                &&& r is Error
                &&& final(self).spawned@ == old(self).spawned@
            } else {
                &&& (r matches GspawnResult::Success { rank, actor_id }
                    ==> rank == old(self).rank
                        && actor_id.proc_id == old(self).proc_id
                        && actor_id.name@ == actor_name@
                        && actor_id.pid == 0)
                &&& r is Success
                &&& final(self).has_actor(actor_name@)
            },
    {
        let needle: String = actor_name.to_owned();
        let n = self.spawned.len();
        let mut t: usize = 0;
        while t < n
            invariant
                t <= n,
                n == self.spawned@.len(),
                needle@ == actor_name@,
                forall|u: int| 0 <= u < t ==> (#[trigger] self.spawned@[u])@ != actor_name@,
            decreases n - t,
        {
            if self.spawned[t] == needle {
                proof {
                    assert(self.spawned@[t as int]@ == actor_name@);
                }
                return GspawnResult::Error(needle);
            }
            proof {
                assert(self.spawned@[t as int]@ != actor_name@);
            }
            t = t + 1;
        }
        self.spawned.push(needle);
        proof {
            assert(self.spawned@[n as int]@ == actor_name@);
        }
        GspawnResult::Success {
            rank: self.rank,
            actor_id: ActorId { proc_id: self.proc_id, name: actor_name.to_owned(), pid: 0 },
        }
    }

    /// Stops the actor of the given name, if it exists here.
    pub fn stop_actor(&mut self, actor_name: &str) -> (r: StopActorResult)
        ensures
            final(self).proc_id == old(self).proc_id,
            final(self).rank == old(self).rank,
            !final(self).has_actor(actor_name@),
            r == StopActorResult::Success <==> old(self).has_actor(actor_name@),
            r != StopActorResult::Timeout,
    {
        let needle: String = actor_name.to_owned();
        let n = self.spawned.len();
        let mut out: Vec<String> = Vec::new();
        let mut found = false;
        let mut t: usize = 0;
        while t < n
            invariant
                t <= n,
                n == self.spawned@.len(),
                needle@ == actor_name@,
                forall|u: int| 0 <= u < out@.len() ==> (#[trigger] out@[u])@ != actor_name@,
                found <==> exists|u: int| 0 <= u < t && (#[trigger] self.spawned@[u])@ == actor_name@,
            decreases n - t,
        {
            let keep = !(self.spawned[t] == needle);
            if keep {
                let item = self.spawned[t].clone();
                proof {
                    assert(item == self.spawned@[t as int]);
                }
                out.push(item);
            } else {
                found = true;
            }
            t = t + 1;
        }
        self.spawned = out;
        if found {
            StopActorResult::Success
        } else {
            StopActorResult::NotFound
        }
    }
}


/// Errors from spawning an actor mesh.
#[derive(Debug, Clone, PartialEq, Eq)]
pub enum SpawnError {
    /// Some rank's gspawn reported an error; the whole spawn fails, and
    /// already-spawned actors are left running for the caller to stop.
    GspawnFailed(String),
}

/// An actor mesh rooted at a proc mesh: the mesh name and one actor
/// reference per rank.
#[derive(Debug, PartialEq, Eq)]
pub struct RootActorMesh {
    pub name: String,
    pub ranks: Vec<ActorId>,
}

/// A proc lifecycle event, normalized to ranks of the mesh.
#[derive(Debug, Clone, PartialEq, Eq)]
pub enum ProcEvent {
    /// The proc of the given rank stopped for the given reason.
    Stopped(usize, ProcStopReason),
    /// The proc of the given rank crashed; reserved for unhandled
    /// supervision events.
    Crashed(usize, String),
}

/// A mesh of procs whose lifecycles are managed by an allocation, wired for
/// supervision and actor-mesh spawning.
pub struct ProcMesh {
    pub world: u64,
    pub extent: Extent,
    pub ranks: Vec<AllocatedProc>,
    pub agents: Vec<MeshAgent>,
    pub comm_actors: Vec<ActorId>,
    pub registered: Vec<String>,
    pub event_state: Option<SimAlloc>,
}

impl ProcMesh {
    /// Consistency of the mesh tables: the extent indexes the slot list, one
    /// configured agent serves each rank, every slot is keyed by its rank,
    /// and a not-yet-taken event state carries the matching allocation.
    pub open spec fn wf(&self) -> bool {
        &&& self.extent.wf()
        &&& self.ranks@.len() == self.extent.spec_num_ranks()
        &&& self.agents@.len() == self.ranks@.len()
        &&& forall|t: int| 0 <= t < self.agents@.len() ==> (#[trigger] self.agents@[t]).rank == t
        &&& forall|t: int| 0 <= t < self.ranks@.len()
            ==> (#[trigger] self.ranks@[t]).create_key == t
                && self.ranks@[t].proc_id.rank == t
                && self.ranks@[t].proc_id.world == self.world
                && self.ranks@[t].addr == t
        &&& self.event_state matches Some(a)
            ==> a.wf() && a.size == self.ranks@.len() && a.name == self.world
    }

    /// Ties an allocation into a mesh: initializes the cohort, builds the
    /// address book, configures one agent per proc collecting one ack per
    /// rank, installs this mesh's supervision sink process-globally
    /// (last sink wins), and spawns the comm-actor fabric.
    #[verifier::loop_isolation(false)]
    pub fn allocate(alloc: SimAlloc, global_sink: &mut SupervisionSink)
        -> (r: Result<ProcMesh, AllocatorError>)
        requires
            alloc.wf(),
            alloc.created_upto == 0,
            alloc.running_upto == 0,
        ensures
            match r {
                Ok(m) => {
                    &&& m.wf()
                    &&& m.world == alloc.name
                    &&& m.extent.labels@ == alloc.spec.extent.labels@
                    &&& m.extent.sizes@ == alloc.spec.extent.sizes@
                    &&& m.ranks@.len() == alloc.size
                    &&& forall|t: int| 0 <= t < m.ranks@.len()
                        ==> (#[trigger] m.ranks@[t]).proc_id.world == alloc.name
                            && m.ranks@[t].proc_id.rank == t
                            && m.ranks@[t].create_key == t
                            && m.ranks@[t].addr == t
                    &&& m.comm_actors@.len() == alloc.size
                    &&& forall|t: int| 0 <= t < m.comm_actors@.len()
                        ==> (#[trigger] m.comm_actors@[t]).proc_id == m.ranks@[t].proc_id
                            && m.comm_actors@[t].name@ == "comm"@
                            && m.comm_actors@[t].pid == 0
                    &&& forall|t: int| 0 <= t < m.agents@.len()
                        ==> (#[trigger] m.agents@[t]).configured
                            && m.agents@[t].proc_id == m.ranks@[t].proc_id
                            && m.agents@[t].has_actor("comm"@)
                    &&& m.event_state is Some
                    &&& m.registered@.len() == 0
                    &&& final(global_sink).current == Some(alloc.name)
                },
                Err(_) => false,
            },
    {
        let mut alloc = alloc;
        let running = match alloc.initialize() {
            Ok(procs) => procs,
            Err(e) => {
                proof {
                    assert(false);
                }
                return Err(e);
            }
        };
        let n = running.len();

        // One agent per proc; configure each with its rank and collect one
        // ack per rank.
        let mut agents: Vec<MeshAgent> = Vec::new();
        let mut completed: Ranks<usize> = Ranks::new(n);
        let mut i: usize = 0;
        while i < n
            invariant
                i <= n,
                n == running@.len(),
                agents@.len() == i,
                completed.slots@.len() == n,
                forall|t: int| 0 <= t < i ==> (#[trigger] completed.slots@[t]) is Some,
                forall|t: int| i <= t < n ==> (#[trigger] completed.slots@[t]) is None,
                forall|t: int| 0 <= t < i
                    ==> (#[trigger] agents@[t]).proc_id == running@[t].proc_id
                        && agents@[t].configured && agents@[t].rank == t
                        && agents@[t].spawned@.len() == 0,
            decreases n - i,
        {
            let mut agent = MeshAgent {
                proc_id: running[i].proc_id,
                rank: 0,
                configured: false,
                spawned: Vec::new(),
            };
            let ack = agent.configure(i);
            let prev = completed.insert(ack, i);
            proof {
                assert(prev is None);
            }
            agents.push(agent);
            i = i + 1;
        }

        // Install this mesh's sink process-globally; the previous sink,
        // if any, is returned to the caller of `set` (last sink wins).
        let world = alloc.name();
        let _prev = global_sink.set(world);

        // Spawn the comm-actor fabric: one comm actor per proc.
        let params: Vec<u8> = Vec::new();
        let mut comm_actors: Vec<ActorId> = Vec::new();
        let mut c: usize = 0;
        while c < n
            invariant
                c <= n,
                n == agents@.len() == running@.len(),
                comm_actors@.len() == c,
                forall|t: int| c <= t < n ==> (#[trigger] agents@[t]).spawned@.len() == 0,
                forall|t: int| 0 <= t < n
                    ==> (#[trigger] agents@[t]).rank == t
                        && agents@[t].proc_id == running@[t].proc_id
                        && agents@[t].configured,
                forall|t: int| 0 <= t < c ==> (#[trigger] agents@[t]).has_actor("comm"@),
                forall|t: int| 0 <= t < c
                    ==> (#[trigger] comm_actors@[t]).proc_id == running@[t].proc_id
                        && comm_actors@[t].name@ == "comm"@
                        && comm_actors@[t].pid == 0,
            decreases n - c,
        {
            let agent = &mut agents[c];
            proof {
                assert(!agent.has_actor("comm"@));
            }
            match agent.gspawn("comm", &params) {
                GspawnResult::Success { rank, actor_id } => {
                    comm_actors.push(actor_id);
                }
                GspawnResult::Error(_) => {
                    proof {
                        assert(false);
                    }
                }
            }
            c = c + 1;
        }

        let extent = alloc.extent().clone();
        proof {
            assert(extent.sizes_int() == alloc.spec.extent.sizes_int());
        }
        Ok(ProcMesh {
            world,
            extent,
            ranks: running,
            agents,
            comm_actors,
            registered: Vec::new(),
            event_state: Some(alloc),
        })
    }

    /// The proc id of the mesh's own synthetic client proc.
    pub fn proc_id(&self) -> (r: ProcId)
        ensures
            r.world == self.world,
    {
        ProcId { world: self.world, rank: self.ranks.len() }
    }

    /// The world this mesh belongs to.
    pub fn world_id(&self) -> (r: u64)
        ensures
            r == self.world,
    {
        self.world
    }

    /// The proc at the given rank.
    pub fn get(&self, rank: usize) -> (r: Option<ProcId>)
        ensures
            match r {
                Some(p) => rank < self.ranks@.len() && p == self.ranks@[rank as int].proc_id,
                None => rank >= self.ranks@.len(),
            },
    {
        if rank < self.ranks.len() {
            Some(self.ranks[rank].proc_id)
        } else {
            None
        }
    }

    /// The extent this mesh covers.
    pub fn shape(&self) -> (r: &Extent)
        ensures
            r == &self.extent,
    {
        &self.extent
    }

    /// The comm actor to which casts are forwarded.
    pub fn comm_actor(&self) -> (r: Option<&ActorId>)
        ensures
            match r {
                Some(a) => self.comm_actors@.len() > 0 && *a == self.comm_actors@[0],
                None => self.comm_actors@.len() == 0,
            },
    {
        if self.comm_actors.len() > 0 {
            Some(&self.comm_actors[0])
        } else {
            None
        }
    }

    /// Spawns an actor mesh: registers the name for supervision routing
    /// before spawning, then asks every agent to spawn, collecting one
    /// completion per rank; any per-rank error fails the whole spawn, and
    /// already-spawned actors stay running.
    #[verifier::loop_isolation(false)]
    pub fn spawn(&mut self, actor_name: &str, params: &Vec<u8>) -> (r: Result<RootActorMesh, SpawnError>)
        requires
            old(self).wf(),
        ensures
            final(self).wf(),
            final(self).world == old(self).world,
            final(self).ranks@ == old(self).ranks@,
            // The name is registered for supervision routing before any
            // actor spawns, whatever the outcome.
            final(self).registered@.len() == old(self).registered@.len() + 1,
            final(self).registered@.take(old(self).registered@.len() as int)
                == old(self).registered@,
            final(self).registered@.last()@ == actor_name@,
            // The spawn fails exactly when some agent already hosts the
            // name; already-spawned actors stay running either way.
            r is Err <==> exists|t: int|
                0 <= t < old(self).agents@.len()
                    && (#[trigger] old(self).agents@[t]).has_actor(actor_name@),
            match r {
                Ok(mesh) => {
                    &&& mesh.name@ == actor_name@
                    &&& mesh.ranks@.len() == old(self).agents@.len()
                    &&& forall|t: int| 0 <= t < mesh.ranks@.len()
                        ==> (#[trigger] mesh.ranks@[t]).proc_id == old(self).agents@[t].proc_id
                            && mesh.ranks@[t].name@ == actor_name@
                            && mesh.ranks@[t].pid == 0
                    &&& forall|t: int| 0 <= t < final(self).agents@.len()
                        ==> (#[trigger] final(self).agents@[t]).has_actor(actor_name@)
                },
                Err(_) => true,
            },
    {
        // Supervision routing is registered before any actor spawns.
        self.registered.push(actor_name.to_owned());
        proof {
            assert(self.registered@.take(old(self).registered@.len() as int)
                =~= old(self).registered@);
        }

        let n = self.agents.len();
        let mut completed: Ranks<ActorId> = Ranks::new(n);
        let mut failed: Option<String> = None;
        let ghost agents0 = self.agents@;
        let mut i: usize = 0;
        while i < n
            invariant
                i <= n,
                n == self.agents@.len(),
                self.wf(),
                self.world == old(self).world,
                self.ranks@ == old(self).ranks@,
                self.registered@.len() == old(self).registered@.len() + 1,
                completed.slots@.len() == n,
                agents0 == old(self).agents@,
                self.registered@.len() == old(self).registered@.len() + 1,
                self.registered@.take(old(self).registered@.len() as int)
                    == old(self).registered@,
                self.registered@.last()@ == actor_name@,
                failed is None ==> forall|t: int| 0 <= t < i
                    ==> ((#[trigger] completed.slots@[t]) matches Some(a)
                        && a.proc_id == agents0[t].proc_id
                        && a.name@ == actor_name@
                        && a.pid == 0)
                        && self.agents@[t].has_actor(actor_name@),
                forall|t: int| i <= t < n ==> #[trigger] self.agents@[t] == agents0[t],
                failed is Some ==> exists|t: int| 0 <= t < i
                    && (#[trigger] agents0[t]).has_actor(actor_name@),
                failed is None ==> forall|t: int| 0 <= t < i
                    ==> !(#[trigger] agents0[t]).has_actor(actor_name@),
            decreases n - i,
        {
            let agent = &mut self.agents[i];
            let outcome = agent.gspawn(actor_name, params);
            match outcome {
                GspawnResult::Success { rank, actor_id } => {
                    if rank < n {
                        let _ = completed.insert(rank, actor_id);
                    }
                }
                GspawnResult::Error(msg) => {
                    if failed.is_none() {
                        failed = Some(msg);
                    }
                }
            }
            i = i + 1;
            proof {
                if failed is None {
                    assert(self.agents@[i - 1].has_actor(actor_name@));
                }
            }
        }
        proof {
            if failed is None {
                assert forall|t: int| 0 <= t < self.agents@.len() implies
                    (#[trigger] self.agents@[t]).has_actor(actor_name@) by {
                    assert(completed.slots@[t] is Some && self.agents@[t].has_actor(actor_name@));
                }
            }
        }
        match failed {
            Some(msg) => Err(SpawnError::GspawnFailed(msg)),
            None => {
                if completed.is_full() {
                    let ranks = completed.into_vec();
                    Ok(RootActorMesh { name: actor_name.to_owned(), ranks })
                } else {
                    // Every agent acked under its own rank, so the set is
                    // provably full and this branch cannot be taken.
                    proof {
                        assert(false);
                    }
                    Err(SpawnError::GspawnFailed(actor_name.to_owned()))
                }
            }
        }
    }

    /// Asks every agent to stop the named actor and collects the per-agent
    /// outcomes; timeouts and not-found outcomes are not errors, and the
    /// operation is idempotent.
    #[verifier::loop_isolation(false)]
    pub fn stop_actor_by_name(&mut self, actor_name: &str) -> (r: Vec<StopActorResult>)
        requires
            old(self).wf(),
        ensures
            final(self).wf(),
            final(self).world == old(self).world,
            final(self).ranks@ == old(self).ranks@,
            final(self).registered@ == old(self).registered@,
            r@.len() == old(self).agents@.len(),
            forall|t: int| 0 <= t < final(self).agents@.len()
                ==> !(#[trigger] final(self).agents@[t]).has_actor(actor_name@),
    {
        let n = self.agents.len();
        let mut outcomes: Vec<StopActorResult> = Vec::new();
        let mut i: usize = 0;
        while i < n
            invariant
                i <= n,
                n == self.agents@.len(),
                self.wf(),
                self.world == old(self).world,
                self.ranks@ == old(self).ranks@,
                self.registered@ == old(self).registered@,
                outcomes@.len() == i,
                forall|t: int| 0 <= t < i
                    ==> !(#[trigger] self.agents@[t]).has_actor(actor_name@),
            decreases n - i,
        {
            let agent = &mut self.agents[i];
            let outcome = agent.stop_actor(actor_name);
            outcomes.push(outcome);
            i = i + 1;
        }
        outcomes
    }

    /// The event stream of this mesh. Each mesh produces exactly one:
    /// the first call hands it out and later calls return `None`.
    pub fn events(&mut self) -> (r: Option<ProcEvents>)
        requires
            old(self).wf(),
        ensures
            final(self).wf(),
            final(self).event_state is None,
            final(self).world == old(self).world,
            final(self).ranks@ == old(self).ranks@,
            r is Some <==> old(self).event_state is Some,
            match r {
                Some(ev) => {
                    &&& ev.wf()
                    &&& ev.ranks@ == old(self).ranks@
                    &&& ev.alloc == old(self).event_state->Some_0
                    &&& ev.outboxes@.len() == old(self).registered@.len()
                    &&& forall|t: int| 0 <= t < ev.outboxes@.len()
                        ==> (#[trigger] ev.outboxes@[t]).0@ == old(self).registered@[t]@
                            && ev.outboxes@[t].1@.len() == 0
                },
                None => true,
            },
    {
        let state = self.event_state.take();
        match state {
            Some(alloc) => {
                let mut outboxes: Vec<(String, Vec<ActorSupervisionEvent>)> = Vec::new();
                let m = self.registered.len();
                let mut t: usize = 0;
                while t < m
                    invariant
                        t <= m,
                        m == self.registered@.len(),
                        self.registered@ == old(self).registered@,
                        outboxes@.len() == t,
                        forall|w: int| 0 <= w < t
                            ==> (#[trigger] outboxes@[w]).0@ == self.registered@[w]@
                                && outboxes@[w].1@.len() == 0,
                    decreases m - t,
                {
                    outboxes.push((self.registered[t].clone(), Vec::new()));
                    t = t + 1;
                }
                let mut ranks: Vec<AllocatedProc> = Vec::new();
                let k = self.ranks.len();
                let mut u: usize = 0;
                while u < k
                    invariant
                        u <= k,
                        k == self.ranks@.len(),
                        ranks@ == self.ranks@.take(u as int),
                    decreases k - u,
                {
                    ranks.push(self.ranks[u]);
                    u = u + 1;
                    proof {
                        assert(ranks@ =~= self.ranks@.take(u as int));
                    }
                }
                proof {
                    assert(ranks@ =~= self.ranks@);
                }
                Some(ProcEvents { alloc, ranks, outboxes })
            }
            None => None,
        }
    }
}

/// The text a supervision event describes itself with: the actor's name
/// and, for a failure, `": "` and the failure message.
pub open spec fn event_text(ev: ActorSupervisionEvent) -> Seq<char> {
    ev.actor_id.name@ + status_suffix(ev.actor_status)
}

/// The status part of an event's description.
pub open spec fn status_suffix(st: ActorStatus) -> Seq<char> {
    match st {
        ActorStatus::Failed(msg) => seq![':', ' '] + msg@,
        _ => Seq::empty(),
    }
}

/// The proc a supervision event is attributed to after normalization: the
/// synthetic mesh-level proc from the cast header when one is present, else
/// the event's own proc.
pub open spec fn normalized_proc(ev: ActorSupervisionEvent) -> ProcId {
    match ev.cast_mesh_id {
        Some(p) => ProcId { world: p.0, rank: 0 },
        None => ev.actor_id.proc_id,
    }
}

/// The actor-mesh name a supervision event routes under after
/// normalization.
pub open spec fn normalized_name(ev: ActorSupervisionEvent) -> Seq<char> {
    match ev.cast_mesh_id {
        Some(p) => p.1@,
        None => ev.actor_id.name@,
    }
}

/// `ev` is `orig` with its actor id rewritten by the cast header (and equal
/// to `orig` when there is none).
pub open spec fn normalized_event(orig: ActorSupervisionEvent, ev: ActorSupervisionEvent) -> bool {
    &&& ev.actor_id.proc_id == normalized_proc(orig)
    &&& ev.actor_id.name@ == normalized_name(orig)
    &&& (orig.cast_mesh_id is Some ==> ev.actor_id.pid == 0)
    &&& (orig.cast_mesh_id is None ==> ev.actor_id == orig.actor_id)
    &&& ev.actor_status == orig.actor_status
    &&& ev.cast_mesh_id == orig.cast_mesh_id
    &&& ev.caused_by == orig.caused_by
}

/// `ev` is the synthetic failure event delivered to subscribers when the
/// proc `proc_id` stops: an `"any"`-named actor of that proc, failed, with
/// no cast header.
pub open spec fn synthetic_stop_event(ev: ActorSupervisionEvent, proc_id: ProcId) -> bool {
    &&& ev.actor_id.proc_id == proc_id
    &&& ev.actor_id.name@ == "any"@
    &&& ev.actor_id.pid == 0
    &&& ev.actor_status is Failed
    &&& ev.cast_mesh_id is None
}

/// Every subscriber's queue gained exactly one synthetic failure event for
/// the stopped proc, with names and earlier events untouched.
pub open spec fn stopped_procs_notified(
    before: Seq<(String, Vec<ActorSupervisionEvent>)>,
    after: Seq<(String, Vec<ActorSupervisionEvent>)>,
    proc_id: ProcId,
) -> bool {
    &&& after.len() == before.len()
    &&& forall|u: int| 0 <= u < after.len() ==> {
        &&& (#[trigger] after[u]).0 == before[u].0
        &&& after[u].1@.len() == before[u].1@.len() + 1
        &&& after[u].1@.take(before[u].1@.len() as int) == before[u].1@
        &&& synthetic_stop_event(after[u].1@.last(), proc_id)
    }
}

/// The first outbox registered under `name` (the outbox count when none
/// is).
pub open spec fn first_outbox_for(
    outboxes: Seq<(String, Vec<ActorSupervisionEvent>)>,
    name: Seq<char>,
) -> int
    decreases outboxes.len(),
{
    if outboxes.len() == 0 {
        0
    } else if outboxes[0].0@ == name {
        0
    } else {
        1 + first_outbox_for(outboxes.skip(1), name)
    }
}

/// A position preceded only by other names and itself named `name` (or the
/// end) is where the first such outbox stands.
pub proof fn lemma_first_outbox_for(
    outboxes: Seq<(String, Vec<ActorSupervisionEvent>)>,
    name: Seq<char>,
    j: int,
)
    requires
        0 <= j <= outboxes.len(),
        forall|t: int| 0 <= t < j ==> (#[trigger] outboxes[t]).0@ != name,
        j < outboxes.len() ==> outboxes[j].0@ == name,
    ensures
        first_outbox_for(outboxes, name) == j,
    decreases j, outboxes.len(),
{
    if outboxes.len() == 0 {
    } else if j == 0 {
    } else {
        assert(outboxes[0].0@ != name);
        assert forall|t: int| 0 <= t < j - 1 implies
            (#[trigger] outboxes.skip(1)[t]).0@ != name by {
            assert(outboxes.skip(1)[t] == outboxes[t + 1]);
        }
        assert(j - 1 < outboxes.skip(1).len() ==> outboxes.skip(1)[j - 1] == outboxes[j]);
        lemma_first_outbox_for(outboxes.skip(1), name, j - 1);
    }
}

/// The first rank whose proc is `proc_id` (the rank count when none is).
pub open spec fn first_rank_for(ranks: Seq<AllocatedProc>, proc_id: ProcId) -> int
    decreases ranks.len(),
{
    if ranks.len() == 0 {
        0
    } else if ranks[0].proc_id == proc_id {
        0
    } else {
        1 + first_rank_for(ranks.skip(1), proc_id)
    }
}

/// A position preceded only by other procs and itself holding `proc_id` (or
/// the end) is where the first such rank stands.
pub proof fn lemma_first_rank_for(ranks: Seq<AllocatedProc>, proc_id: ProcId, j: int)
    requires
        0 <= j <= ranks.len(),
        forall|t: int| 0 <= t < j ==> (#[trigger] ranks[t]).proc_id != proc_id,
        j < ranks.len() ==> ranks[j].proc_id == proc_id,
    ensures
        first_rank_for(ranks, proc_id) == j,
    decreases j, ranks.len(),
{
    if ranks.len() == 0 {
    } else if j == 0 {
    } else {
        assert(ranks[0].proc_id != proc_id);
        assert forall|t: int| 0 <= t < j - 1 implies
            (#[trigger] ranks.skip(1)[t]).proc_id != proc_id by {
            assert(ranks.skip(1)[t] == ranks[t + 1]);
        }
        assert(j - 1 < ranks.skip(1).len() ==> ranks.skip(1)[j - 1] == ranks[j]);
        lemma_first_rank_for(ranks.skip(1), proc_id, j - 1);
    }
}

/// The normalized event stream of a proc mesh: lifecycle events from the
/// allocation multiplexed with supervision events, routed to per-actor-mesh
/// subscribers.
pub struct ProcEvents {
    pub alloc: SimAlloc,
    pub ranks: Vec<AllocatedProc>,
    pub outboxes: Vec<(String, Vec<ActorSupervisionEvent>)>,
}

impl ProcEvents {
    /// Consistency of the stream's tables: a well-formed allocation, and a
    /// ranks table with one entry per slot, keyed by its own rank.
    pub open spec fn wf(&self) -> bool {
        &&& self.alloc.wf()
        &&& self.ranks@.len() == self.alloc.size
        &&& forall|t: int| 0 <= t < self.ranks@.len()
            ==> (#[trigger] self.ranks@[t]).create_key == t && self.ranks@[t].proc_id.rank == t
    }

    /// The next lifecycle event: pulls allocation states, mapping each stop
    /// of a known create key to its rank; before yielding the stop, a
    /// synthetic failure event for the proc's actors is delivered to every
    /// registered subscriber, since any actor there is by construction gone.
    /// `None` when the allocation has nothing pending.
    #[verifier::loop_isolation(false)]
    pub fn next(&mut self) -> (r: Option<ProcEvent>)
        requires
            old(self).wf(),
        ensures
            final(self).wf(),
            final(self).ranks@ == old(self).ranks@,
            ({
                // The first queued stop of a still-alive proc becomes a
                // rank-attributed stop event, with its queued reason and
                // the dead-lettered prefix dropped; before it is yielded,
                // every subscriber is told the proc's actors failed. With
                // nothing live queued the drained stream yields `None` and
                // touches no subscriber.
                let q = old(self).alloc.stop_queue@;
                let alive = old(self).alloc.alive@;
                let j = first_live_stop(q, alive);
                if j < q.len() {
                    &&& r == Some(ProcEvent::Stopped(q[j].0, q[j].1))
                    &&& final(self).alloc.stop_queue@ == q.skip(j + 1)
                    &&& final(self).alloc.alive@ == alive.update(q[j].0 as int, false)
                    &&& stopped_procs_notified(
                        old(self).outboxes@,
                        final(self).outboxes@,
                        old(self).ranks@[q[j].0 as int].proc_id,
                    )
                } else {
                    &&& r is None
                    &&& final(self).alloc.stop_queue@.len() == 0
                    &&& final(self).outboxes@ == old(self).outboxes@
                }
            }),
    {
        let ghost q0 = self.alloc.stop_queue@;
        let ghost alive0 = self.alloc.alive@;
        loop
            invariant
                self.wf(),
                self.ranks@ == old(self).ranks@,
                self.outboxes@ == old(self).outboxes@,
                self.alloc.stop_queue@ == q0,
                self.alloc.alive@ == alive0,
                self.alloc.name == old(self).alloc.name,
                self.alloc.size == old(self).alloc.size,
            decreases
                2 * self.alloc.size - self.alloc.created_upto - self.alloc.running_upto,
                self.alloc.stop_queue@.len(),
        {
            let ghost created_pre = self.alloc.created_upto;
            let ghost running_pre = self.alloc.running_upto;
            let state = self.alloc.next();
            match state {
                None => {
                    return None;
                }
                Some(ProcState::Stopped { create_key, reason }) => {
                    proof {
                        // The allocation yielded the first live queued stop.
                        assert(created_pre == self.alloc.size && running_pre == self.alloc.size);
                    }
                    let ghost j = first_live_stop(q0, alive0);
                    // Map the create key to its rank; the table keys each
                    // slot by its own rank, so the scan lands there.
                    let n = self.ranks.len();
                    let mut rank: Option<usize> = None;
                    let mut t: usize = 0;
                    while t < n
                        invariant
                            t <= n,
                            n == self.ranks@.len(),
                            self.wf(),
                            self.ranks@ == old(self).ranks@,
                            create_key < n,
                            match rank {
                                Some(rk) => rk < n && rk as u64 == create_key,
                                None => t <= create_key,
                            },
                        decreases n - t,
                    {
                        if self.ranks[t].create_key == create_key {
                            if self.ranks[t].proc_id.rank == t && create_key == t as u64 {
                                rank = Some(t);
                            }
                        }
                        t = t + 1;
                    }
                    match rank {
                        Some(rk) => {
                            // Any actor on the stopped proc is gone: tell
                            // every registered actor mesh before yielding.
                            self.notify_proc_stopped(rk);
                            proof {
                                assert(rk == q0[j].0);
                            }
                            return Some(ProcEvent::Stopped(rk, reason));
                        }
                        None => {
                            proof {
                                // The table keys every slot below the size,
                                // so the scan cannot miss.
                                assert(false);
                            }
                        }
                    }
                }
                Some(_) => {
                    // Created/Running while draining: not surfaced.
                }
            }
        }
    }

    /// Delivers a synthetic failure event for the stopped proc at `rank` to
    /// every registered actor-mesh subscriber.
    #[verifier::loop_isolation(false)]
    fn notify_proc_stopped(&mut self, rank: usize)
        requires
            rank < old(self).ranks@.len(),
        ensures
            final(self).ranks@ == old(self).ranks@,
            final(self).alloc == old(self).alloc,
            stopped_procs_notified(
                old(self).outboxes@,
                final(self).outboxes@,
                old(self).ranks@[rank as int].proc_id,
            ),
    {
        let proc_id = self.ranks[rank].proc_id;
        let m = self.outboxes.len();
        let mut t: usize = 0;
        while t < m
            invariant
                t <= m,
                m == self.outboxes@.len(),
                self.ranks@ == old(self).ranks@,
                self.alloc == old(self).alloc,
                proc_id == old(self).ranks@[rank as int].proc_id,
                forall|u: int| t <= u < m
                    ==> #[trigger] self.outboxes@[u] == old(self).outboxes@[u],
                forall|u: int| 0 <= u < t ==> {
                    &&& (#[trigger] self.outboxes@[u]).0 == old(self).outboxes@[u].0
                    &&& self.outboxes@[u].1@.len() == old(self).outboxes@[u].1@.len() + 1
                    &&& self.outboxes@[u].1@.take(old(self).outboxes@[u].1@.len() as int)
                        == old(self).outboxes@[u].1@
                    &&& synthetic_stop_event(self.outboxes@[u].1@.last(), proc_id)
                },
            decreases m - t,
        {
            let event = ActorSupervisionEvent {
                actor_id: ActorId { proc_id, name: "any".to_owned(), pid: 0 },
                actor_status: ActorStatus::Failed("proc stopped".to_owned()),
                cast_mesh_id: None,
                caused_by: None,
            };
            let entry = &mut self.outboxes[t];
            entry.1.push(event);
            t = t + 1;
            proof {
                assert(self.outboxes@[t - 1].1@.take(old(self).outboxes@[t - 1].1@.len() as int)
                    =~= old(self).outboxes@[t - 1].1@);
            }
        }
    }

    /// Normalizes and routes one supervision event, yielding the crash it
    /// maps to. An event carrying an actor-mesh header has its actor id
    /// rewritten from the comm-actor identity to the synthetic mesh-level
    /// id. The event then goes to the subscriber registered under the actor
    /// name, if any. If the event's proc is not in the ranks table, the
    /// event is dropped (with a warning in the full system) rather than
    /// surfaced; this mirrors the admitted open question of the design.
    #[verifier::loop_isolation(false)]
    pub fn on_supervision_event(&mut self, event: ActorSupervisionEvent) -> (r: Option<ProcEvent>)
        ensures
            final(self).ranks@ == old(self).ranks@,
            final(self).alloc == old(self).alloc,
            ({
                // The normalized event goes to the first subscriber
                // registered under its actor-mesh name, if any; everything
                // else is untouched.
                let oi = first_outbox_for(old(self).outboxes@, normalized_name(event));
                &&& final(self).outboxes@.len() == old(self).outboxes@.len()
                &&& forall|u: int| 0 <= u < old(self).outboxes@.len() && u != oi
                    ==> #[trigger] final(self).outboxes@[u] == old(self).outboxes@[u]
                &&& oi < old(self).outboxes@.len() ==> {
                    &&& final(self).outboxes@[oi].0 == old(self).outboxes@[oi].0
                    &&& final(self).outboxes@[oi].1@.len() == old(self).outboxes@[oi].1@.len() + 1
                    &&& final(self).outboxes@[oi].1@.take(old(self).outboxes@[oi].1@.len() as int)
                        == old(self).outboxes@[oi].1@
                    &&& normalized_event(event, final(self).outboxes@[oi].1@.last())
                }
            }),
            ({
                // The crash is attributed to the first rank holding the
                // normalized proc; an unknown proc yields nothing (the
                // full system drops it with a warning).
                let ri = first_rank_for(old(self).ranks@, normalized_proc(event));
                if ri < old(self).ranks@.len() {
                    &&& r matches Some(ProcEvent::Crashed(rank, reason))
                        && rank == ri
                        && reason@ == normalized_name(event) + status_suffix(event.actor_status)
                } else {
                    r is None
                }
            }),
    {
        // Normalize events that came through the comm tree: rewrite the
        // comm-actor identity to the synthetic mesh-level id.
        let ghost orig = event;
        let mut event = event;
        let rewritten = match &event.cast_mesh_id {
            Some(pair) => {
                let world = pair.0;
                let mesh_name = pair.1.clone();
                Some(ActorId {
                    proc_id: ProcId { world, rank: 0 },
                    name: mesh_name,
                    pid: 0,
                })
            }
            None => None,
        };
        match rewritten {
            Some(id) => {
                event.actor_id = id;
            }
            None => {}
        }
        proof {
            assert(normalized_event(orig, event));
            assert(event.actor_id.name@ == normalized_name(orig));
            assert(event.actor_id.proc_id == normalized_proc(orig));
        }

        // Route to the subscriber registered under the actor's name.
        let ghost oi = first_outbox_for(old(self).outboxes@, normalized_name(orig));
        let m = self.outboxes.len();
        let mut t: usize = 0;
        let mut routed = false;
        while t < m
            invariant
                t <= m,
                m == self.outboxes@.len() == old(self).outboxes@.len(),
                self.ranks@ == old(self).ranks@,
                self.alloc == old(self).alloc,
                normalized_event(orig, event),
                event.actor_id.name@ == normalized_name(orig),
                forall|u: int| 0 <= u < old(self).outboxes@.len() && u != oi
                    ==> #[trigger] self.outboxes@[u] == old(self).outboxes@[u],
                !routed ==> self.outboxes@ == old(self).outboxes@
                    && forall|u: int| 0 <= u < t ==> (#[trigger] old(self).outboxes@[u]).0@
                        != normalized_name(orig),
                routed ==> {
                    &&& self.outboxes@[oi].0 == old(self).outboxes@[oi].0
                    &&& self.outboxes@[oi].1@.len() == old(self).outboxes@[oi].1@.len() + 1
                    &&& self.outboxes@[oi].1@.take(old(self).outboxes@[oi].1@.len() as int)
                        == old(self).outboxes@[oi].1@
                    &&& normalized_event(orig, self.outboxes@[oi].1@.last())
                },
            decreases m - t,
        {
            let matches_name = self.outboxes[t].0 == event.actor_id.name;
            if matches_name && !routed {
                proof {
                    lemma_first_outbox_for(old(self).outboxes@, normalized_name(orig), t as int);
                }
                let copy = event.clone();
                let entry = &mut self.outboxes[t];
                entry.1.push(copy);
                routed = true;
                proof {
                    assert(self.outboxes@[t as int].1@.take(
                        old(self).outboxes@[t as int].1@.len() as int)
                        =~= old(self).outboxes@[t as int].1@);
                }
            }
            t = t + 1;
        }
        proof {
            if !routed {
                lemma_first_outbox_for(old(self).outboxes@, normalized_name(orig), m as int);
            }
        }

        // Attribute the failure to a known rank, or drop the event.
        let ghost ri = first_rank_for(old(self).ranks@, normalized_proc(orig));
        let n = self.ranks.len();
        let mut found: Option<usize> = None;
        let mut u: usize = 0;
        while u < n
            invariant
                u <= n,
                n == self.ranks@.len(),
                self.ranks@ == old(self).ranks@,
                self.alloc == old(self).alloc,
                normalized_event(orig, event),
                event.actor_id.proc_id == normalized_proc(orig),
                found matches Some(rk) ==> rk == ri && ri < n,
                found is None ==> forall|w: int| 0 <= w < u
                    ==> (#[trigger] old(self).ranks@[w]).proc_id != normalized_proc(orig),
            decreases n - u,
        {
            if self.ranks[u].proc_id == event.actor_id.proc_id {
                if found.is_none() {
                    proof {
                        lemma_first_rank_for(old(self).ranks@, normalized_proc(orig), u as int);
                    }
                    found = Some(u);
                }
            }
            u = u + 1;
        }
        proof {
            if found is None {
                lemma_first_rank_for(old(self).ranks@, normalized_proc(orig), n as int);
            }
        }
        match found {
            Some(rank) => {
                let reason = describe_event(&event);
                proof {
                    assert(reason@ == normalized_name(orig) + status_suffix(orig.actor_status));
                }
                Some(ProcEvent::Crashed(rank, reason))
            }
            None => None,
        }
    }

    /// Takes the events delivered so far to the first subscriber registered
    /// under `name`: the result is exactly that subscriber's queue, which is
    /// left empty; everything else is untouched. An unknown name takes
    /// nothing.
    #[verifier::loop_isolation(false)]
    pub fn take_actor_events(&mut self, name: &str) -> (r: Vec<ActorSupervisionEvent>)
        ensures
            final(self).ranks@ == old(self).ranks@,
            final(self).alloc == old(self).alloc,
            ({
                let oi = first_outbox_for(old(self).outboxes@, name@);
                &&& final(self).outboxes@.len() == old(self).outboxes@.len()
                &&& forall|u: int| 0 <= u < old(self).outboxes@.len() && u != oi
                    ==> #[trigger] final(self).outboxes@[u] == old(self).outboxes@[u]
                &&& if oi < old(self).outboxes@.len() {
                    &&& r@ == old(self).outboxes@[oi].1@
                    &&& final(self).outboxes@[oi].0@ == old(self).outboxes@[oi].0@
                    &&& final(self).outboxes@[oi].1@.len() == 0
                } else {
                    &&& r@.len() == 0
                    &&& final(self).outboxes@ == old(self).outboxes@
                }
            }),
    {
        let ghost oi = first_outbox_for(old(self).outboxes@, name@);
        let needle: String = name.to_owned();
        let m = self.outboxes.len();
        let mut t: usize = 0;
        while t < m
            invariant
                t <= m,
                m == self.outboxes@.len() == old(self).outboxes@.len(),
                self.ranks@ == old(self).ranks@,
                self.alloc == old(self).alloc,
                self.outboxes@ == old(self).outboxes@,
                needle@ == name@,
                forall|u: int| 0 <= u < t ==> (#[trigger] old(self).outboxes@[u]).0@ != name@,
            decreases m - t,
        {
            let matches_name = self.outboxes[t].0 == needle;
            if matches_name {
                proof {
                    lemma_first_outbox_for(old(self).outboxes@, name@, t as int);
                }
                let label = self.outboxes[t].0.clone();
                let entry = self.outboxes.remove(t);
                self.outboxes.insert(t, (label, Vec::new()));
                proof {
                    assert forall|u: int| 0 <= u < old(self).outboxes@.len() && u != oi implies
                        #[trigger] self.outboxes@[u] == old(self).outboxes@[u] by {}
                }
                return entry.1;
            }
            t = t + 1;
        }
        proof {
            lemma_first_outbox_for(old(self).outboxes@, name@, m as int);
        }
        Vec::new()
    }

    /// Hands the underlying allocation back.
    pub fn into_alloc(self) -> (r: SimAlloc)
        ensures
            r == self.alloc,
    {
        self.alloc
    }
}

/// A human-readable account of a supervision event: the actor's name and,
/// for a failure, `": "` and its message.
#[verifier::loop_isolation(false)]
pub fn describe_event(event: &ActorSupervisionEvent) -> (r: String)
    ensures
        r@ == event_text(*event),
{
    let mut out: Vec<char> = chars_of(event.actor_id.name.as_str());
    match &event.actor_status {
        ActorStatus::Failed(msg) => {
            let msg_chars = chars_of(msg.as_str());
            out.push(':');
            out.push(' ');
            let ghost head = out@;
            let k = msg_chars.len();
            let mut i: usize = 0;
            while i < k
                invariant
                    i <= k,
                    k == msg_chars@.len(),
                    out@ == head + msg_chars@.take(i as int),
                decreases k - i,
            {
                out.push(msg_chars[i]);
                i = i + 1;
                proof {
                    assert(out@ =~= head + msg_chars@.take(i as int));
                }
            }
            proof {
                assert(out@ =~= event.actor_id.name@ + (seq![':', ' '] + msg@));
            }
        }
        ActorStatus::Running => {
            proof {
                assert(out@ =~= event_text(*event));
            }
        }
        ActorStatus::Stopped => {
            proof {
                assert(out@ =~= event_text(*event));
            }
        }
    }
    proof {
        assert(out@ =~= event_text(*event));
    }
    string_of(&out)
}

impl SupervisionEventState {
    /// The name of this state.
    pub fn as_str(&self) -> (r: &'static str) {
        match self {
            SupervisionEventState::SupervisionEventForward => "SupervisionEventForward",
            SupervisionEventState::SupervisionEventForwardFailed => "SupervisionEventForwardFailed",
            SupervisionEventState::SupervisionEventReceived => "SupervisionEventReceived",
            SupervisionEventState::SupervisionEventTransmitFailed => "SupervisionEventTransmitFailed",
        }
    }
}

impl ProcEvent {
    /// A human-readable account of this event.
    pub fn to_string(&self) -> (r: String) {
        match self {
            ProcEvent::Stopped(rank, _) => {
                let mut out = chars_of("proc stopped at rank ");
                let ds = crate::text::decimal_chars(*rank);
                let k = ds.len();
                let mut i: usize = 0;
                while i < k
                    invariant
                        i <= k,
                        k == ds@.len(),
                    decreases k - i,
                {
                    out.push(ds[i]);
                    i = i + 1;
                }
                string_of(&out)
            }
            ProcEvent::Crashed(rank, reason) => {
                let mut out = chars_of("proc crashed at rank ");
                let ds = crate::text::decimal_chars(*rank);
                let k = ds.len();
                let mut i: usize = 0;
                while i < k
                    invariant
                        i <= k,
                        k == ds@.len(),
                    decreases k - i,
                {
                    out.push(ds[i]);
                    i = i + 1;
                }
                out.push(':');
                out.push(' ');
                let rs = chars_of(reason.as_str());
                let j = rs.len();
                let mut w: usize = 0;
                while w < j
                    invariant
                        w <= j,
                        j == rs@.len(),
                    decreases j - w,
                {
                    out.push(rs[w]);
                    w = w + 1;
                }
                string_of(&out)
            }
        }
    }
}

} // verus!
