use monarch_mesh::allocator::AllocConstraints;
use monarch_mesh::allocator::AllocSpec;
use monarch_mesh::allocator::ProcId;
use monarch_mesh::allocator::ProcStopReason;
use monarch_mesh::allocator::SimAllocator;
use monarch_mesh::extent::Extent;
use monarch_mesh::proc_mesh::ActorId;
use monarch_mesh::proc_mesh::ActorStatus;
use monarch_mesh::proc_mesh::ActorSupervisionEvent;
use monarch_mesh::proc_mesh::ProcEvent;
use monarch_mesh::proc_mesh::ProcMesh;
use monarch_mesh::proc_mesh::StopActorResult;
use monarch_mesh::proc_mesh::SupervisionSink;

fn spec(dims: &[(&str, usize)]) -> AllocSpec {
    let labels: Vec<String> = dims.iter().map(|(l, _)| l.to_string()).collect();
    let sizes: Vec<usize> = dims.iter().map(|(_, s)| *s).collect();
    AllocSpec {
        extent: Extent::new(labels, sizes).unwrap(),
        constraints: AllocConstraints { match_labels: Vec::new() },
        proc_name: None,
    }
}

#[test]
fn test_basic() {
    let mut allocator = SimAllocator::new();
    let alloc = allocator.allocate(spec(&[("replica", 4)]));
    let name = alloc.name();
    let mut sink = SupervisionSink::new();
    let mesh = ProcMesh::allocate(alloc, &mut sink).unwrap();

    assert_eq!(mesh.get(0).unwrap().world_name(), name);
}

#[test]
fn test_propagate_lifecycle_events() {
    let mut allocator = SimAllocator::new();
    let alloc = allocator.allocate(spec(&[("replica", 4)]));
    let mut sink = SupervisionSink::new();
    let mut mesh = ProcMesh::allocate(alloc, &mut sink).unwrap();
    let mut events = mesh.events().unwrap();

    // The chaos monkey and the stopper act on the underlying allocation.
    {
        let alloc = &mut events.alloc;
        alloc.chaos_monkey(1, ProcStopReason::Killed(1, false));
    }
    assert_eq!(
        events.next().unwrap(),
        ProcEvent::Stopped(1, ProcStopReason::Killed(1, false))
    );

    {
        let alloc = &mut events.alloc;
        alloc.stopper();
    }
    for _ in 0..3 {
        match events.next().unwrap() {
            ProcEvent::Stopped(_, ProcStopReason::Stopped) => {}
            other => panic!("unexpected event: {other:?}"),
        }
    }
    assert!(events.next().is_none());
}

#[test]
fn test_supervision_failure() {
    // Actor failures are propagated to the proc, normalized through the
    // supervision path, and delivered to the registered actor mesh.
    let mut allocator = SimAllocator::new();
    let alloc = allocator.allocate(spec(&[("replica", 2)]));
    let world = alloc.name();
    let mut sink = SupervisionSink::new();
    let mut mesh = ProcMesh::allocate(alloc, &mut sink).unwrap();

    let actors = mesh.spawn("failing", &Vec::new()).unwrap();
    assert_eq!(actors.name, "failing");
    assert_eq!(actors.ranks.len(), 2);

    let mut events = mesh.events().unwrap();

    // A failure reported by the actor at rank 0, carrying the actor-mesh
    // header a cast through the comm tree would attach.
    let raw = ActorSupervisionEvent {
        actor_id: ActorId {
            proc_id: ProcId { world, rank: 0 },
            name: "comm".to_string(),
            pid: 0,
        },
        actor_status: ActorStatus::Failed("failmonkey".to_string()),
        cast_mesh_id: Some((world, "failing".to_string())),
        caused_by: None,
    };
    match events.on_supervision_event(raw) {
        Some(ProcEvent::Crashed(rank, reason)) => {
            assert_eq!(rank, 0);
            assert!(reason.contains("failmonkey"));
        }
        other => panic!("unexpected event: {other:?}"),
    }

    // The registered subscriber received the normalized event.
    let delivered = events.take_actor_events("failing");
    assert_eq!(delivered.len(), 1);
    assert_eq!(delivered[0].actor_id.name, "failing");
    assert_eq!(delivered[0].actor_id.proc_id.rank, 0);
    assert!(matches!(delivered[0].actor_status, ActorStatus::Failed(_)));

    // An event whose proc is unknown to the ranks table is dropped.
    let foreign = ActorSupervisionEvent {
        actor_id: ActorId {
            proc_id: ProcId { world: world + 1000, rank: 7 },
            name: "failing".to_string(),
            pid: 0,
        },
        actor_status: ActorStatus::Failed("lost".to_string()),
        cast_mesh_id: None,
        caused_by: None,
    };
    assert!(events.on_supervision_event(foreign).is_none());
}

#[test]
fn duplicate_spawn_fails() {
    let mut allocator = SimAllocator::new();
    let alloc = allocator.allocate(spec(&[("replica", 1)]));
    let mut sink = SupervisionSink::new();
    let mut mesh = ProcMesh::allocate(alloc, &mut sink).unwrap();

    mesh.spawn("dup", &Vec::new()).unwrap();
    let result = mesh.spawn("dup", &Vec::new());
    assert!(result.is_err());
}

#[test]
fn stop_actor_by_name_is_idempotent() {
    let mut allocator = SimAllocator::new();
    let alloc = allocator.allocate(spec(&[("replica", 2)]));
    let mut sink = SupervisionSink::new();
    let mut mesh = ProcMesh::allocate(alloc, &mut sink).unwrap();

    mesh.spawn("worker", &Vec::new()).unwrap();
    let first = mesh.stop_actor_by_name("worker");
    assert_eq!(first, vec![StopActorResult::Success, StopActorResult::Success]);
    let second = mesh.stop_actor_by_name("worker");
    assert_eq!(second, vec![StopActorResult::NotFound, StopActorResult::NotFound]);
}

#[test]
fn events_can_be_taken_once() {
    let mut allocator = SimAllocator::new();
    let alloc = allocator.allocate(spec(&[("replica", 2)]));
    let mut sink = SupervisionSink::new();
    let mut mesh = ProcMesh::allocate(alloc, &mut sink).unwrap();

    assert!(mesh.events().is_some());
    assert!(mesh.events().is_none());
}

#[test]
fn last_sink_wins() {
    let mut sink = SupervisionSink::new();
    assert_eq!(sink.set(7), None);
    // The replacement returns the previous handle to the caller.
    assert_eq!(sink.set(8), Some(7));
    assert_eq!(sink.get(), Some(8));
}

#[test]
fn alloc_initialize_orders_slots() {
    let mut allocator = SimAllocator::new();
    let mut alloc = allocator.allocate(spec(&[("replica", 3)]));
    let name = alloc.name();
    let procs = alloc.initialize().unwrap();
    assert_eq!(procs.len(), 3);
    for (rank, proc) in procs.iter().enumerate() {
        assert_eq!(proc.create_key, rank as u64);
        assert_eq!(proc.proc_id.world, name);
        assert_eq!(proc.proc_id.rank, rank);
    }
}

#[test]
fn stop_notifies_subscribers() {
    // Before a stop event is yielded, every registered actor mesh hears that
    // the proc's actors failed.
    let mut allocator = SimAllocator::new();
    let alloc = allocator.allocate(spec(&[("replica", 2)]));
    let world = alloc.name();
    let mut sink = SupervisionSink::new();
    let mut mesh = ProcMesh::allocate(alloc, &mut sink).unwrap();
    mesh.spawn("watchers", &Vec::new()).unwrap();
    let mut events = mesh.events().unwrap();

    {
        let alloc = &mut events.alloc;
        alloc.chaos_monkey(0, ProcStopReason::Killed(9, false));
    }
    assert_eq!(
        events.next().unwrap(),
        ProcEvent::Stopped(0, ProcStopReason::Killed(9, false))
    );

    let delivered = events.take_actor_events("watchers");
    assert_eq!(delivered.len(), 1);
    assert_eq!(delivered[0].actor_id.name, "any");
    assert_eq!(delivered[0].actor_id.proc_id, ProcId { world, rank: 0 });
    assert!(matches!(delivered[0].actor_status, ActorStatus::Failed(_)));
    assert!(delivered[0].cast_mesh_id.is_none());

    // Taking again yields nothing: the queue was emptied.
    assert!(events.take_actor_events("watchers").is_empty());
}
