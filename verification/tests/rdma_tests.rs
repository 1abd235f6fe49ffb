use monarch_mesh::rdma::check_cuda_available;
use monarch_mesh::rdma::CqePollResult;
use monarch_mesh::rdma::PollTarget;
use monarch_mesh::rdma::RdmaBuffer;
use monarch_mesh::rdma::RdmaError;
use monarch_mesh::rdma::RdmaQueuePair;

fn buffer(addr: u64, size: usize) -> RdmaBuffer {
    RdmaBuffer { addr, size, lkey: 1, rkey: 2 }
}

fn ring_invariant(qp: &RdmaQueuePair) {
    assert!(qp.send_cq_idx <= qp.send_db_idx);
    assert!(qp.send_db_idx <= qp.send_wqe_idx);
    assert!(qp.send_wqe_idx - qp.send_db_idx <= qp.sq_wqe_cnt);
    assert!(qp.recv_cq_idx <= qp.recv_db_idx);
    assert!(qp.recv_db_idx <= qp.recv_wqe_idx);
    assert!(qp.recv_wqe_idx - qp.recv_db_idx <= qp.rq_wqe_cnt);
}

#[test]
fn rdma_ring_wraparound() {
    // A ring of four slots: four puts that fit exactly, each awaited to
    // completion, then a fifth put that wraps around to slot 0.
    let mut qp = RdmaQueuePair::new(4, 4, 64);
    let local = buffer(0x1000, 512 * 1024);
    let remote = buffer(0x2000, 512 * 1024);

    let mut slots = Vec::new();
    for _ in 0..4 {
        let (_wr, slot, offsets) = qp.put(&local, &remote).unwrap();
        slots.push(slot);
        assert_eq!(offsets.len(), 1);
        assert_eq!(offsets[0], slot * 64);
        ring_invariant(&qp);
        assert_eq!(qp.poll_completion(PollTarget::Send, CqePollResult::Ready), Ok(true));
        ring_invariant(&qp);
    }
    assert_eq!(slots, vec![0, 1, 2, 3]);
    assert_eq!(qp.send_wqe_idx, 4);
    assert_eq!(qp.send_db_idx, 4);
    assert_eq!(qp.send_cq_idx, 4);

    // The fifth put wraps to slot 0.
    let full = buffer(0x3000, 1024 * 1024);
    let (_wr, slot, offsets) = qp.put(&full, &remote).unwrap();
    assert_eq!(slot, 0);
    assert_eq!(offsets, vec![0]);
    ring_invariant(&qp);
    assert_eq!(qp.poll_completion(PollTarget::Send, CqePollResult::Ready), Ok(true));
    assert_eq!(qp.send_wqe_idx, 5);
    assert_eq!(qp.send_db_idx, 5);
    assert_eq!(qp.send_cq_idx, 5);
    ring_invariant(&qp);
}

#[test]
fn rdma_enqueue_then_ring() {
    let mut qp = RdmaQueuePair::new(4, 4, 16);
    let local = buffer(0x1000, 64);
    let remote = buffer(0x2000, 64);

    let (_wr1, s1) = qp.enqueue_put(&local, &remote);
    let (_wr2, s2) = qp.enqueue_get(&local, &remote);
    assert_eq!((s1, s2), (0, 1));
    assert_eq!(qp.send_wqe_idx, 2);
    assert_eq!(qp.send_db_idx, 0);
    ring_invariant(&qp);

    let offsets = qp.ring_doorbell().unwrap();
    assert_eq!(offsets, vec![0, 16]);
    assert_eq!(qp.send_db_idx, 2);
    ring_invariant(&qp);
}

#[test]
fn rdma_poll_outcomes() {
    let mut qp = RdmaQueuePair::new(2, 2, 16);
    let local = buffer(0x1000, 64);
    let remote = buffer(0x2000, 64);

    // No completion posted yet: a ready report is a protocol violation.
    assert_eq!(
        qp.poll_completion(PollTarget::Send, CqePollResult::Ready),
        Err(RdmaError::ProtocolViolation)
    );

    qp.put(&local, &remote).unwrap();
    assert_eq!(qp.poll_completion(PollTarget::Send, CqePollResult::NotReady), Ok(false));
    assert_eq!(
        qp.poll_completion(PollTarget::Send, CqePollResult::Error),
        Err(RdmaError::CompletionError)
    );
    assert_eq!(qp.poll_completion(PollTarget::Send, CqePollResult::Ready), Ok(true));
    ring_invariant(&qp);
}

#[test]
fn rdma_recv_and_put_with_recv() {
    let mut peer = RdmaQueuePair::new(4, 4, 16);
    let mut sender = RdmaQueuePair::new(4, 4, 16);
    let local = buffer(0x1000, 64);
    let remote = buffer(0x2000, 64);

    let wr = peer.recv(&local, &remote);
    assert_eq!(wr.op, monarch_mesh::rdma::RdmaOperation::Receive);
    assert_eq!(peer.recv_wqe_idx, 1);
    assert_eq!(peer.recv_db_idx, 1);
    ring_invariant(&peer);

    let (wr, _slot, _offsets) = sender.put_with_recv(&local, &remote).unwrap();
    assert_eq!(wr.op, monarch_mesh::rdma::RdmaOperation::PutWithImmediate);
    ring_invariant(&sender);

    assert_eq!(peer.poll_completion(PollTarget::Recv, CqePollResult::Ready), Ok(true));
    assert_eq!(sender.poll_completion(PollTarget::Send, CqePollResult::Ready), Ok(true));
    ring_invariant(&peer);
    ring_invariant(&sender);
}

#[test]
fn cuda_probe_decision() {
    assert!(check_cuda_available(true, 1, true));
    assert!(check_cuda_available(true, 8, true));
    assert!(!check_cuda_available(false, 1, true));
    assert!(!check_cuda_available(true, 0, true));
    assert!(!check_cuda_available(true, -1, true));
    assert!(!check_cuda_available(true, 1, false));
}
