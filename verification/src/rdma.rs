//! The RDMA queue-pair ring protocol: work-queue-entry submission, doorbell
//! rings, and completion polling over fixed-size send and receive rings.
//!
//! Ring indices are monotonically non-decreasing 64-bit counters; the
//! hardware slot of an index is `idx % wqe_cnt`. The protocol invariant —
//! `wqe_idx >= db_idx >= cq_idx` and `wqe_idx - db_idx <= wqe_cnt` on both
//! queues — holds at every step; every transition here preserves it.
//!
//! The hardware itself (descriptor memory, the write-combined doorbell page,
//! completion queues) lives outside this model: a caller performs the
//! returned writes and feeds back what the hardware reported.

use vstd::prelude::*;

verus! {

/// Which completion queue a poll targets.
#[derive(Debug, Clone, Copy, PartialEq, Eq, Structural)]
pub enum PollTarget {
    Send,
    Recv,
}

/// What the hardware reported for one completion-queue slot.
#[derive(Debug, Clone, Copy, PartialEq, Eq, Structural)]
pub enum CqePollResult {
    /// A completion is ready at the polled index.
    Ready,
    /// No completion yet.
    NotReady,
    /// The completion queue reported an error.
    Error,
}

/// Errors surfaced by the ring protocol.
#[derive(Debug, Clone, PartialEq, Eq)]
pub enum RdmaError {
    /// More entries were posted than the ring can hold before ringing.
    WqeOverflow,
    /// Polling the completion queue reported an error.
    CompletionError,
    /// The hardware reported a completion for work that was never rung.
    ProtocolViolation,
}

/// The kind of work a request describes.
#[derive(Debug, Clone, Copy, PartialEq, Eq, Structural)]
pub enum RdmaOperation {
    /// RDMA write of local memory into remote memory.
    Put,
    /// RDMA read of remote memory into local memory.
    Get,
    /// RDMA write with immediate, consuming a posted receive on the peer.
    PutWithImmediate,
    /// A posted receive.
    Receive,
}

/// A registered memory region: address, length, and its local and remote
/// protection keys.
#[derive(Debug, Clone, Copy, PartialEq, Eq, Structural)]
pub struct RdmaBuffer {
    pub addr: u64,
    pub size: usize,
    pub lkey: u32,
    pub rkey: u32,
}

/// A work-request descriptor, ready to be written into a send-queue slot.
#[derive(Debug, Clone, Copy, PartialEq, Eq, Structural)]
pub struct WorkRequest {
    pub laddr: u64,
    pub length: usize,
    pub lkey: u32,
    pub wr_id: u64,
    pub op: RdmaOperation,
    pub raddr: u64,
    pub rkey: u32,
    pub signaled: bool,
}

/// The ring-counter state of one queue pair: a send queue and a receive
/// queue, each with a fixed slot count and byte stride.
#[derive(Debug, Clone, PartialEq, Eq)]
pub struct RdmaQueuePair {
    pub send_wqe_idx: u64,
    pub send_db_idx: u64,
    pub send_cq_idx: u64,
    pub recv_wqe_idx: u64,
    pub recv_db_idx: u64,
    pub recv_cq_idx: u64,
    pub sq_wqe_cnt: u64,
    pub rq_wqe_cnt: u64,
    pub sq_stride: u64,
}

impl RdmaQueuePair {
    /// The ring discipline: indices ordered `wqe >= db >= cq` on both
    /// queues, no more unrung entries than the ring holds, and geometry
    /// whose slot offsets fit.
    pub open spec fn wf(&self) -> bool {
        &&& self.sq_wqe_cnt >= 1
        &&& self.rq_wqe_cnt >= 1
        &&& self.send_cq_idx <= self.send_db_idx <= self.send_wqe_idx
        &&& self.send_wqe_idx - self.send_db_idx <= self.sq_wqe_cnt
        &&& self.recv_cq_idx <= self.recv_db_idx <= self.recv_wqe_idx
        &&& self.recv_wqe_idx - self.recv_db_idx <= self.rq_wqe_cnt
        &&& self.sq_wqe_cnt * self.sq_stride <= u64::MAX
    }

    /// A fresh queue pair: all counters at zero.
    pub fn new(sq_wqe_cnt: u64, rq_wqe_cnt: u64, sq_stride: u64) -> (r: RdmaQueuePair)
        requires
            sq_wqe_cnt >= 1,
            rq_wqe_cnt >= 1,
            sq_wqe_cnt * sq_stride <= u64::MAX,
        ensures
            r.wf(),
            r.send_wqe_idx == 0 && r.send_db_idx == 0 && r.send_cq_idx == 0,
            r.recv_wqe_idx == 0 && r.recv_db_idx == 0 && r.recv_cq_idx == 0,
            r.sq_wqe_cnt == sq_wqe_cnt && r.rq_wqe_cnt == rq_wqe_cnt && r.sq_stride == sq_stride,
    {
        RdmaQueuePair {
            send_wqe_idx: 0,
            send_db_idx: 0,
            send_cq_idx: 0,
            recv_wqe_idx: 0,
            recv_db_idx: 0,
            recv_cq_idx: 0,
            sq_wqe_cnt,
            rq_wqe_cnt,
            sq_stride,
        }
    }

    /// The send-queue slot an index occupies.
    pub open spec fn spec_send_slot(&self, idx: int) -> int {
        idx % (self.sq_wqe_cnt as int)
    }

    /// Builds the descriptor for an operation from `local` toward `remote`.
    pub fn work_request(&self, op: RdmaOperation, local: &RdmaBuffer, remote: &RdmaBuffer) -> (r: WorkRequest)
        ensures
            r.laddr == local.addr,
            r.length == local.size,
            r.lkey == local.lkey,
            r.raddr == remote.addr,
            r.rkey == remote.rkey,
            r.op == op,
            r.signaled,
            r.wr_id == self.send_wqe_idx,
    {
        WorkRequest {
            laddr: local.addr,
            length: local.size,
            lkey: local.lkey,
            wr_id: self.send_wqe_idx,
            op,
            raddr: remote.addr,
            rkey: remote.rkey,
            signaled: true,
        }
    }

    /// Posts one entry on the send queue: returns the descriptor and the
    /// slot to write it to, advancing the producer index. Requires room on
    /// the ring, which is what keeps the protocol invariant.
    pub fn enqueue_send(&mut self, op: RdmaOperation, local: &RdmaBuffer, remote: &RdmaBuffer)
        -> (r: (WorkRequest, u64))
        requires
            old(self).wf(),
            old(self).send_wqe_idx - old(self).send_db_idx < old(self).sq_wqe_cnt,
            old(self).send_wqe_idx < u64::MAX,
        ensures
            final(self).wf(),
            final(self).send_wqe_idx == old(self).send_wqe_idx + 1,
            final(self).send_db_idx == old(self).send_db_idx,
            final(self).send_cq_idx == old(self).send_cq_idx,
            final(self).recv_wqe_idx == old(self).recv_wqe_idx,
            final(self).recv_db_idx == old(self).recv_db_idx,
            final(self).recv_cq_idx == old(self).recv_cq_idx,
            final(self).sq_wqe_cnt == old(self).sq_wqe_cnt,
            final(self).rq_wqe_cnt == old(self).rq_wqe_cnt,
            final(self).sq_stride == old(self).sq_stride,
            r.1 == old(self).spec_send_slot(old(self).send_wqe_idx as int),
            r.0.op == op && r.0.laddr == local.addr && r.0.raddr == remote.addr,
    {
        let wr = self.work_request(op, local, remote);
        let slot = self.send_wqe_idx % self.sq_wqe_cnt;
        self.send_wqe_idx = self.send_wqe_idx + 1;
        (wr, slot)
    }

    /// Posts a put (RDMA write) of `local` into `remote` on the send queue.
    pub fn enqueue_put(&mut self, local: &RdmaBuffer, remote: &RdmaBuffer) -> (r: (WorkRequest, u64))
        requires
            old(self).wf(),
            old(self).send_wqe_idx - old(self).send_db_idx < old(self).sq_wqe_cnt,
            old(self).send_wqe_idx < u64::MAX,
        ensures
            final(self).wf(),
            final(self).send_wqe_idx == old(self).send_wqe_idx + 1,
            final(self).send_db_idx == old(self).send_db_idx,
            final(self).send_cq_idx == old(self).send_cq_idx,
            final(self).sq_wqe_cnt == old(self).sq_wqe_cnt,
            final(self).sq_stride == old(self).sq_stride,
            final(self).recv_wqe_idx == old(self).recv_wqe_idx,
            final(self).recv_db_idx == old(self).recv_db_idx,
            final(self).recv_cq_idx == old(self).recv_cq_idx,
            final(self).rq_wqe_cnt == old(self).rq_wqe_cnt,
            r.0.op == RdmaOperation::Put,
            r.1 == old(self).spec_send_slot(old(self).send_wqe_idx as int),
    {
        self.enqueue_send(RdmaOperation::Put, local, remote)
    }

    /// Posts a get (RDMA read) of `remote` into `local` on the send queue.
    pub fn enqueue_get(&mut self, local: &RdmaBuffer, remote: &RdmaBuffer) -> (r: (WorkRequest, u64))
        requires
            old(self).wf(),
            old(self).send_wqe_idx - old(self).send_db_idx < old(self).sq_wqe_cnt,
            old(self).send_wqe_idx < u64::MAX,
        ensures
            final(self).wf(),
            final(self).send_wqe_idx == old(self).send_wqe_idx + 1,
            final(self).send_db_idx == old(self).send_db_idx,
            final(self).send_cq_idx == old(self).send_cq_idx,
            final(self).sq_wqe_cnt == old(self).sq_wqe_cnt,
            final(self).sq_stride == old(self).sq_stride,
            r.0.op == RdmaOperation::Get,
    {
        self.enqueue_send(RdmaOperation::Get, local, remote)
    }

    /// Posts a receive: advances the receive producer and, as on the
    /// device path, its doorbell index with it.
    pub fn recv(&mut self, local: &RdmaBuffer, remote: &RdmaBuffer) -> (r: WorkRequest)
        requires
            old(self).wf(),
            old(self).recv_wqe_idx - old(self).recv_db_idx < old(self).rq_wqe_cnt,
            old(self).recv_wqe_idx < u64::MAX,
            old(self).recv_db_idx < u64::MAX,
        ensures
            final(self).wf(),
            final(self).recv_wqe_idx == old(self).recv_wqe_idx + 1,
            final(self).recv_db_idx == old(self).recv_db_idx + 1,
            final(self).recv_cq_idx == old(self).recv_cq_idx,
            final(self).send_wqe_idx == old(self).send_wqe_idx,
            final(self).send_db_idx == old(self).send_db_idx,
            final(self).send_cq_idx == old(self).send_cq_idx,
            final(self).sq_wqe_cnt == old(self).sq_wqe_cnt,
            final(self).rq_wqe_cnt == old(self).rq_wqe_cnt,
            final(self).sq_stride == old(self).sq_stride,
            r.op == RdmaOperation::Receive,
            r.laddr == local.addr && r.raddr == remote.addr,
    {
        let wr = self.work_request(RdmaOperation::Receive, local, remote);
        self.recv_wqe_idx = self.recv_wqe_idx + 1;
        self.recv_db_idx = self.recv_db_idx + 1;
        wr
    }

    /// Rings the send doorbell: reports one byte offset into the send queue
    /// for each posted-but-unrung entry, in posting order, and advances the
    /// doorbell index up to the producer index. Fails with `WqeOverflow` iff
    /// more entries are outstanding than the ring holds.
    #[verifier::loop_isolation(false)]
    pub fn ring_doorbell(&mut self) -> (r: Result<Vec<u64>, RdmaError>)
        requires
            old(self).wf(),
        ensures
            final(self).wf(),
            match r {
                Ok(offsets) => {
                    &&& final(self).send_db_idx == old(self).send_wqe_idx
                    &&& final(self).send_wqe_idx == old(self).send_wqe_idx
                    &&& final(self).send_cq_idx == old(self).send_cq_idx
                    &&& final(self).recv_wqe_idx == old(self).recv_wqe_idx
                    &&& final(self).recv_db_idx == old(self).recv_db_idx
                    &&& final(self).recv_cq_idx == old(self).recv_cq_idx
                    &&& final(self).sq_wqe_cnt == old(self).sq_wqe_cnt
                    &&& final(self).rq_wqe_cnt == old(self).rq_wqe_cnt
                    &&& final(self).sq_stride == old(self).sq_stride
                    &&& offsets@.len() == old(self).send_wqe_idx - old(self).send_db_idx
                    &&& forall|k: int| 0 <= k < offsets@.len()
                        ==> #[trigger] offsets@[k]
                            == old(self).spec_send_slot(old(self).send_db_idx + k)
                                * old(self).sq_stride
                },
                Err(RdmaError::WqeOverflow) => {
                    &&& old(self).send_wqe_idx - old(self).send_db_idx > old(self).sq_wqe_cnt
                    &&& *final(self) == *old(self)
                },
                Err(_) => false,
            },
    {
        if self.sq_wqe_cnt < self.send_wqe_idx - self.send_db_idx {
            return Err(RdmaError::WqeOverflow);
        }
        let mut offsets: Vec<u64> = Vec::new();
        let ghost start = self.send_db_idx as int;
        while self.send_db_idx < self.send_wqe_idx
            invariant
                old(self).send_db_idx <= self.send_db_idx <= self.send_wqe_idx,
                self.send_wqe_idx == old(self).send_wqe_idx,
                self.send_cq_idx == old(self).send_cq_idx,
                self.recv_wqe_idx == old(self).recv_wqe_idx,
                self.recv_db_idx == old(self).recv_db_idx,
                self.recv_cq_idx == old(self).recv_cq_idx,
                self.sq_wqe_cnt == old(self).sq_wqe_cnt,
                self.rq_wqe_cnt == old(self).rq_wqe_cnt,
                self.sq_stride == old(self).sq_stride,
                offsets@.len() == self.send_db_idx - old(self).send_db_idx,
                forall|k: int| 0 <= k < offsets@.len()
                    ==> #[trigger] offsets@[k]
                        == (old(self).send_db_idx + k) % (self.sq_wqe_cnt as int)
                            * old(self).sq_stride,
            decreases self.send_wqe_idx - self.send_db_idx,
        {
            let slot = self.send_db_idx % self.sq_wqe_cnt;
            proof {
                assert(slot < self.sq_wqe_cnt);
                assert(slot * self.sq_stride <= (self.sq_wqe_cnt - 1) * self.sq_stride
                    <= u64::MAX) by (nonlinear_arith)
                    requires
                        slot < self.sq_wqe_cnt,
                        self.sq_wqe_cnt >= 1,
                        self.sq_stride >= 0,
                        self.sq_wqe_cnt * self.sq_stride <= u64::MAX;
            }
            offsets.push(slot * self.sq_stride);
            self.send_db_idx = self.send_db_idx + 1;
        }
        Ok(offsets)
    }

    /// Applies what the hardware reported for the completion queue of
    /// `target`: a ready completion advances that consumer index by one,
    /// no completion leaves the state unchanged, and a hardware error — or a
    /// completion reported for work never rung — surfaces as an error.
    pub fn poll_completion(&mut self, target: PollTarget, outcome: CqePollResult)
        -> (r: Result<bool, RdmaError>)
        requires
            old(self).wf(),
        ensures
            final(self).wf(),
            final(self).send_wqe_idx == old(self).send_wqe_idx,
            final(self).send_db_idx == old(self).send_db_idx,
            final(self).recv_wqe_idx == old(self).recv_wqe_idx,
            final(self).recv_db_idx == old(self).recv_db_idx,
            final(self).sq_wqe_cnt == old(self).sq_wqe_cnt,
            final(self).rq_wqe_cnt == old(self).rq_wqe_cnt,
            final(self).sq_stride == old(self).sq_stride,
            match r {
                Ok(true) => {
                    &&& outcome == CqePollResult::Ready
                    &&& if target == PollTarget::Send {
                        old(self).send_cq_idx < old(self).send_db_idx
                            && final(self).send_cq_idx == old(self).send_cq_idx + 1
                            && final(self).recv_cq_idx == old(self).recv_cq_idx
                    } else {
                        old(self).recv_cq_idx < old(self).recv_db_idx
                            && final(self).recv_cq_idx == old(self).recv_cq_idx + 1
                            && final(self).send_cq_idx == old(self).send_cq_idx
                    }
                },
                Ok(false) => {
                    &&& outcome == CqePollResult::NotReady
                    &&& final(self).send_cq_idx == old(self).send_cq_idx
                    &&& final(self).recv_cq_idx == old(self).recv_cq_idx
                },
                Err(RdmaError::CompletionError) => {
                    &&& outcome == CqePollResult::Error
                    &&& final(self).send_cq_idx == old(self).send_cq_idx
                    &&& final(self).recv_cq_idx == old(self).recv_cq_idx
                },
                Err(RdmaError::ProtocolViolation) => {
                    &&& outcome == CqePollResult::Ready
                    &&& if target == PollTarget::Send {
                        old(self).send_cq_idx == old(self).send_db_idx
                    } else {
                        old(self).recv_cq_idx == old(self).recv_db_idx
                    }
                    &&& final(self).send_cq_idx == old(self).send_cq_idx
                    &&& final(self).recv_cq_idx == old(self).recv_cq_idx
                },
                Err(_) => false,
            },
    {
        match outcome {
            CqePollResult::Ready => {
                match target {
                    PollTarget::Send => {
                        if self.send_cq_idx < self.send_db_idx {
                            self.send_cq_idx = self.send_cq_idx + 1;
                            Ok(true)
                        } else {
                            Err(RdmaError::ProtocolViolation)
                        }
                    }
                    PollTarget::Recv => {
                        if self.recv_cq_idx < self.recv_db_idx {
                            self.recv_cq_idx = self.recv_cq_idx + 1;
                            Ok(true)
                        } else {
                            Err(RdmaError::ProtocolViolation)
                        }
                    }
                }
            }
            CqePollResult::NotReady => Ok(false),
            CqePollResult::Error => Err(RdmaError::CompletionError),
        }
    }

    /// A put with its doorbell ring: posts the write and rings, returning
    /// the descriptor, its slot, and the rung offsets.
    pub fn put(&mut self, local: &RdmaBuffer, remote: &RdmaBuffer)
        -> (r: Result<(WorkRequest, u64, Vec<u64>), RdmaError>)
        requires
            old(self).wf(),
            old(self).send_wqe_idx - old(self).send_db_idx < old(self).sq_wqe_cnt,
            old(self).send_wqe_idx < u64::MAX,
        ensures
            final(self).wf(),
            r is Ok,
            final(self).send_wqe_idx == old(self).send_wqe_idx + 1,
            final(self).send_db_idx == old(self).send_wqe_idx + 1,
            final(self).send_cq_idx == old(self).send_cq_idx,
            final(self).sq_wqe_cnt == old(self).sq_wqe_cnt,
            final(self).sq_stride == old(self).sq_stride,
            r->Ok_0.0.op == RdmaOperation::Put,
    {
        let (wr, slot) = self.enqueue_put(local, remote);
        match self.ring_doorbell() {
            Ok(offsets) => Ok((wr, slot, offsets)),
            Err(_) => {
                proof {
                    assert(false);
                }
                unreached()
            }
        }
    }

    /// A get with its doorbell ring.
    pub fn get(&mut self, local: &RdmaBuffer, remote: &RdmaBuffer)
        -> (r: Result<(WorkRequest, u64, Vec<u64>), RdmaError>)
        requires
            old(self).wf(),
            old(self).send_wqe_idx - old(self).send_db_idx < old(self).sq_wqe_cnt,
            old(self).send_wqe_idx < u64::MAX,
        ensures
            final(self).wf(),
            r is Ok,
            final(self).send_wqe_idx == old(self).send_wqe_idx + 1,
            final(self).send_db_idx == old(self).send_wqe_idx + 1,
            final(self).send_cq_idx == old(self).send_cq_idx,
            final(self).sq_wqe_cnt == old(self).sq_wqe_cnt,
            final(self).sq_stride == old(self).sq_stride,
            r->Ok_0.0.op == RdmaOperation::Get,
    {
        let (wr, slot) = self.enqueue_get(local, remote);
        match self.ring_doorbell() {
            Ok(offsets) => Ok((wr, slot, offsets)),
            Err(_) => {
                proof {
                    assert(false);
                }
                unreached()
            }
        }
    }

    /// A write-with-immediate with its doorbell ring; the peer must have a
    /// posted receive for the immediate to land on.
    pub fn put_with_recv(&mut self, local: &RdmaBuffer, remote: &RdmaBuffer)
        -> (r: Result<(WorkRequest, u64, Vec<u64>), RdmaError>)
        requires
            old(self).wf(),
            old(self).send_wqe_idx - old(self).send_db_idx < old(self).sq_wqe_cnt,
            old(self).send_wqe_idx < u64::MAX,
        ensures
            final(self).wf(),
            r is Ok,
            final(self).send_wqe_idx == old(self).send_wqe_idx + 1,
            final(self).send_db_idx == old(self).send_wqe_idx + 1,
            r->Ok_0.0.op == RdmaOperation::PutWithImmediate,
    {
        let (wr, slot) = self.enqueue_send(RdmaOperation::PutWithImmediate, local, remote);
        match self.ring_doorbell() {
            Ok(offsets) => Ok((wr, slot, offsets)),
            Err(_) => {
                proof {
                    assert(false);
                }
                unreached()
            }
        }
    }
}

/// Whether the CUDA driver probe sequence found a usable device: the driver
/// initialized, reported at least one device, and handed the first device
/// out.
pub fn check_cuda_available(init_ok: bool, device_count: i64, device_ok: bool) -> (r: bool)
    ensures
        r == (init_ok && device_count > 0 && device_ok),
{
    init_ok && device_count > 0 && device_ok
}

} // verus!
