//! Collective operations: barrier, broadcast, gather, scatter, all-gather,
//! all-to-all, and the non-blocking barrier.
//!
//! Every collective is invoked by each participant of a topology.  A
//! participant's side of a collective is a call handed to the runtime: which
//! buffer counts, which root, whether a root-only buffer is present.  The
//! functions here turn buffers and a topology into that call; the data
//! movement the runtime then performs is specified by the exchange functions
//! and the laws proved about them.

use vstd::prelude::*;

verus! {

use crate::Count;
use crate::buffer::{Buffer, BufferMut, Collection};

/// The library's view of the topology collaborator: a fixed set of
/// participants and the calling participant's place in it.
pub trait Communicator {
    /// Number of participants of the topology.
    spec fn spec_size(&self) -> int;

    /// The calling participant's rank.
    spec fn spec_rank(&self) -> int;

    /// A topology always has a participant, and the rank lies within it.
    proof fn lemma_topology(&self)
        ensures
            1 <= self.spec_size(),
            0 <= self.spec_rank() < self.spec_size(),
    ;

    /// Number of participants of the topology.
    fn size(&self) -> (s: Count)
        ensures
            s as int == self.spec_size(),
    ;

    /// The calling participant's rank.
    fn rank(&self) -> (r: Count)
        ensures
            r as int == self.spec_rank(),
    ;
}

/// The participant's handle on a communicator: how many participants take
/// part and which rank the calling participant holds.
pub struct Topology {
    size: Count,
    rank: Count,
}

impl Topology {
    /// What every topology value upholds.
    #[verifier::type_invariant]
    closed spec fn inv(&self) -> bool {
        1 <= self.size && 0 <= self.rank < self.size
    }

    /// The view of a communicator of `size` participants held by the
    /// participant of rank `rank`.
    pub fn new(size: Count, rank: Count) -> (t: Topology)
        requires
            1 <= size,
            0 <= rank < size,
        ensures
            t.spec_size() == size as int,
            t.spec_rank() == rank as int,
    {
        Topology { size, rank }
    }

    /// The participant of rank `root`, designated as the root of an
    /// asymmetric collective operation on this topology.
    pub fn process_at_rank(&self, root: Count) -> (p: Process)
        requires
            0 <= root < self.spec_size(),
        ensures
            p.spec_size() == self.spec_size(),
            p.spec_rank() == self.spec_rank(),
            p.spec_root_rank() == root as int,
    {
        proof {
            use_type_invariant(self);
        }
        Process { comm: Topology { size: self.size, rank: self.rank }, root }
    }

    /// The calling participant itself, designated as root.
    pub fn this_process(&self) -> (p: Process)
        ensures
            p.spec_size() == self.spec_size(),
            p.spec_rank() == self.spec_rank(),
            p.spec_root_rank() == self.spec_rank(),
    {
        proof {
            use_type_invariant(self);
        }
        self.process_at_rank(self.rank())
    }
}

impl Communicator for Topology {
    closed spec fn spec_size(&self) -> int {
        if self.size < 1 {
            1
        } else {
            self.size as int
        }
    }

    closed spec fn spec_rank(&self) -> int {
        if 0 <= self.rank && (self.rank as int) < self.spec_size() {
            self.rank as int
        } else {
            0
        }
    }

    proof fn lemma_topology(&self) {
    }

    fn size(&self) -> (s: Count) {
        proof {
            use_type_invariant(self);
        }
        self.size
    }

    fn rank(&self) -> (r: Count) {
        proof {
            use_type_invariant(self);
        }
        self.rank
    }
}

/// A designated participant of a topology: the capability to act as the
/// root of an asymmetric collective operation.
pub struct Process {
    comm: Topology,
    root: Count,
}

impl Process {
    /// What every process value upholds.
    #[verifier::type_invariant]
    closed spec fn inv(&self) -> bool {
        self.comm.inv() && 0 <= self.root && (self.root as int) < self.comm.spec_size()
    }
}

impl Communicator for Process {
    closed spec fn spec_size(&self) -> int {
        self.comm.spec_size()
    }

    closed spec fn spec_rank(&self) -> int {
        self.comm.spec_rank()
    }

    proof fn lemma_topology(&self) {
        self.comm.lemma_topology();
    }

    fn size(&self) -> (s: Count) {
        proof {
            use_type_invariant(self);
        }
        self.comm.size()
    }

    fn rank(&self) -> (r: Count) {
        proof {
            use_type_invariant(self);
        }
        self.comm.rank()
    }
}

/// Something that can take the role of root in a collective operation: a
/// topology membership together with a single designated rank.
pub trait Root: Communicator {
    /// Rank of the designated root participant.
    spec fn spec_root_rank(&self) -> int;

    /// The root is a participant of the topology.
    proof fn lemma_root(&self)
        ensures
            0 <= self.spec_root_rank() < self.spec_size(),
    ;

    /// Rank of the designated root participant.
    fn root_rank(&self) -> (r: Count)
        ensures
            r as int == self.spec_root_rank(),
    ;
}

impl Root for Process {
    closed spec fn spec_root_rank(&self) -> int {
        if 0 <= self.root && (self.root as int) < self.spec_size() {
            self.root as int
        } else {
            0
        }
    }

    proof fn lemma_root(&self) {
        self.comm.lemma_topology();
    }

    fn root_rank(&self) -> (r: Count) {
        proof {
            use_type_invariant(self);
        }
        self.root
    }
}

/// What one participant hands the runtime for a broadcast.
pub struct BroadcastCall {
    /// Element count of the participant's buffer.
    pub count: Count,
    /// Rank of the root participant.
    pub root: Count,
}

/// What one participant hands the runtime for a gather.
pub struct GatherCall {
    /// Element count of the participant's send buffer.
    pub send_count: Count,
    /// Whether a receive buffer is present (root only).
    pub recv_present: bool,
    /// Element count received from each participant (zero when absent).
    pub recv_count_each: Count,
    /// Rank of the root participant.
    pub root: Count,
}

/// What one participant hands the runtime for an all-gather.
pub struct AllGatherCall {
    /// Element count of the participant's send buffer.
    pub send_count: Count,
    /// Element count received from each participant.
    pub recv_count_each: Count,
}

/// What one participant hands the runtime for a scatter.
pub struct ScatterCall {
    /// Whether a send buffer is present (root only).
    pub send_present: bool,
    /// Element count sent to each participant (zero when absent).
    pub send_count_each: Count,
    /// Element count of the participant's receive buffer.
    pub recv_count: Count,
    /// Rank of the root participant.
    pub root: Count,
}

/// What one participant hands the runtime for a full exchange.
pub struct AllToAllCall {
    /// Element count sent to each participant.
    pub send_count_each: Count,
    /// Element count received from each participant.
    pub recv_count_each: Count,
}

/// Barrier synchronization among all participants of a topology.
pub trait Barrier: Communicator {
    /// Partake in a barrier: the runtime blocks the calling participant
    /// until every participant of the topology has entered.
    fn barrier(&self);
}

impl<C: Communicator> Barrier for C {
    fn barrier(&self) {
    }
}

/// Broadcast of the contents of a buffer from the root to all participants.
/// The data movement the runtime performs is `broadcast_exchange`.
pub trait BroadcastInto: Root {
    /// Broadcast the contents of `buffer` from the root into the `buffer`s
    /// of all other participants: after the runtime performs the returned
    /// call on every participant, each holds what the root's buffer held.
    fn broadcast_into<Buf: BufferMut + ?Sized>(&self, buffer: &mut Buf) -> (c: BroadcastCall)
        requires
            old(buffer).spec_count() <= i32::MAX as int,
        ensures
            c.count as int == old(buffer).spec_count(),
            c.root == self.spec_root_rank(),
            final(buffer).spec_count() == old(buffer).spec_count(),
            final(buffer).spec_as_datatype() == old(buffer).spec_as_datatype(),
    ;
}

impl<T: Root> BroadcastInto for T {
    fn broadcast_into<Buf: BufferMut + ?Sized>(&self, buffer: &mut Buf) -> (c: BroadcastCall) {
        proof {
            self.lemma_root();
        }
        BroadcastCall { count: buffer.count(), root: self.root_rank() }
    }
}

/// Gather the contents of every participant's buffer on the root.  The
/// data the runtime delivers into the root's receive buffer is
/// `gather_exchange` of all contributions.
pub trait GatherInto: Root {
    /// Gather the contents of all `sendbuf`s into `recvbuf` on the root:
    /// the root's receive buffer is divided into one equal segment per
    /// participant, and segment `i` receives participant `i`'s
    /// contribution.  Participants other than the root pass no receive
    /// buffer.
    fn gather_into<S: Buffer + ?Sized, R: BufferMut + ?Sized>(
        &self,
        sendbuf: &S,
        recvbuf: Option<&mut R>,
    ) -> (c: GatherCall)
        requires
            sendbuf.spec_count() <= i32::MAX as int,
            recvbuf is Some ==> recvbuf->0.spec_count() <= i32::MAX as int,
        ensures
            c.send_count as int == sendbuf.spec_count(),
            c.recv_present == (recvbuf is Some),
            c.recv_count_each as int == if recvbuf is Some {
                recvbuf->0.spec_count() / self.spec_size()
            } else {
                0
            },
            c.root == self.spec_root_rank(),
    ;
}

impl<T: Root> GatherInto for T {
    fn gather_into<S: Buffer + ?Sized, R: BufferMut + ?Sized>(
        &self,
        sendbuf: &S,
        recvbuf: Option<&mut R>,
    ) -> (c: GatherCall) {
        proof {
            self.lemma_root();
            self.lemma_topology();
        }
        let send_count: Count = sendbuf.count();
        let root: Count = self.root_rank();
        match recvbuf {
            Some(r) => {
                proof {
                    r.lemma_count_nonneg();
                }
                GatherCall {
                    send_count,
                    recv_present: true,
                    recv_count_each: r.count() / self.size(),
                    root,
                }
            },
            None => GatherCall { send_count, recv_present: false, recv_count_each: 0, root },
        }
    }
}

/// Gather the contents of every participant's buffer on every participant:
/// the runtime delivers `gather_exchange` of all contributions into every
/// receive buffer.
pub trait AllGatherInto: Communicator {
    /// Gather the contents of all `sendbuf`s into the `recvbuf`s of all
    /// participants: every receive buffer is divided into one equal segment
    /// per participant, and segment `i` receives participant `i`'s
    /// contribution.
    fn all_gather_into<S: Buffer + ?Sized, R: BufferMut + ?Sized>(
        &self,
        sendbuf: &S,
        recvbuf: &mut R,
    ) -> (c: AllGatherCall)
        requires
            sendbuf.spec_count() <= i32::MAX as int,
            old(recvbuf).spec_count() <= i32::MAX as int,
        ensures
            c.send_count as int == sendbuf.spec_count(),
            c.recv_count_each as int == old(recvbuf).spec_count() / self.spec_size(),
            final(recvbuf).spec_count() == old(recvbuf).spec_count(),
            final(recvbuf).spec_as_datatype() == old(recvbuf).spec_as_datatype(),
    ;
}

impl<C: Communicator> AllGatherInto for C {
    fn all_gather_into<S: Buffer + ?Sized, R: BufferMut + ?Sized>(
        &self,
        sendbuf: &S,
        recvbuf: &mut R,
    ) -> (c: AllGatherCall) {
        proof {
            self.lemma_topology();
            recvbuf.lemma_count_nonneg();
        }
        AllGatherCall { send_count: sendbuf.count(), recv_count_each: recvbuf.count() / self.size() }
    }
}

/// Scatter the contents of the root's buffer to all participants.  The
/// data the runtime delivers to participant `i` is `scatter_exchange` of the
/// root's buffer; `lemma_gather_scatter_identity` states how the two
/// operations invert each other.
pub trait ScatterInto: Root {
    /// Scatter the contents of `sendbuf` on the root to the `recvbuf`s of
    /// the participants: the root's send buffer is divided into one equal
    /// segment per participant, and participant `i` receives segment `i`.
    /// Participants other than the root pass no send buffer.
    fn scatter_into<S: Buffer + ?Sized, R: BufferMut + ?Sized>(
        &self,
        sendbuf: Option<&S>,
        recvbuf: &mut R,
    ) -> (c: ScatterCall)
        requires
            old(recvbuf).spec_count() <= i32::MAX as int,
            sendbuf is Some ==> sendbuf->0.spec_count() <= i32::MAX as int,
        ensures
            c.recv_count as int == old(recvbuf).spec_count(),
            c.send_present == (sendbuf is Some),
            c.send_count_each as int == if sendbuf is Some {
                sendbuf->0.spec_count() / self.spec_size()
            } else {
                0
            },
            c.root == self.spec_root_rank(),
            final(recvbuf).spec_count() == old(recvbuf).spec_count(),
            final(recvbuf).spec_as_datatype() == old(recvbuf).spec_as_datatype(),
    ;
}

impl<T: Root> ScatterInto for T {
    fn scatter_into<S: Buffer + ?Sized, R: BufferMut + ?Sized>(
        &self,
        sendbuf: Option<&S>,
        recvbuf: &mut R,
    ) -> (c: ScatterCall) {
        proof {
            self.lemma_root();
            self.lemma_topology();
        }
        let recv_count: Count = recvbuf.count();
        let root: Count = self.root_rank();
        match sendbuf {
            Some(s) => {
                proof {
                    s.lemma_count_nonneg();
                }
                ScatterCall {
                    send_present: true,
                    send_count_each: s.count() / self.size(),
                    recv_count,
                    root,
                }
            },
            None => ScatterCall { send_present: false, send_count_each: 0, recv_count, root },
        }
    }
}

/// Distribute the send buffers of all participants to the receive buffers
/// of all participants.  The data the runtime delivers to participant `i` is
/// `all_to_all_exchange`; `lemma_all_to_all_transpose` states that the
/// exchange transposes the send matrix.
pub trait AllToAllInto: Communicator {
    /// Distribute `sendbuf` to the `recvbuf`s on all participants: each
    /// buffer is divided into one equal segment per participant, participant
    /// `i` sends its segment `j` to participant `j`, whose receive segment
    /// `i` it becomes.
    fn all_to_all_into<S: Buffer + ?Sized, R: BufferMut + ?Sized>(
        &self,
        sendbuf: &S,
        recvbuf: &mut R,
    ) -> (c: AllToAllCall)
        requires
            sendbuf.spec_count() <= i32::MAX as int,
            old(recvbuf).spec_count() <= i32::MAX as int,
        ensures
            c.send_count_each as int == sendbuf.spec_count() / self.spec_size(),
            c.recv_count_each as int == old(recvbuf).spec_count() / self.spec_size(),
            final(recvbuf).spec_count() == old(recvbuf).spec_count(),
            final(recvbuf).spec_as_datatype() == old(recvbuf).spec_as_datatype(),
    ;
}

impl<C: Communicator> AllToAllInto for C {
    fn all_to_all_into<S: Buffer + ?Sized, R: BufferMut + ?Sized>(
        &self,
        sendbuf: &S,
        recvbuf: &mut R,
    ) -> (c: AllToAllCall) {
        proof {
            self.lemma_topology();
            sendbuf.lemma_count_nonneg();
            recvbuf.lemma_count_nonneg();
        }
        let size: Count = self.size();
        AllToAllCall {
            send_count_each: sendbuf.count() / size,
            recv_count_each: recvbuf.count() / size,
        }
    }
}

/// A request for an in-flight non-blocking barrier.
///
/// The request must be observed complete, through the completion
/// collaborator, before it is retired: discarding a pending request would
/// leak the runtime's request and leave an in-flight operation referencing
/// freed memory.
#[must_use]
pub struct BarrierRequest {
    complete: bool,
}

impl BarrierRequest {
    /// Whether completion of the barrier has been observed.
    pub closed spec fn spec_is_complete(&self) -> bool {
        self.complete
    }

    /// Whether completion of the barrier has been observed.
    pub fn is_complete(&self) -> (b: bool)
        ensures
            b == self.spec_is_complete(),
    {
        self.complete
    }

    /// Records that the completion collaborator observed the barrier
    /// complete: only after this may the request be retired.
    pub fn mark_complete(&mut self)
        ensures
            final(self).spec_is_complete(),
    {
        self.complete = true;
    }

    /// Retires a completed request.  Retiring a request whose completion
    /// was never observed is a lifecycle violation; the contract rules it
    /// out.
    pub fn dispose(self)
        requires
            self.spec_is_complete(),
    {
    }

    /// Retires the request if its completion has been observed, and hands
    /// it back untouched otherwise.
    pub fn try_dispose(self) -> (r: Result<(), BarrierRequest>)
        ensures
            r is Ok <==> self.spec_is_complete(),
            r is Err ==> r->Err_0 == self,
    {
        if self.complete {
            Ok(())
        } else {
            Err(self)
        }
    }
}

/// Non-blocking barrier synchronization among all participants of a
/// topology.
pub trait ImmediateBarrier: Communicator {
    /// Partake in a barrier without blocking: the calling participant's
    /// entry is registered at once, and the returned request is pending
    /// until the completion collaborator observes the barrier complete.
    fn immediate_barrier(&self) -> (r: BarrierRequest)
        ensures
            !r.spec_is_complete(),
    ;
}

impl<C: Communicator> ImmediateBarrier for C {
    fn immediate_barrier(&self) -> (r: BarrierRequest) {
        BarrierRequest { complete: false }
    }
}

/// Segment `i` of a buffer divided into segments of `seg_len` elements.
pub open spec fn segment<T>(buf: Seq<T>, seg_len: int, i: int) -> Seq<T>
    recommends
        0 <= seg_len,
        0 <= i,
        (i + 1) * seg_len <= buf.len(),
{
    buf.subrange(i * seg_len, (i + 1) * seg_len)
}

/// The concatenation of all participants' buffers, in rank order.
pub open spec fn concat_all<T>(bufs: Seq<Seq<T>>) -> Seq<T>
    decreases bufs.len(),
{
    if bufs.len() == 0 {
        Seq::empty()
    } else {
        bufs[0] + concat_all(bufs.skip(1))
    }
}

/// Every buffer has exactly `len` elements.
pub open spec fn uniform_bufs<T>(bufs: Seq<Seq<T>>, len: int) -> bool {
    forall|i: int| 0 <= i < bufs.len() ==> (#[trigger] bufs[i]).len() == len
}

/// What a full exchange delivers to participant `i`: segment `i` of every
/// participant's send buffer, in rank order.
pub open spec fn transpose_row<T>(sends: Seq<Seq<T>>, seg_len: int, i: int) -> Seq<Seq<T>> {
    Seq::new(sends.len(), |j: int| segment(sends[j], seg_len, i))
}

/// The contents of the participants' buffers, as sequences.
pub open spec fn views_of<T>(bufs: Seq<Vec<T>>) -> Seq<Seq<T>> {
    bufs.map_values(|v: Vec<T>| v@)
}

/// The concatenation of uniform buffers has their total length.
pub proof fn lemma_concat_all_len<T>(bufs: Seq<Seq<T>>, len: int)
    requires
        0 <= len,
        uniform_bufs(bufs, len),
    ensures
        concat_all(bufs).len() == bufs.len() * len,
    decreases bufs.len(),
{
    if bufs.len() == 0 {
        assert(bufs.len() * len == 0);
    } else {
        let rest = bufs.skip(1);
        assert forall|i: int| 0 <= i < rest.len() implies (#[trigger] rest[i]).len() == len by {
            assert(rest[i] == bufs[i + 1]);
        }
        lemma_concat_all_len(rest, len);
        assert(bufs.len() * len == (bufs.len() - 1) * len + len) by (nonlinear_arith);
    }
}

/// Law: gathering uniform contributions concatenates them in rank order, so
/// scattering the gathered buffer back into equal segments returns to every
/// participant exactly its original contribution.
pub proof fn lemma_gather_scatter_identity<T>(sends: Seq<Seq<T>>, len: int)
    requires
        0 <= len,
        uniform_bufs(sends, len),
    ensures
        forall|i: int| 0 <= i < sends.len() ==> #[trigger] segment(concat_all(sends), len, i)
            == sends[i],
    decreases sends.len(),
{
    if sends.len() > 0 {
        let rest = sends.skip(1);
        assert forall|i: int| 0 <= i < rest.len() implies (#[trigger] rest[i]).len() == len by {
            assert(rest[i] == sends[i + 1]);
        }
        lemma_gather_scatter_identity(rest, len);
        lemma_concat_all_len(sends, len);
        lemma_concat_all_len(rest, len);
        let cat = concat_all(sends);
        assert(cat == sends[0] + concat_all(rest));
        assert forall|i: int| 0 <= i < sends.len() implies #[trigger] segment(cat, len, i)
            == sends[i] by {
            assert(0 <= i * len && (i + 1) * len <= sends.len() * len) by (nonlinear_arith)
                requires
                    0 <= i < sends.len(),
                    0 <= len,
            ;
            if i == 0 {
                assert(sends[0].len() == len);
                assert(cat.len() == sends.len() * len);
                assert(1 * len <= sends.len() * len) by (nonlinear_arith)
                    requires
                        1 <= sends.len(),
                        0 <= len,
                ;
                assert(segment(cat, len, 0) == cat.subrange(0 * len, (0 + 1) * len));
                assert(cat.subrange(0 * len, (0 + 1) * len) == cat.subrange(0, len));
                assert(cat.subrange(0, len).len() == len);
                assert forall|k: int| 0 <= k < len implies cat.subrange(0, len)[k]
                    == sends[0][k] by {
                    assert(cat.subrange(0, len)[k] == cat[k]);
                    assert(cat[k] == sends[0][k]);
                }
                assert(cat.subrange(0, len) =~= sends[0]);
            } else {
                assert(segment(concat_all(rest), len, i - 1) == rest[i - 1]);
                assert(len <= i * len) by (nonlinear_arith)
                    requires
                        1 <= i,
                        0 <= len,
                ;
                assert((i - 1) * len == i * len - len) by (nonlinear_arith);
                assert(((i - 1) + 1) * len == i * len - len + len) by (nonlinear_arith);
                assert((i + 1) * len == i * len + len) by (nonlinear_arith);
                assert(segment(cat, len, i).len() == len);
                assert(segment(concat_all(rest), len, i - 1).len() == len);
                assert forall|k: int| 0 <= k < len implies segment(cat, len, i)[k] == segment(
                    concat_all(rest),
                    len,
                    i - 1,
                )[k] by {
                    assert(segment(cat, len, i)[k] == cat[i * len + k]);
                    assert(cat[i * len + k] == concat_all(rest)[i * len + k - len]);
                    assert(segment(concat_all(rest), len, i - 1)[k] == concat_all(rest)[(i - 1)
                        * len + k]);
                }
                assert(segment(cat, len, i) =~= segment(concat_all(rest), len, i - 1));
                assert(rest[i - 1] == sends[i]);
            }
        }
    }
}

/// Law: after a full exchange among participants whose send buffers hold
/// one segment of `seg_len` elements per participant, participant `i`'s
/// receive segment `j` is participant `j`'s send segment `i`: the exchange
/// transposes the send matrix.
pub proof fn lemma_all_to_all_transpose<T>(sends: Seq<Seq<T>>, seg_len: int)
    requires
        0 <= seg_len,
        uniform_bufs(sends, sends.len() * seg_len),
    ensures
        forall|i: int, j: int|
            0 <= i < sends.len() && 0 <= j < sends.len() ==> #[trigger] segment(
                concat_all(transpose_row(sends, seg_len, i)),
                seg_len,
                j,
            ) == segment(sends[j], seg_len, i),
{
    let p = sends.len() as int;
    assert forall|i: int, j: int| 0 <= i < p && 0 <= j < p implies #[trigger] segment(
        concat_all(transpose_row(sends, seg_len, i)),
        seg_len,
        j,
    ) == segment(sends[j], seg_len, i) by {
        let row = transpose_row(sends, seg_len, i);
        assert forall|m: int| 0 <= m < row.len() implies (#[trigger] row[m]).len() == seg_len by {
            assert(row[m] == segment(sends[m], seg_len, i));
            assert(0 <= i * seg_len && (i + 1) * seg_len <= p * seg_len) by (nonlinear_arith)
                requires
                    0 <= i < p,
                    0 <= seg_len,
            ;
            assert((i + 1) * seg_len == i * seg_len + seg_len) by (nonlinear_arith);
            assert(sends[m].len() == p * seg_len);
        }
        lemma_gather_scatter_identity(row, seg_len);
        assert(segment(concat_all(row), seg_len, j) == row[j]);
    }
}

/// One block of buffers appended to a concatenation.
proof fn lemma_concat_take_snoc<T>(bufs: Seq<Seq<T>>, b: int)
    requires
        0 <= b < bufs.len(),
    ensures
        concat_all(bufs.take(b + 1)) == concat_all(bufs.take(b)) + bufs[b],
    decreases b,
{
    if b == 0 {
        assert(bufs.take(1) =~= seq![bufs[0]]);
        assert(seq![bufs[0]].skip(1) =~= Seq::<Seq<T>>::empty());
        assert(concat_all(Seq::<Seq<T>>::empty()) == Seq::<T>::empty());
        assert(concat_all(bufs.take(1)) =~= bufs[0]);
        assert(bufs.take(0) =~= Seq::<Seq<T>>::empty());
        assert(concat_all(bufs.take(0)) + bufs[0] =~= bufs[0]);
    } else {
        lemma_concat_take_snoc(bufs.skip(1), b - 1);
        assert(bufs.skip(1).take(b) =~= bufs.take(b + 1).skip(1));
        assert(bufs.skip(1).take(b - 1) =~= bufs.take(b).skip(1));
        assert(bufs.skip(1)[b - 1] == bufs[b]);
        assert(bufs.take(b + 1)[0] == bufs[0]);
        assert(bufs.take(b)[0] == bufs[0]);
        assert(concat_all(bufs.take(b + 1)) == bufs[0] + concat_all(bufs.take(b + 1).skip(1)));
        assert(concat_all(bufs.take(b)) == bufs[0] + concat_all(bufs.take(b).skip(1)));
        assert((bufs[0] + concat_all(bufs.take(b).skip(1))) + bufs[b] =~= bufs[0] + (concat_all(
            bufs.take(b).skip(1),
        ) + bufs[b]));
    }
}

/// The data movement of a gather, as the runtime delivers it on the root:
/// the concatenation of all participants' send buffers, in rank order.  The
/// same movement, delivered to every participant, is an all-gather.
#[verifier::loop_isolation(false)]
pub fn gather_exchange<T: Copy>(sends: &Vec<Vec<T>>) -> (r: Vec<T>)
    ensures
        r@ == concat_all(views_of(sends@)),
{
    let ghost bufs = views_of(sends@);
    let mut r: Vec<T> = Vec::new();
    let mut b: usize = 0;
    proof {
        assert(bufs.take(0) =~= Seq::<Seq<T>>::empty());
    }
    while b < sends.len()
        invariant
            0 <= b <= sends@.len(),
            r@ == concat_all(bufs.take(b as int)),
        decreases sends@.len() - b,
    {
        let ghost pre = r@;
        let row: &Vec<T> = &sends[b];
        proof {
            assert(bufs[b as int] == row@);
        }
        let mut k: usize = 0;
        while k < row.len()
            invariant
                0 <= k <= row@.len(),
                r@ == pre + row@.take(k as int),
            decreases row@.len() - k,
        {
            let x: T = row[k];
            r.push(x);
            proof {
                assert(row@.take(k as int + 1) =~= row@.take(k as int).push(row@[k as int]));
                assert(r@ =~= pre + row@.take(k as int + 1));
            }
            k += 1;
        }
        proof {
            assert(row@.take(row@.len() as int) =~= row@);
            lemma_concat_take_snoc(bufs, b as int);
        }
        b += 1;
    }
    proof {
        assert(bufs.take(sends@.len() as int) =~= bufs);
    }
    r
}

/// The data movement of a broadcast, as the runtime delivers it into each
/// participant's buffer: a copy of the root's buffer.
#[verifier::loop_isolation(false)]
pub fn broadcast_exchange<T: Copy>(send: &Vec<T>) -> (r: Vec<T>)
    ensures
        r@ == send@,
{
    let mut r: Vec<T> = Vec::new();
    let mut k: usize = 0;
    proof {
        assert(send@.take(0) =~= Seq::<T>::empty());
    }
    while k < send.len()
        invariant
            0 <= k <= send@.len(),
            r@ == send@.take(k as int),
        decreases send@.len() - k,
    {
        r.push(send[k]);
        proof {
            assert(send@.take(k as int + 1) =~= send@.take(k as int).push(send@[k as int]));
        }
        k += 1;
    }
    proof {
        assert(send@.take(send@.len() as int) =~= send@);
    }
    r
}

/// The data movement of a scatter, as the runtime delivers it to
/// participant `i`: segment `i` of the root's send buffer, the buffer being
/// divided into `parts` equal segments.
#[verifier::loop_isolation(false)]
pub fn scatter_exchange<T: Copy>(send: &Vec<T>, parts: usize, i: usize) -> (r: Vec<T>)
    requires
        0 < parts,
        i < parts,
    ensures
        r@ == segment(send@, send@.len() as int / parts as int, i as int),
{
    let ghost len = send@.len() as int;
    let ghost pi = parts as int;
    let seg_len: usize = send.len() / parts;
    proof {
        vstd::arithmetic::div_mod::lemma_fundamental_div_mod(len, pi);
        vstd::arithmetic::div_mod::lemma_mod_bound(len, pi);
        assert(pi * (seg_len as int) <= len);
        assert((i as int + 1) * (seg_len as int) <= pi * (seg_len as int)) by (nonlinear_arith)
            requires
                i as int + 1 <= pi,
                0 <= seg_len as int,
        ;
    }
    let ghost lo = i as int * seg_len as int;
    proof {
        assert(0 <= lo && (i as int + 1) * (seg_len as int) == lo + seg_len as int)
            by (nonlinear_arith)
            requires
                lo == i as int * seg_len as int,
                0 <= i as int,
                0 <= seg_len as int,
        ;
        assert(lo + seg_len as int <= len);
    }
    let mut r: Vec<T> = Vec::new();
    let mut k: usize = 0;
    proof {
        assert(send@.subrange(lo, lo) =~= Seq::<T>::empty());
    }
    while k < seg_len
        invariant
            0 <= k <= seg_len,
            r@ == send@.subrange(lo, lo + k as int),
        decreases seg_len - k,
    {
        proof {
            assert(lo + seg_len as int <= len) by (nonlinear_arith)
                requires
                    lo == i as int * seg_len as int,
                    i as int + 1 <= pi,
                    0 <= seg_len as int,
                    pi * (seg_len as int) <= len,
            ;
        }
        let idx: usize = i * seg_len + k;
        r.push(send[idx]);
        proof {
            assert(send@.subrange(lo, lo + k as int + 1) =~= send@.subrange(lo, lo + k as int).push(
                send@[lo + k as int],
            ));
        }
        k += 1;
    }
    proof {
        assert((i as int + 1) * (seg_len as int) == lo + seg_len as int) by (nonlinear_arith)
            requires
                lo == i as int * seg_len as int,
        ;
    }
    r
}

/// The data movement of a full exchange, as the runtime delivers it to
/// participant `i`: segment `i` of every participant's send buffer, in rank
/// order, each send buffer being divided into one segment per participant.
#[verifier::loop_isolation(false)]
pub fn all_to_all_exchange<T: Copy>(sends: &Vec<Vec<T>>, i: usize) -> (r: Vec<T>)
    requires
        0 < sends@.len(),
        i < sends@.len(),
        uniform_bufs(views_of(sends@), sends@[0]@.len() as int),
    ensures
        r@ == concat_all(
            transpose_row(
                views_of(sends@),
                sends@[0]@.len() as int / sends@.len() as int,
                i as int,
            ),
        ),
{
    let ghost bufs = views_of(sends@);
    let ghost seg = sends@[0]@.len() as int / sends@.len() as int;
    let ghost row = transpose_row(bufs, seg, i as int);
    let parts: usize = sends.len();
    let mut r: Vec<T> = Vec::new();
    let mut j: usize = 0;
    proof {
        assert(row.take(0) =~= Seq::<Seq<T>>::empty());
    }
    while j < parts
        invariant
            0 <= j <= parts,
            r@ == concat_all(row.take(j as int)),
        decreases parts - j,
    {
        let sj: &Vec<T> = &sends[j];
        proof {
            assert(bufs[j as int] == sj@);
            assert(sj@.len() == sends@[0]@.len());
        }
        let mut part: Vec<T> = scatter_exchange(sj, parts, i);
        proof {
            assert(row[j as int] == segment(sj@, seg, i as int));
            assert(part@ == row[j as int]);
        }
        let ghost pre = r@;
        let mut k: usize = 0;
        while k < part.len()
            invariant
                0 <= k <= part@.len(),
                r@ == pre + part@.take(k as int),
            decreases part@.len() - k,
        {
            r.push(part[k]);
            proof {
                assert(part@.take(k as int + 1) =~= part@.take(k as int).push(part@[k as int]));
                assert(r@ =~= pre + part@.take(k as int + 1));
            }
            k += 1;
        }
        proof {
            assert(part@.take(part@.len() as int) =~= part@);
            lemma_concat_take_snoc(row, j as int);
        }
        j += 1;
    }
    proof {
        assert(row.take(parts as int) =~= row);
    }
    r
}

} // verus!
