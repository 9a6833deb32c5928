use mpi::buffer::View;
use mpi::datatype::{Equivalence, UserDatatype};
use mpi::collective::{
    AllGatherInto, AllToAllInto, Barrier, BroadcastInto, Communicator, GatherInto,
    ImmediateBarrier, Root, ScatterInto, Topology, all_to_all_exchange, broadcast_exchange,
    gather_exchange, scatter_exchange,
};

#[test]
fn topology_reports_size_and_rank() {
    let t = Topology::new(4, 2);
    assert_eq!(t.size(), 4);
    assert_eq!(t.rank(), 2);
}

#[test]
fn processes_carry_their_root_rank() {
    let t = Topology::new(4, 2);
    let p = t.process_at_rank(1);
    assert_eq!(p.root_rank(), 1);
    assert_eq!(p.size(), 4);
    assert_eq!(p.rank(), 2);
    let me = t.this_process();
    assert_eq!(me.root_rank(), 2);
}

#[test]
fn barrier_involves_no_buffers() {
    let t = Topology::new(3, 0);
    t.barrier();
}

#[test]
fn broadcast_call_carries_count_and_root() {
    let t = Topology::new(2, 1);
    let root = t.process_at_rank(0);
    let mut buf: Vec<i32> = vec![1, 2, 3];
    let c = root.broadcast_into(&mut buf[..]);
    assert_eq!(c.count, 3);
    assert_eq!(c.root, 0);
}

#[test]
fn gather_divides_the_root_receive_buffer() {
    let t = Topology::new(4, 0);
    let root = t.process_at_rank(0);
    let send: Vec<i32> = vec![1, 2];
    let mut recv: Vec<i32> = vec![0; 8];
    let c = root.gather_into(&send[..], Some(&mut recv[..]));
    assert_eq!(c.send_count, 2);
    assert!(c.recv_present);
    assert_eq!(c.recv_count_each, 2);
    assert_eq!(c.root, 0);
}

#[test]
fn gather_without_receive_buffer_sends_only() {
    let t = Topology::new(4, 3);
    let root = t.process_at_rank(0);
    let send: Vec<i32> = vec![1, 2];
    let c = root.gather_into::<[i32], [i32]>(&send[..], None);
    assert_eq!(c.send_count, 2);
    assert!(!c.recv_present);
    assert_eq!(c.recv_count_each, 0);
}

#[test]
fn scatter_divides_the_root_send_buffer() {
    let t = Topology::new(2, 0);
    let root = t.process_at_rank(1);
    let send: Vec<u8> = vec![0; 10];
    let mut recv: Vec<u8> = vec![0; 5];
    let c = root.scatter_into(Some(&send[..]), &mut recv[..]);
    assert!(c.send_present);
    assert_eq!(c.send_count_each, 5);
    assert_eq!(c.recv_count, 5);
    assert_eq!(c.root, 1);
}

#[test]
fn all_gather_divides_every_receive_buffer() {
    let t = Topology::new(3, 1);
    let send: Vec<i64> = vec![7];
    let mut recv: Vec<i64> = vec![0; 3];
    let c = t.all_gather_into(&send[..], &mut recv[..]);
    assert_eq!(c.send_count, 1);
    assert_eq!(c.recv_count_each, 1);
}

#[test]
fn all_to_all_divides_both_buffers() {
    let t = Topology::new(3, 0);
    let send: Vec<i32> = vec![0; 9];
    let mut recv: Vec<i32> = vec![0; 6];
    let c = t.all_to_all_into(&send[..], &mut recv[..]);
    assert_eq!(c.send_count_each, 3);
    assert_eq!(c.recv_count_each, 2);
}

#[test]
fn a_view_serves_as_a_send_buffer() {
    let d = i32::equivalent_datatype();
    let t = UserDatatype::vector(3, 2, 4, &d);
    let region: Vec<i32> = vec![0; 10];
    let view = View::try_with_count_and_datatype(&region[..], 1, &t).unwrap();
    let topo = Topology::new(2, 0);
    let root = topo.process_at_rank(0);
    let mut recv: Vec<i32> = vec![0; 12];
    let c = root.gather_into(&view, Some(&mut recv[..]));
    assert_eq!(c.send_count, 1);
    assert_eq!(c.recv_count_each, 6);
}

#[test]
fn barrier_request_lifecycle() {
    let t = Topology::new(2, 0);
    let mut r = t.immediate_barrier();
    assert!(!r.is_complete());
    r.mark_complete();
    assert!(r.is_complete());
    r.dispose();
}

#[test]
fn pending_barrier_request_cannot_be_retired() {
    let t = Topology::new(2, 1);
    let r = t.immediate_barrier();
    let r = match r.try_dispose() {
        Ok(()) => panic!("a pending request must not retire"),
        Err(r) => r,
    };
    let mut r = r;
    r.mark_complete();
    assert!(r.try_dispose().is_ok());
}

fn gather_scatter_roundtrip(participants: usize, payload: usize) {
    let mut sends: Vec<Vec<u32>> = Vec::new();
    for i in 0..participants {
        let mut buf: Vec<u32> = Vec::new();
        for k in 0..payload {
            buf.push((100 * i + k) as u32);
        }
        sends.push(buf);
    }
    let gathered = gather_exchange(&sends);
    assert_eq!(gathered.len(), participants * payload);
    for i in 0..participants {
        let back = scatter_exchange(&gathered, participants, i);
        assert_eq!(back, sends[i]);
    }
}

#[test]
fn gather_then_scatter_returns_each_contribution() {
    gather_scatter_roundtrip(1, 1);
    gather_scatter_roundtrip(1, 3);
    gather_scatter_roundtrip(2, 1);
    gather_scatter_roundtrip(2, 3);
    gather_scatter_roundtrip(4, 1);
    gather_scatter_roundtrip(4, 3);
}

#[test]
fn gather_concatenates_in_rank_order() {
    let sends: Vec<Vec<u8>> = vec![vec![1, 2], vec![3, 4], vec![5, 6]];
    assert_eq!(gather_exchange(&sends), vec![1, 2, 3, 4, 5, 6]);
}

#[test]
fn scatter_hands_out_segments() {
    let send: Vec<i32> = vec![10, 11, 20, 21, 30, 31];
    assert_eq!(scatter_exchange(&send, 3, 0), vec![10, 11]);
    assert_eq!(scatter_exchange(&send, 3, 1), vec![20, 21]);
    assert_eq!(scatter_exchange(&send, 3, 2), vec![30, 31]);
}

#[test]
fn broadcast_copies_the_root_buffer() {
    let send: Vec<i16> = vec![5, 6, 7];
    assert_eq!(broadcast_exchange(&send), vec![5, 6, 7]);
}

#[test]
fn all_to_all_transposes_the_send_matrix() {
    // participant i's send segment j holds i * 3 + j
    let mut sends: Vec<Vec<i32>> = Vec::new();
    for i in 0..3i32 {
        sends.push(vec![i * 3, i * 3 + 1, i * 3 + 2]);
    }
    for i in 0..3usize {
        let recv = all_to_all_exchange(&sends, i);
        // segment j of participant i's receive buffer holds j * 3 + i
        let expect: Vec<i32> = vec![i as i32, 3 + i as i32, 6 + i as i32];
        assert_eq!(recv, expect);
    }
}

#[test]
fn all_to_all_with_longer_segments() {
    let sends: Vec<Vec<u8>> = vec![vec![1, 2, 3, 4], vec![5, 6, 7, 8]];
    assert_eq!(all_to_all_exchange(&sends, 0), vec![1, 2, 5, 6]);
    assert_eq!(all_to_all_exchange(&sends, 1), vec![3, 4, 7, 8]);
}
