//! What every event does to a socket, and what it leaves alone.
//!
//! A socket sees many events: packets arrive, sub-connections come and go, frames are queued and
//! written, and a reader reads. The laws here say of each what becomes of the stream and of every
//! single sub-connection.
use vstd::prelude::*;

#[allow(unused_imports)]
use crate::connection::{
    is_least_loaded, law_live_are_those_alive, live, without_life, Closing, ReadStep, SocketView,
    SubConn,
};
#[allow(unused_imports)]
use crate::error::MtcpError;
#[allow(unused_imports)]
use crate::protocol::pid_at;
#[allow(unused_imports)]
use crate::stream::{
    chunks_of, law_read_takes_front, law_read_takes_up_in_turn,
    law_stream_arrives_over_connections, packets_of, received, Inbound, PID_COUNT,
};

verus! {

/// What could be read before a read is what the read gave, followed by what can be read after it,
/// whether the socket is closed or not. The packets that a read takes up are the `taken` ones whose
/// turn has come, and every other packet that has arrived stays as it is.
pub proof fn law_read_loses_nothing(socket: SocketView, want: int) -> (taken: int)
    requires
        0 <= want,
    ensures
        ({
            let data = socket.inbound.read_bytes(want);
            let before = socket.inbound;
            let after = socket.after_read(want).inbound;
            &&& before.readable() == data + after.readable()
            &&& 0 <= taken
            &&& taken > 0 ==> before.cache.len() == 0
            &&& after.pid == pid_at(before.pid, taken)
            &&& data + after.cache == (if taken == 0 {
                before.cache
            } else {
                before.packages[pid_at(before.pid, taken - 1)]
            })
            &&& data.len() <= want
            &&& data.len() < want ==> after.cache.len() == 0
            &&& forall|j: int|
                0 <= j < taken ==> before.packages.contains_key(#[trigger] pid_at(before.pid, j))
            &&& forall|p: u16| #[trigger]
                after.packages.contains_key(p) <==> before.packages.contains_key(p) && (forall|
                    j: int,
                |
                    0 <= j < taken ==> p != #[trigger] pid_at(before.pid, j))
            &&& forall|p: u16|
                after.packages.contains_key(p) ==> #[trigger] after.packages[p]
                    == before.packages[p]
        }),
{
    if want == 0 {
        law_read_takes_front(socket.inbound, want);
        let data = socket.inbound.read_bytes(want);
        assert(data =~= Seq::<u8>::empty());
        assert(socket.inbound.readable() =~= data + socket.inbound.readable());
        assert(data + socket.inbound.cache =~= socket.inbound.cache);
        0
    } else {
        law_read_takes_front(socket.inbound, want);
        law_read_takes_up_in_turn(socket.inbound, want)
    }
}

/// What a read comes to. It gives bytes while there are any to be read. Otherwise it waits as long
/// as some sub-connection is alive, and once none is, the stream has ended, or has failed where a
/// sub-connection broke off inside a frame.
pub proof fn law_outcome_of_a_read(socket: SocketView, want: int)
    requires
        0 <= want,
    ensures
        ({
            let step = socket.read_step(want);
            let data = socket.inbound.read_bytes(want);
            let readable = socket.inbound.readable().len() > 0;
            let connected = exists|i: int|
                0 <= i < socket.conns.len() && (#[trigger] socket.conns[i]).alive;
            &&& step is Data <==> want == 0 || readable
            &&& step is Data && data.len() <= usize::MAX ==> step == ReadStep::Data(
                data.len() as usize,
            )
            &&& step == ReadStep::Wait <==> want > 0 && !readable && connected
            &&& step == ReadStep::Eof <==> want > 0 && !readable && !connected
                && !socket.truncated
            &&& step == ReadStep::Failed(MtcpError::TruncatedFrame) <==> want > 0 && !readable
                && !connected && socket.truncated
        }),
{
    law_read_takes_front(socket.inbound, want);
    let kept = law_live_are_those_alive(socket.conns);
    if kept.len() > 0 {
        assert(socket.conns[kept[0]].alive);
    }
    if exists|i: int| 0 <= i < socket.conns.len() && (#[trigger] socket.conns[i]).alive {
        let i = choose|i: int| 0 <= i < socket.conns.len() && (#[trigger] socket.conns[i]).alive;
        assert(kept.contains(i));
    }
}

/// A read changes the receiving side, drops sub-connections that are no longer alive, and closes
/// the socket where it finds the stream at its end. The rest of the socket stays as it is.
pub proof fn law_read_closes_only_at_the_end(socket: SocketView, want: int)
    requires
        0 <= want,
    ensures
        ({
            let step = socket.read_step(want);
            let after = socket.after_read(want);
            &&& after.closed == (socket.closed || step is Eof || step is Failed)
            &&& after.conns == (if step is Data {
                socket.conns
            } else {
                live(socket.conns)
            })
            &&& after.mid == socket.mid
            &&& after.write_pid == socket.write_pid
            &&& after.next_conn == socket.next_conn
            &&& after.write_shutdown == socket.write_shutdown
            &&& after.closing == socket.closing
            &&& after.truncated == socket.truncated
        }),
{
    law_read_takes_front(socket.inbound, want);
}

/// What concerns the stream is no business of the sub-connections: whatever happens to one of them,
/// what has arrived, what is due, the packet id that is sent next, the socket's name and whether
/// its sides were shut down stay as they are.
pub proof fn law_connections_leave_the_stream(
    socket: SocketView,
    id: u64,
    cid: u16,
    index: int,
    len: usize,
    inside_frame: bool,
    after: SocketView,
)
    requires
        after == socket.attach(cid) || after == socket.prune() || after == socket.retire(id)
            || after == socket.unqueue(id, len) || after == socket.queue(index, len) || after
            == socket.mark_closed(id) || after == socket.end_input(id, inside_frame),
    ensures
        after.inbound == socket.inbound,
        after.write_pid == socket.write_pid,
        after.mid == socket.mid,
        after.write_shutdown == socket.write_shutdown,
        after.closing == socket.closing,
        after != socket.end_input(id, inside_frame) ==> after.truncated == socket.truncated,
        after != socket.attach(cid) ==> after.next_conn == socket.next_conn,
{
}

/// Packets that arrive change what has arrived, and nothing else about the socket.
pub proof fn law_arrivals_touch_only_the_stream(
    socket: SocketView,
    pid: u16,
    payload: Seq<u8>,
    packets: Seq<(u16, Seq<u8>)>,
)
    ensures
        socket.deliver(pid, payload).inbound == socket.inbound.deliver(pid, payload),
        socket.deliver_all(packets).inbound == socket.inbound.deliver_all(packets),
        socket.deliver(pid, payload) == (SocketView {
            inbound: socket.deliver(pid, payload).inbound,
            ..socket
        }),
        socket.deliver_all(packets) == (SocketView {
            inbound: socket.deliver_all(packets).inbound,
            ..socket
        }),
{
}

/// When a sub-connection ends, all the others that are alive carry on, each as it was and in their
/// order, and the socket closes if and only if there are none; `kept` tells where they stood. This
/// is also what the closing is said to have come to.
pub proof fn law_others_carry_on(socket: SocketView, id: u64, at: int) -> (kept: Seq<int>)
    requires
        socket.wf(),
        0 <= at < socket.conns.len(),
        socket.conns[at].id == id,
        socket.conns[at].alive,
    ensures
        ({
            let after = socket.mark_closed(id);
            &&& after.conns.len() == kept.len()
            &&& forall|i: int|
                0 <= i < kept.len() ==> 0 <= #[trigger] kept[i] < socket.conns.len() && kept[i]
                    != at && socket.conns[kept[i]].alive && after.conns[i]
                    == socket.conns[kept[i]]
            &&& forall|i: int, j: int|
                0 <= i < j < kept.len() ==> #[trigger] kept[i] < #[trigger] kept[j]
            &&& forall|k: int|
                0 <= k < socket.conns.len() && k != at && (#[trigger] socket.conns[k]).alive
                    ==> kept.contains(k)
            &&& after.closed <==> kept.len() == 0
            &&& socket.closing_of(id) == (if kept.len() == 0 {
                Closing::Last
            } else {
                Closing::Remaining
            })
        }),
{
    let retired = without_life(socket.conns, id);
    let kept = law_live_are_those_alive(retired);
    assert(socket.is_live(id));
    let after = socket.mark_closed(id);
    assert forall|i: int| 0 <= i < kept.len() implies 0 <= #[trigger] kept[i] < socket.conns.len()
        && kept[i] != at && socket.conns[kept[i]].alive && after.conns[i]
        == socket.conns[kept[i]] by {
        assert(retired[kept[i]].alive);
    }
    assert forall|k: int|
        0 <= k < socket.conns.len() && k != at
            && (#[trigger] socket.conns[k]).alive implies kept.contains(
        k,
    ) by {
        assert(socket.conns[k].id != socket.conns[at].id);
        assert(retired[k].alive);
    }
    kept
}

/// The end of a sub-connection that is not alive, or is none of the socket's, changes nothing.
pub proof fn law_only_the_living_end(socket: SocketView, id: u64)
    requires
        forall|i: int|
            0 <= i < socket.conns.len() && (#[trigger] socket.conns[i]).id == id
                ==> !socket.conns[i].alive,
    ensures
        socket.mark_closed(id) == socket,
        socket.closing_of(id) == Closing::Already,
{
}

/// When the bytes of a sub-connection end, it ends; and if that is inside a frame, and the socket
/// was not given up, the socket remembers it, whatever other sub-connections are left.
pub proof fn law_end_of_input_ends_the_connection(socket: SocketView, id: u64, inside_frame: bool)
    ensures
        ({
            let after = socket.end_input(id, inside_frame);
            let ended = socket.mark_closed(id);
            &&& after.truncated == (socket.truncated || (inside_frame && !socket.closing))
            &&& after.conns == ended.conns
            &&& after.closed == ended.closed
            &&& after.inbound == socket.inbound
            &&& after.write_pid == socket.write_pid
        }),
{
    let marked = SocketView {
        truncated: socket.truncated || (inside_frame && !socket.closing),
        ..socket
    };
    assert(marked.conns == socket.conns);
    assert(marked.is_live(id) == socket.is_live(id));
}

/// A new sub-connection comes last, alive, with nothing queued and under an id that no other ever
/// had; those that were there stay as they are, and the socket is open again.
pub proof fn law_new_connection_comes_last(socket: SocketView, cid: u16)
    requires
        socket.wf(),
        socket.next_conn < u64::MAX,
    ensures
        ({
            let after = socket.attach(cid);
            let fresh = after.conns[socket.conns.len() as int];
            &&& after.wf()
            &&& !after.closed
            &&& after.conns.len() == socket.conns.len() + 1
            &&& forall|i: int|
                0 <= i < socket.conns.len() ==> #[trigger] after.conns[i] == socket.conns[i]
                    && fresh.id != socket.conns[i].id
            &&& fresh.cid == cid
            &&& fresh.alive
            &&& fresh.queued_bytes == 0
            &&& fresh.id < after.next_conn
            &&& socket.next_conn < after.next_conn
            &&& after.is_live(fresh.id)
        }),
{
    let after = socket.attach(cid);
    let at = socket.conns.len() as int;
    assert(after.conns[at].id == socket.next_conn && after.conns[at].alive);
    assert forall|i: int| 0 <= i < socket.conns.len() implies #[trigger] after.conns[i]
        == socket.conns[i] && after.conns[at].id != socket.conns[i].id by {
        assert(socket.conns[i].id < socket.next_conn);
    }
}

/// A frame goes to a sub-connection that is alive and has no more bytes queued than any other that
/// is alive; of several such it is the one that came first.
pub proof fn law_frames_go_to_the_least_loaded(socket: SocketView, index: int)
    requires
        is_least_loaded(live(socket.conns), index),
    ensures
        ({
            let chosen = live(socket.conns)[index];
            &&& chosen.alive
            &&& exists|k: int|
                0 <= k < socket.conns.len() && #[trigger] socket.conns[k] == chosen && forall|
                    i: int,
                |
                    0 <= i < socket.conns.len() && (#[trigger] socket.conns[i]).alive
                        ==> chosen.queued_bytes < socket.conns[i].queued_bytes || (
                    chosen.queued_bytes == socket.conns[i].queued_bytes && k <= i)
        }),
{
    let kept = law_live_are_those_alive(socket.conns);
    let chosen = live(socket.conns)[index];
    let k = kept[index];
    assert(socket.conns[k] == chosen);
    assert forall|i: int| 0 <= i < socket.conns.len() && (#[trigger] socket.conns[i]).alive implies
        chosen.queued_bytes < socket.conns[i].queued_bytes || (chosen.queued_bytes
        == socket.conns[i].queued_bytes && k <= i) by {
        assert(kept.contains(i));
        let n = choose|n: int| 0 <= n < kept.len() && kept[n] == i;
        assert(live(socket.conns)[n] == socket.conns[i]);
        if n < index {
            assert(kept[n] < kept[index]);
        } else if index < n {
            assert(kept[index] < kept[n]);
        }
    }
}

/// Queueing a frame counts its bytes on the sub-connection that was chosen and on no other.
pub proof fn law_queue_counts_the_bytes(socket: SocketView, index: int, len: usize, other: int)
    requires
        0 <= index < socket.conns.len(),
        0 <= other < socket.conns.len(),
    ensures
        ({
            let before = socket.conns;
            let after = socket.queue(index, len).conns;
            &&& after.len() == before.len()
            &&& other != index ==> after[other] == before[other]
            &&& after[index].id == before[index].id
            &&& after[index].cid == before[index].cid
            &&& after[index].alive == before[index].alive
            &&& before[index].queued_bytes + len <= usize::MAX ==> after[index].queued_bytes
                == before[index].queued_bytes + len
            &&& socket.queue(index, len).closed == socket.closed
        }),
{
}

/// Bytes that were written are counted off the sub-connection that they were written to, and off no
/// other.
pub proof fn law_written_bytes_are_counted_off(socket: SocketView, id: u64, len: usize, at: int)
    requires
        0 <= at < socket.conns.len(),
    ensures
        ({
            let before = socket.conns;
            let after = socket.unqueue(id, len).conns;
            &&& after.len() == before.len()
            &&& before[at].id != id ==> after[at] == before[at]
            &&& after[at].id == before[at].id
            &&& after[at].cid == before[at].cid
            &&& after[at].alive == before[at].alive
            &&& before[at].id == id && before[at].queued_bytes >= len ==> after[at].queued_bytes
                == before[at].queued_bytes - len
            &&& socket.unqueue(id, len).closed == socket.closed
        }),
{
}

/// Ending the life of a sub-connection leaves all else about it, and all the others, as they are.
pub proof fn law_retiring_ends_one_life(socket: SocketView, id: u64, at: int)
    requires
        0 <= at < socket.conns.len(),
    ensures
        ({
            let before = socket.conns;
            let after = socket.retire(id).conns;
            &&& after.len() == before.len()
            &&& before[at].id != id ==> after[at] == before[at]
            &&& before[at].id == id ==> after[at] == (SubConn { alive: false, ..before[at] })
            &&& socket.retire(id).closed == socket.closed
        }),
{
}

/// Any two fresh sockets are in step: what one sends first is what the other waits for. Nothing can
/// be read from a fresh socket, and it is open.
pub proof fn law_fresh_sockets_are_in_step(mid: Option<u16>, other: Option<u16>)
    ensures
        SocketView::fresh(mid).mid == mid,
        SocketView::fresh(mid).write_pid == SocketView::fresh(other).inbound.pid,
        SocketView::fresh(mid).inbound.readable() == Seq::<u8>::empty(),
        SocketView::fresh(mid).wf(),
        SocketView::fresh(mid).conns.len() == 0,
        !SocketView::fresh(mid).closed,
        !SocketView::fresh(mid).closing,
        !SocketView::fresh(mid).write_shutdown,
        !SocketView::fresh(mid).truncated,
{
    assert(SocketView::fresh(mid).inbound.readable() =~= Seq::<u8>::empty());
}

/// What one socket writes the other reads: the packets of what a fresh socket writes, spread over
/// connections in any way and delivered in any order, make exactly the written bytes readable at
/// the other end.
pub proof fn law_written_bytes_are_read(
    sender: Option<u16>,
    receiver: Option<u16>,
    bytes: Seq<u8>,
    lanes: Seq<Seq<(u16, Seq<u8>)>>,
    arrivals: Seq<(u16, Seq<u8>)>,
)
    requires
        chunks_of(bytes).len() <= PID_COUNT,
        lanes.flatten().to_multiset() == packets_of(
            SocketView::fresh(sender).write_pid,
            bytes,
        ).to_multiset(),
        arrivals.to_multiset() == received(lanes).flatten().to_multiset(),
    ensures
        SocketView::fresh(receiver).deliver_all(arrivals).inbound.readable() == bytes,
{
    law_stream_arrives_over_connections(0, bytes, lanes, arrivals);
}

} // verus!
