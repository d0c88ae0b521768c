//! The stream that the packets make up, whatever order they arrive in.
//!
//! Everything here is specification: the model of a socket's receiving side, how written
//! bytes are cut into packets, and the laws that tie the two together.
#[allow(unused_imports)]
use crate::decoder::{law_wire_round_trip, packets_in, wire_bytes};
#[allow(unused_imports)]
use crate::protocol::{is_payload, law_pids_count_up, next_pid_spec, pid_at, MAX_FRAME_PAYLOAD};
use vstd::prelude::*;

verus! {

/// The number of packet ids there are.
pub const PID_COUNT: u32 = 65536;

/// The receiving side of a socket: the id of the packet that is due next, the packets that
/// arrived ahead of their turn, and the unread rest of the packets whose turn has come.
#[verifier::ext_equal]
pub struct Inbound {
    pub pid: u16,
    pub packages: Map<u16, Seq<u8>>,
    pub cache: Seq<u8>,
}

pub open spec fn min_len(a: int, b: int) -> int {
    if a <= b {
        a
    } else {
        b
    }
}

/// Every set of packet ids is finite.
pub proof fn lemma_pid_set_finite(pids: Set<u16>)
    ensures
        pids.finite(),
{
    <u16 as vstd::set_lib::FiniteFull>::full_properties();
    assert(pids.subset_of(Set::<u16>::full()));
    vstd::set_lib::lemma_set_subset_finite(Set::<u16>::full(), pids);
}

/// The payloads that can be read one after the other, from packet `pid` on.
pub open spec fn in_order(packages: Map<u16, Seq<u8>>, pid: u16) -> Seq<u8>
    decreases packages.dom().len(),
{
    if packages.contains_key(pid) {
        proof {
            lemma_pid_set_finite(packages.dom());
        }
        packages[pid] + in_order(packages.remove(pid), next_pid_spec(pid))
    } else {
        Seq::empty()
    }
}

impl Inbound {
    /// Nothing has arrived, and packet `pid` is due.
    pub open spec fn fresh(pid: u16) -> Inbound {
        Inbound { pid, packages: Map::empty(), cache: Seq::empty() }
    }

    /// A packet arrives. Of two packets with one id, the first to arrive is kept.
    pub open spec fn deliver(self, pid: u16, payload: Seq<u8>) -> Inbound {
        if self.packages.contains_key(pid) {
            self
        } else {
            Inbound { packages: self.packages.insert(pid, payload), ..self }
        }
    }

    /// Packets arrive one after the other.
    pub open spec fn deliver_all(self, packets: Seq<(u16, Seq<u8>)>) -> Inbound
        decreases packets.len(),
    {
        if packets.len() == 0 {
            self
        } else {
            self.deliver_all(packets.drop_last()).deliver(packets.last().0, packets.last().1)
        }
    }

    /// The packet that is due has arrived.
    pub open spec fn is_due(self) -> bool {
        self.packages.contains_key(self.pid)
    }

    /// Takes up the packet that is due.
    pub open spec fn advance(self) -> Inbound {
        Inbound {
            pid: next_pid_spec(self.pid),
            packages: self.packages.remove(self.pid),
            cache: self.packages[self.pid],
        }
    }

    /// Takes up packets in their turn, until there is something to read or the packet that
    /// is due has not arrived.
    pub open spec fn refill(self) -> Inbound
        decreases self.packages.dom().len(),
    {
        if self.cache.len() == 0 && self.is_due() {
            proof {
                lemma_pid_set_finite(self.packages.dom());
            }
            self.advance().refill()
        } else {
            self
        }
    }

    /// What a read into `want` bytes gives.
    pub open spec fn read_bytes(self, want: int) -> Seq<u8> {
        let full = self.refill();
        full.cache.take(min_len(full.cache.len() as int, want))
    }

    /// What a read into `want` bytes leaves.
    pub open spec fn after_read(self, want: int) -> Inbound {
        let full = self.refill();
        Inbound { cache: full.cache.skip(min_len(full.cache.len() as int, want)), ..full }
    }

    /// All that can be read before another packet arrives.
    pub open spec fn readable(self) -> Seq<u8> {
        self.cache + in_order(self.packages, self.pid)
    }

    /// Packet `pid` is kept, and is number `index` of the payloads that were sent.
    pub open spec fn keeps(self, start: u16, sent: Seq<Seq<u8>>, pid: u16, index: int) -> bool {
        &&& 0 <= index < sent.len()
        &&& pid == pid_at(start, index)
        &&& self.packages[pid] == sent[index]
    }

    /// The first `taken` of the payloads in `sent`, whose ids count up from `start`, have
    /// been taken up in their turn; every packet that is kept is one of the next round.
    pub open spec fn tracks(self, start: u16, sent: Seq<Seq<u8>>, taken: int) -> bool {
        &&& 0 <= taken <= sent.len()
        &&& self.pid == pid_at(start, taken)
        &&& forall|pid: u16| #[trigger]
            self.packages.contains_key(pid) ==> exists|index: int|
                taken <= index < taken + PID_COUNT && #[trigger] self.keeps(
                    start,
                    sent,
                    pid,
                    index,
                )
    }
}

/// The payloads that carry `bytes`: full ones, and a last one that may be shorter.
pub open spec fn chunks_of(bytes: Seq<u8>) -> Seq<Seq<u8>>
    decreases bytes.len(),
{
    if bytes.len() == 0 {
        Seq::empty()
    } else {
        let n = min_len(bytes.len() as int, MAX_FRAME_PAYLOAD as int);
        seq![bytes.take(n)] + chunks_of(bytes.skip(n))
    }
}

/// The packets by which a socket whose next packet id is `pid` sends `bytes`.
pub open spec fn packets_of(pid: u16, bytes: Seq<u8>) -> Seq<(u16, Seq<u8>)> {
    Seq::new(chunks_of(bytes).len(), |i: int| (pid_at(pid, i), chunks_of(bytes)[i]))
}

/// Written bytes are cut into payloads that frames can carry, and put together again the
/// payloads are the bytes. All but the last are as long as a frame's payload can be.
pub proof fn law_chunks_make_up_bytes(bytes: Seq<u8>)
    ensures
        chunks_of(bytes).flatten() == bytes,
        forall|i: int|
            0 <= i < chunks_of(bytes).len() ==> is_payload(#[trigger] chunks_of(bytes)[i]),
        forall|i: int|
            0 <= i < chunks_of(bytes).len() - 1 ==> (#[trigger] chunks_of(bytes)[i]).len()
                == MAX_FRAME_PAYLOAD,
    decreases bytes.len(),
{
    if bytes.len() > 0 {
        let n = min_len(bytes.len() as int, MAX_FRAME_PAYLOAD as int);
        let rest = bytes.skip(n);
        law_chunks_make_up_bytes(rest);
        let chunks = chunks_of(bytes);
        assert(chunks.drop_first() =~= chunks_of(rest));
        assert(chunks.first() == bytes.take(n));
        assert(bytes.take(n) + rest =~= bytes);
        assert forall|i: int| 0 <= i < chunks.len() implies is_payload(#[trigger] chunks[i]) by {
            if i > 0 {
                assert(chunks[i] == chunks_of(rest)[i - 1]);
            }
        }
        assert forall|i: int| 0 <= i < chunks.len() - 1 implies (#[trigger] chunks[i]).len()
            == MAX_FRAME_PAYLOAD by {
            if i > 0 {
                assert(chunks[i] == chunks_of(rest)[i - 1]);
            }
        }
    }
}

/// Taking up packets in their turn changes nothing about what can be read.
pub proof fn law_refill_keeps_readable(inbound: Inbound)
    ensures
        inbound.refill().readable() == inbound.readable(),
        inbound.refill().cache.len() == 0 ==> !inbound.refill().is_due(),
        inbound.cache.len() > 0 ==> inbound.refill() == inbound,
    decreases inbound.packages.dom().len(),
{
    if inbound.cache.len() == 0 && inbound.is_due() {
        lemma_pid_set_finite(inbound.packages.dom());
        let next = inbound.advance();
        law_refill_keeps_readable(next);
        assert(next.readable() =~= inbound.readable());
    }
}

/// A read hands out the front of what can be read and leaves the rest; it comes back empty
/// only where nothing can be read or nothing was asked for.
pub proof fn law_read_takes_front(inbound: Inbound, want: int)
    requires
        0 <= want,
    ensures
        inbound.read_bytes(want).len() <= want,
        inbound.readable() == inbound.read_bytes(want) + inbound.after_read(want).readable(),
        want > 0 && inbound.readable().len() > 0 ==> inbound.read_bytes(want).len() > 0,
{
    law_refill_keeps_readable(inbound);
    let full = inbound.refill();
    let n = min_len(full.cache.len() as int, want);
    assert(full.readable() =~= full.cache.take(n) + (full.cache.skip(n) + in_order(
        full.packages,
        full.pid,
    )));
    if full.cache.len() == 0 {
        assert(full.readable() =~= Seq::<u8>::empty());
    }
}

/// What taking up packets in their turn comes to: empty packets are passed over, the first that
/// is not empty fills the cache, and every other packet stays where it is.
proof fn lemma_refill_takes_up(inbound: Inbound) -> (taken: int)
    ensures
        ({
            let full = inbound.refill();
            &&& 0 <= taken
            &&& taken > 0 ==> inbound.cache.len() == 0
            &&& full.pid == pid_at(inbound.pid, taken)
            &&& full.cache == (if taken == 0 {
                inbound.cache
            } else {
                inbound.packages[pid_at(inbound.pid, taken - 1)]
            })
            &&& full.cache.len() == 0 ==> !full.packages.contains_key(full.pid)
            &&& forall|j: int|
                0 <= j < taken ==> inbound.packages.contains_key(#[trigger] pid_at(inbound.pid, j))
            &&& forall|j: int|
                0 <= j < taken - 1 ==> inbound.packages[#[trigger] pid_at(inbound.pid, j)].len()
                    == 0
            &&& forall|p: u16| #[trigger]
                full.packages.contains_key(p) <==> inbound.packages.contains_key(p) && (forall|
                    j: int,
                |
                    0 <= j < taken ==> p != #[trigger] pid_at(inbound.pid, j))
            &&& forall|p: u16|
                full.packages.contains_key(p) ==> #[trigger] full.packages[p]
                    == inbound.packages[p]
        }),
    decreases inbound.packages.dom().len(),
{
    if inbound.cache.len() == 0 && inbound.is_due() {
        lemma_pid_set_finite(inbound.packages.dom());
        let next = inbound.advance();
        let more = lemma_refill_takes_up(next);
        let taken = more + 1;
        let full = inbound.refill();
        assert(pid_at(inbound.pid, 0) == inbound.pid);
        assert forall|j: int| 0 <= j implies #[trigger] pid_at(next.pid, j) == pid_at(
            inbound.pid,
            j + 1,
        ) by {}
        assert forall|j: int| 0 < j < taken implies next.packages.contains_key(
            #[trigger] pid_at(inbound.pid, j),
        ) by {
            assert(pid_at(next.pid, j - 1) == pid_at(inbound.pid, j));
        }
        assert forall|j: int| 0 <= j < taken - 1 implies inbound.packages[#[trigger] pid_at(
            inbound.pid,
            j,
        )].len() == 0 by {
            if j == 0 {
                assert(next.cache.len() == 0);
            } else {
                assert(pid_at(next.pid, j - 1) == pid_at(inbound.pid, j));
            }
        }
        assert forall|p: u16| #[trigger]
            full.packages.contains_key(p) <==> inbound.packages.contains_key(p) && (forall|j: int|
                0 <= j < taken ==> p != #[trigger] pid_at(inbound.pid, j)) by {
            if inbound.packages.contains_key(p) && (forall|j: int|
                0 <= j < taken ==> p != #[trigger] pid_at(inbound.pid, j)) {
                assert(p != pid_at(inbound.pid, 0));
                assert forall|j: int| 0 <= j < more implies p != #[trigger] pid_at(next.pid, j) by {
                    assert(pid_at(next.pid, j) == pid_at(inbound.pid, j + 1));
                }
            }
            if full.packages.contains_key(p) {
                assert(next.packages.contains_key(p));
                assert forall|j: int| 0 <= j < taken implies p != #[trigger] pid_at(
                    inbound.pid,
                    j,
                ) by {
                    if j > 0 {
                        assert(pid_at(next.pid, j - 1) == pid_at(inbound.pid, j));
                    }
                }
            }
        }
        if more > 0 {
            assert(pid_at(next.pid, more - 1) == pid_at(inbound.pid, more));
        }
        taken
    } else {
        0
    }
}

/// What a read does, packet by packet. It takes up `taken` packets, the one that is due and those
/// that follow it by their ids: none while there is something left of the last one, and no more
/// than it takes to come to one that is not empty. It hands out as much of that one as there is
/// room for, keeps the rest of it, and leaves every other packet that has arrived untouched.
pub proof fn law_read_takes_up_in_turn(inbound: Inbound, want: int) -> (taken: int)
    requires
        0 <= want,
    ensures
        ({
            let data = inbound.read_bytes(want);
            let after = inbound.after_read(want);
            &&& 0 <= taken
            &&& taken > 0 ==> inbound.cache.len() == 0
            &&& after.pid == pid_at(inbound.pid, taken)
            &&& data + after.cache == (if taken == 0 {
                inbound.cache
            } else {
                inbound.packages[pid_at(inbound.pid, taken - 1)]
            })
            &&& data.len() <= want
            &&& data.len() < want ==> after.cache.len() == 0
            &&& want > 0 && data.len() == 0 ==> !after.packages.contains_key(after.pid)
            &&& forall|j: int|
                0 <= j < taken ==> inbound.packages.contains_key(#[trigger] pid_at(inbound.pid, j))
            &&& forall|j: int|
                0 <= j < taken - 1 ==> inbound.packages[#[trigger] pid_at(inbound.pid, j)].len()
                    == 0
            &&& forall|p: u16| #[trigger]
                after.packages.contains_key(p) <==> inbound.packages.contains_key(p) && (forall|
                    j: int,
                |
                    0 <= j < taken ==> p != #[trigger] pid_at(inbound.pid, j))
            &&& forall|p: u16|
                after.packages.contains_key(p) ==> #[trigger] after.packages[p]
                    == inbound.packages[p]
        }),
{
    let taken = lemma_refill_takes_up(inbound);
    let full = inbound.refill();
    assert(inbound.read_bytes(want) + inbound.after_read(want).cache =~= full.cache);
    taken
}

/// A packet that arrives waits under its id, unless one of that id is waiting already. The packets
/// that wait, the packet that is due and the rest of the last one stay as they are.
pub proof fn law_deliver_adds_one_packet(inbound: Inbound, pid: u16, payload: Seq<u8>, other: u16)
    ensures
        ({
            let after = inbound.deliver(pid, payload);
            &&& after.pid == inbound.pid
            &&& after.cache == inbound.cache
            &&& after.packages.contains_key(pid)
            &&& !inbound.packages.contains_key(pid) ==> after.packages[pid] == payload
            &&& inbound.packages.contains_key(other) ==> after.packages.contains_key(other)
                && after.packages[other] == inbound.packages[other]
            &&& after.packages.contains_key(other) && other != pid
                ==> inbound.packages.contains_key(other)
        }),
{
}

/// Of packets that arrive one after the other every one finds its place: afterwards a packet of
/// its id waits, and it is the one that was there before, or else the first of that id to arrive.
/// Nothing waits that neither waited before nor arrived.
pub proof fn law_every_packet_finds_its_place(
    inbound: Inbound,
    packets: Seq<(u16, Seq<u8>)>,
    other: u16,
)
    ensures
        ({
            let after = inbound.deliver_all(packets);
            &&& after.pid == inbound.pid
            &&& after.cache == inbound.cache
            &&& inbound.packages.contains_key(other) ==> after.packages.contains_key(other)
                && after.packages[other] == inbound.packages[other]
            &&& forall|k: int|
                0 <= k < packets.len() ==> after.packages.contains_key((#[trigger] packets[k]).0)
            &&& forall|k: int|
                0 <= k < packets.len() && (#[trigger] packets[k]).0 == other
                    && !inbound.packages.contains_key(other) && (forall|i: int|
                    0 <= i < k ==> (#[trigger] packets[i]).0 != other) ==> after.packages[other]
                    == packets[k].1
            &&& after.packages.contains_key(other) && !inbound.packages.contains_key(other)
                ==> exists|k: int| 0 <= k < packets.len() && (#[trigger] packets[k]).0 == other
        }),
    decreases packets.len(),
{
    if packets.len() > 0 {
        let init = packets.drop_last();
        let last = packets.last();
        let before = inbound.deliver_all(init);
        let after = inbound.deliver_all(packets);
        law_every_packet_finds_its_place(inbound, init, other);
        assert forall|k: int| 0 <= k < packets.len() implies after.packages.contains_key(
            (#[trigger] packets[k]).0,
        ) by {
            if k < init.len() {
                assert(before.packages.contains_key(init[k].0));
            }
        }
        assert forall|k: int|
            0 <= k < packets.len() && (#[trigger] packets[k]).0 == other
                && !inbound.packages.contains_key(other) && (forall|i: int|
                0 <= i < k ==> (#[trigger] packets[i]).0 != other) implies after.packages[other]
            == packets[k].1 by {
            if k < init.len() {
                assert(init[k] == packets[k]);
                assert forall|i: int| 0 <= i < k implies (#[trigger] init[i]).0 != other by {
                    assert(init[i] == packets[i]);
                }
                assert(before.packages.contains_key(init[k].0));
            } else if before.packages.contains_key(other) {
                let i = choose|i: int| 0 <= i < init.len() && (#[trigger] init[i]).0 == other;
                assert(packets[i].0 == other);
            }
        }
        if after.packages.contains_key(other) && !inbound.packages.contains_key(other) {
            if before.packages.contains_key(other) {
                let i = choose|i: int| 0 <= i < init.len() && (#[trigger] init[i]).0 == other;
                assert(packets[i].0 == other);
            } else {
                assert(packets[packets.len() - 1].0 == other);
            }
        }
    }
}

/// A packet that arrives only adds to the end of what can be read.
pub proof fn law_deliver_extends(inbound: Inbound, pid: u16, payload: Seq<u8>)
    ensures
        inbound.readable().is_prefix_of(inbound.deliver(pid, payload).readable()),
{
    if !inbound.packages.contains_key(pid) {
        lemma_in_order_grows(inbound.packages, inbound.pid, pid, payload);
    }
}

proof fn lemma_in_order_grows(packages: Map<u16, Seq<u8>>, at: u16, pid: u16, payload: Seq<u8>)
    requires
        !packages.contains_key(pid),
    ensures
        in_order(packages, at).is_prefix_of(in_order(packages.insert(pid, payload), at)),
    decreases packages.dom().len(),
{
    if packages.contains_key(at) {
        lemma_pid_set_finite(packages.dom());
        lemma_in_order_grows(packages.remove(at), next_pid_spec(at), pid, payload);
        assert(packages.insert(pid, payload).remove(at) =~= packages.remove(at).insert(
            pid,
            payload,
        ));
    }
}

/// Packets that arrive in two lots are packets that arrive in one.
pub proof fn law_deliver_in_lots(
    inbound: Inbound,
    first: Seq<(u16, Seq<u8>)>,
    second: Seq<(u16, Seq<u8>)>,
)
    ensures
        inbound.deliver_all(first + second) == inbound.deliver_all(first).deliver_all(second),
    decreases second.len(),
{
    if second.len() == 0 {
        assert(first + second =~= first);
    } else {
        law_deliver_in_lots(inbound, first, second.drop_last());
        assert((first + second).drop_last() =~= first + second.drop_last());
    }
}

/// Any packet of the next round may arrive, in any order and more than once, and the
/// receiving side stays in step with the sender.
pub proof fn law_deliver_stays_in_step(
    inbound: Inbound,
    start: u16,
    sent: Seq<Seq<u8>>,
    taken: int,
    index: int,
)
    requires
        inbound.tracks(start, sent, taken),
        taken <= index < sent.len(),
        index < taken + PID_COUNT,
    ensures
        inbound.deliver(pid_at(start, index), sent[index]).tracks(start, sent, taken),
{
    let fresh_pid = pid_at(start, index);
    let next = inbound.deliver(fresh_pid, sent[index]);
    if !inbound.packages.contains_key(fresh_pid) {
        assert forall|pid: u16| #[trigger] next.packages.contains_key(pid) implies exists|i: int|
            taken <= i < taken + PID_COUNT && #[trigger] next.keeps(start, sent, pid, i) by {
            if pid == fresh_pid {
                assert(next.keeps(start, sent, pid, index));
            } else {
                assert(inbound.packages.contains_key(pid));
                let i = choose|i: int|
                    taken <= i < taken + PID_COUNT && #[trigger] inbound.keeps(start, sent, pid, i);
                assert(next.keeps(start, sent, pid, i));
            }
        }
    }
}

/// The sender may go on sending, and the receiving side stays in step with it.
pub proof fn law_send_stays_in_step(
    inbound: Inbound,
    start: u16,
    sent: Seq<Seq<u8>>,
    taken: int,
    payload: Seq<u8>,
)
    requires
        inbound.tracks(start, sent, taken),
    ensures
        inbound.tracks(start, sent.push(payload), taken),
{
    let more = sent.push(payload);
    assert forall|pid: u16| #[trigger] inbound.packages.contains_key(pid) implies exists|i: int|
        taken <= i < taken + PID_COUNT && #[trigger] inbound.keeps(start, more, pid, i) by {
        let i = choose|i: int|
            taken <= i < taken + PID_COUNT && #[trigger] inbound.keeps(start, sent, pid, i);
        assert(inbound.keeps(start, more, pid, i));
    }
}

/// The packet that is due is the one that comes next in what was sent.
proof fn lemma_due_is_next(inbound: Inbound, start: u16, sent: Seq<Seq<u8>>, taken: int)
    requires
        inbound.tracks(start, sent, taken),
        inbound.is_due(),
    ensures
        taken < sent.len(),
        inbound.packages[inbound.pid] == sent[taken],
        inbound.advance().tracks(start, sent, taken + 1),
{
    let index = choose|i: int|
        taken <= i < taken + PID_COUNT && #[trigger] inbound.keeps(start, sent, inbound.pid, i);
    law_pids_count_up(start, index, taken);
    law_pids_count_up(start, taken, index);
    let next = inbound.advance();
    assert forall|pid: u16| #[trigger] next.packages.contains_key(pid) implies exists|i: int|
        taken + 1 <= i < taken + 1 + PID_COUNT && #[trigger] next.keeps(start, sent, pid, i) by {
        assert(inbound.packages.contains_key(pid));
        let i = choose|i: int|
            taken <= i < taken + PID_COUNT && #[trigger] inbound.keeps(start, sent, pid, i);
        assert(i != taken);
        assert(next.keeps(start, sent, pid, i));
    }
}

proof fn lemma_take_one_more(sent: Seq<Seq<u8>>, taken: int)
    requires
        0 <= taken < sent.len(),
    ensures
        sent.take(taken + 1).flatten() == sent.take(taken).flatten() + sent[taken],
{
    assert(sent.take(taken + 1) =~= sent.take(taken).push(sent[taken]));
    sent.take(taken).lemma_flatten_push(sent[taken]);
}

proof fn lemma_refill_stays_in_step(
    inbound: Inbound,
    start: u16,
    sent: Seq<Seq<u8>>,
    taken: int,
    handed: Seq<u8>,
) -> (now_taken: int)
    requires
        inbound.tracks(start, sent, taken),
        handed + inbound.cache == sent.take(taken).flatten(),
    ensures
        taken <= now_taken,
        inbound.refill().tracks(start, sent, now_taken),
        handed + inbound.refill().cache == sent.take(now_taken).flatten(),
    decreases inbound.packages.dom().len(),
{
    if inbound.cache.len() == 0 && inbound.is_due() {
        lemma_pid_set_finite(inbound.packages.dom());
        lemma_due_is_next(inbound, start, sent, taken);
        lemma_take_one_more(sent, taken);
        assert(handed + inbound.cache =~= handed);
        lemma_refill_stays_in_step(inbound.advance(), start, sent, taken + 1, handed)
    } else {
        taken
    }
}

/// As long as the receiving side is in step, what has been handed to the reader is a front
/// part of what was sent: nothing is lost, repeated or out of order. A read keeps it in step.
pub proof fn law_read_follows_sender(
    inbound: Inbound,
    start: u16,
    sent: Seq<Seq<u8>>,
    taken: int,
    handed: Seq<u8>,
    want: int,
) -> (now_taken: int)
    requires
        inbound.tracks(start, sent, taken),
        handed + inbound.cache == sent.take(taken).flatten(),
        0 <= want,
    ensures
        taken <= now_taken,
        inbound.after_read(want).tracks(start, sent, now_taken),
        handed + inbound.read_bytes(want) + inbound.after_read(want).cache == sent.take(
            now_taken,
        ).flatten(),
        (handed + inbound.read_bytes(want)).is_prefix_of(sent.flatten()),
{
    let now_taken = lemma_refill_stays_in_step(inbound, start, sent, taken, handed);
    let full = inbound.refill();
    let next = inbound.after_read(want);
    assert forall|pid: u16| #[trigger] next.packages.contains_key(pid) implies exists|i: int|
        now_taken <= i < now_taken + PID_COUNT && #[trigger] next.keeps(start, sent, pid, i) by {
        assert(full.packages.contains_key(pid));
        let i = choose|i: int|
            now_taken <= i < now_taken + PID_COUNT && #[trigger] full.keeps(start, sent, pid, i);
        assert(next.keeps(start, sent, pid, i));
    }
    assert(handed + inbound.read_bytes(want) + next.cache =~= handed + full.cache);
    assert(sent =~= sent.take(now_taken) + sent.skip(now_taken));
    vstd::seq_lib::lemma_flatten_concat(sent.take(now_taken), sent.skip(now_taken));
    now_taken
}

/// Once every packet has arrived that was sent and not taken up yet, all that was sent can be
/// read.
pub proof fn law_all_arrived_is_readable(
    inbound: Inbound,
    start: u16,
    sent: Seq<Seq<u8>>,
    taken: int,
)
    requires
        inbound.tracks(start, sent, taken),
        sent.len() <= taken + PID_COUNT,
        forall|i: int|
            taken <= i < sent.len() ==> inbound.packages.contains_key(#[trigger] pid_at(start, i)),
    ensures
        inbound.readable() == inbound.cache + sent.skip(taken).flatten(),
    decreases sent.len() - taken,
{
    if taken == sent.len() {
        if inbound.is_due() {
            lemma_due_is_next(inbound, start, sent, taken);
        }
        assert(sent.skip(taken) =~= Seq::<Seq<u8>>::empty());
    } else {
        assert(inbound.packages.contains_key(pid_at(start, taken)));
        lemma_due_is_next(inbound, start, sent, taken);
        let next = inbound.advance();
        assert forall|i: int| taken + 1 <= i < sent.len() implies next.packages.contains_key(
            #[trigger] pid_at(start, i),
        ) by {
            law_pids_count_up(start, i, taken);
        }
        law_all_arrived_is_readable(next, start, sent, taken + 1);
        assert(next.cache + in_order(next.packages, next.pid) == next.cache + sent.skip(
            taken + 1,
        ).flatten());
        lemma_same_tail(
            next.cache,
            in_order(next.packages, next.pid),
            sent.skip(taken + 1).flatten(),
        );
        assert(sent.skip(taken).drop_first() =~= sent.skip(taken + 1));
        assert(sent.skip(taken).first() == sent[taken]);
    }
}

proof fn lemma_same_tail(head: Seq<u8>, a: Seq<u8>, b: Seq<u8>)
    requires
        head + a == head + b,
    ensures
        a == b,
{
    assert((head + a).skip(head.len() as int) =~= a);
    assert((head + b).skip(head.len() as int) =~= b);
}

/// `packet` is one of the payloads in `sent`, under its own id.
pub open spec fn is_sent(start: u16, sent: Seq<Seq<u8>>, packet: (u16, Seq<u8>)) -> bool {
    exists|i: int|
        0 <= i < sent.len() && packet.0 == #[trigger] pid_at(start, i) && packet.1 == sent[i]
}

proof fn lemma_deliver_all_in_step(
    start: u16,
    sent: Seq<Seq<u8>>,
    arrivals: Seq<(u16, Seq<u8>)>,
)
    requires
        sent.len() <= PID_COUNT,
        forall|k: int| 0 <= k < arrivals.len() ==> is_sent(start, sent, #[trigger] arrivals[k]),
    ensures
        ({
            let inbound = Inbound::fresh(start).deliver_all(arrivals);
            &&& inbound.tracks(start, sent, 0)
            &&& inbound.cache.len() == 0
            &&& forall|k: int|
                0 <= k < arrivals.len() ==> inbound.packages.contains_key(
                    (#[trigger] arrivals[k]).0,
                )
        }),
    decreases arrivals.len(),
{
    if arrivals.len() > 0 {
        let init = arrivals.drop_last();
        assert forall|k: int| 0 <= k < init.len() implies is_sent(start, sent, #[trigger] init[k]) by {
            assert(init[k] == arrivals[k]);
        }
        lemma_deliver_all_in_step(start, sent, init);
        let before = Inbound::fresh(start).deliver_all(init);
        let last = arrivals.last();
        assert(is_sent(start, sent, last));
        let i = choose|i: int|
            0 <= i < sent.len() && last.0 == #[trigger] pid_at(start, i) && last.1 == sent[i];
        law_deliver_stays_in_step(before, start, sent, 0, i);
        let inbound = Inbound::fresh(start).deliver_all(arrivals);
        assert forall|k: int| 0 <= k < arrivals.len() implies inbound.packages.contains_key(
            (#[trigger] arrivals[k]).0,
        ) by {
            if k < init.len() {
                assert(before.packages.contains_key(init[k].0));
            }
        }
    }
}

/// The stream arrives: the packets of what was written, delivered in any order whatever,
/// make exactly the written bytes readable. There may be no more of them than there are
/// packet ids.
pub proof fn law_stream_arrives(start: u16, bytes: Seq<u8>, arrivals: Seq<(u16, Seq<u8>)>)
    requires
        chunks_of(bytes).len() <= PID_COUNT,
        arrivals.to_multiset() == packets_of(start, bytes).to_multiset(),
    ensures
        Inbound::fresh(start).deliver_all(arrivals).readable() == bytes,
{
    let sent = chunks_of(bytes);
    let packets = packets_of(start, bytes);
    assert forall|k: int| 0 <= k < arrivals.len() implies is_sent(
        start,
        sent,
        #[trigger] arrivals[k],
    ) by {
        vstd::seq_lib::to_multiset_contains(arrivals, arrivals[k]);
        vstd::seq_lib::to_multiset_contains(packets, arrivals[k]);
        assert(packets.contains(arrivals[k]));
        let i = choose|i: int| 0 <= i < packets.len() && packets[i] == arrivals[k];
        assert(pid_at(start, i) == packets[i].0);
    }
    lemma_deliver_all_in_step(start, sent, arrivals);
    let inbound = Inbound::fresh(start).deliver_all(arrivals);
    assert forall|i: int| 0 <= i < sent.len() implies inbound.packages.contains_key(
        #[trigger] pid_at(start, i),
    ) by {
        vstd::seq_lib::to_multiset_contains(packets, packets[i]);
        vstd::seq_lib::to_multiset_contains(arrivals, packets[i]);
        assert(arrivals.contains(packets[i]));
        let k = choose|k: int| 0 <= k < arrivals.len() && arrivals[k] == packets[i];
        assert(inbound.packages.contains_key(arrivals[k].0));
    }
    law_all_arrived_is_readable(inbound, start, sent, 0);
    law_chunks_make_up_bytes(bytes);
    assert(sent.skip(0) =~= sent);
    assert(inbound.readable() =~= bytes);
}

/// Sending goes turn by turn: the packets of some bytes are the one that carries the front
/// of them under the next id, followed by the packets of the rest under the ids after it.
pub proof fn law_packets_turn_by_turn(pid: u16, bytes: Seq<u8>)
    ensures
        bytes.len() == 0 ==> packets_of(pid, bytes) == Seq::<(u16, Seq<u8>)>::empty(),
        bytes.len() > 0 ==> ({
            let n = min_len(bytes.len() as int, MAX_FRAME_PAYLOAD as int);
            packets_of(pid, bytes) == seq![(pid, bytes.take(n))] + packets_of(
                next_pid_spec(pid),
                bytes.skip(n),
            )
        }),
{
    if bytes.len() > 0 {
        let n = min_len(bytes.len() as int, MAX_FRAME_PAYLOAD as int);
        let rest = packets_of(next_pid_spec(pid), bytes.skip(n));
        assert(packets_of(pid, bytes) =~= seq![(pid, bytes.take(n))] + rest);
    } else {
        assert(packets_of(pid, bytes) =~= Seq::empty());
    }
}

/// The packets that come out of the bytes of each connection.
pub open spec fn received(lanes: Seq<Seq<(u16, Seq<u8>)>>) -> Seq<Seq<(u16, Seq<u8>)>> {
    lanes.map_values(|lane: Seq<(u16, Seq<u8>)>| packets_in(wire_bytes(lane)))
}

/// The stream arrives over any number of connections: however the packets of what was
/// written are spread over connections, and in whatever order the packets that come out of
/// the connections' bytes are delivered, exactly the written bytes become readable.
pub proof fn law_stream_arrives_over_connections(
    start: u16,
    bytes: Seq<u8>,
    lanes: Seq<Seq<(u16, Seq<u8>)>>,
    arrivals: Seq<(u16, Seq<u8>)>,
)
    requires
        chunks_of(bytes).len() <= PID_COUNT,
        lanes.flatten().to_multiset() == packets_of(start, bytes).to_multiset(),
        arrivals.to_multiset() == received(lanes).flatten().to_multiset(),
    ensures
        Inbound::fresh(start).deliver_all(arrivals).readable() == bytes,
{
    let packets = packets_of(start, bytes);
    assert forall|l: int| 0 <= l < lanes.len() implies #[trigger] received(lanes)[l]
        == lanes[l] by {
        let lane = lanes[l];
        assert forall|i: int| 0 <= i < lane.len() implies is_payload(#[trigger] lane[i].1) by {
            lemma_flatten_contains(lanes, l, i);
            vstd::seq_lib::to_multiset_contains(lanes.flatten(), lane[i]);
            vstd::seq_lib::to_multiset_contains(packets, lane[i]);
            let k = choose|k: int| 0 <= k < packets.len() && packets[k] == lane[i];
            law_chunks_make_up_bytes(bytes);
            assert(is_payload(chunks_of(bytes)[k]));
        }
        law_wire_round_trip(lane);
    }
    assert(received(lanes) =~= lanes);
    law_stream_arrives(start, bytes, arrivals);
}

proof fn lemma_flatten_contains(lanes: Seq<Seq<(u16, Seq<u8>)>>, lane: int, at: int)
    requires
        0 <= lane < lanes.len(),
        0 <= at < lanes[lane].len(),
    ensures
        lanes.flatten().contains(lanes[lane][at]),
    decreases lanes.len(),
{
    let rest = lanes.drop_first();
    if lane == 0 {
        assert(lanes.flatten()[at] == lanes[0][at]);
    } else {
        assert(rest[lane - 1] == lanes[lane]);
        lemma_flatten_contains(rest, lane - 1, at);
        let k = choose|k: int|
            0 <= k < rest.flatten().len() && rest.flatten()[k] == lanes[lane][at];
        assert(lanes.flatten()[lanes[0].len() + k] == lanes[lane][at]);
    }
}

} // verus!
