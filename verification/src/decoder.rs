//! Cutting the bytes of one sub-connection into packets.
use crate::protocol::{try_parse_frame, HEADER_LEN};
#[allow(unused_imports)]
use crate::protocol::{
    announced_len, be16_value, first_frame, frame_bytes, has_frame, is_payload,
    law_frame_is_canonical, law_frame_is_stable, law_frame_round_trip,
};
use vstd::prelude::*;

verus! {

/// One packet of a multiplexed stream.
#[derive(Debug)]
pub struct Packet {
    pub pid: u16,
    pub payload: Vec<u8>,
}

impl View for Packet {
    type V = (u16, Seq<u8>);

    open spec fn view(&self) -> (u16, Seq<u8>) {
        (self.pid, self.payload@)
    }
}

pub open spec fn packet_views(packets: Seq<Packet>) -> Seq<(u16, Seq<u8>)> {
    packets.map_values(|packet: Packet| packet@)
}

/// The length of the whole frame that `buffer` begins with.
pub open spec fn head_len(buffer: Seq<u8>) -> int {
    HEADER_LEN + announced_len(buffer)
}

/// The packet in the whole frame that `buffer` begins with.
pub open spec fn head_packet(buffer: Seq<u8>) -> (u16, Seq<u8>) {
    (be16_value(buffer[2], buffer[3]), buffer.subrange(HEADER_LEN as int, head_len(buffer)))
}

/// The packets in the whole frames at the start of `buffer`.
pub open spec fn packets_in(buffer: Seq<u8>) -> Seq<(u16, Seq<u8>)>
    decreases buffer.len(),
{
    if has_frame(buffer) {
        seq![head_packet(buffer)] + packets_in(buffer.skip(head_len(buffer)))
    } else {
        Seq::empty()
    }
}

/// What follows the last whole frame at the start of `buffer`.
pub open spec fn leftover_of(buffer: Seq<u8>) -> Seq<u8>
    decreases buffer.len(),
{
    if has_frame(buffer) {
        leftover_of(buffer.skip(head_len(buffer)))
    } else {
        buffer
    }
}

/// The bytes by which a list of packets travels over one connection.
pub open spec fn wire_bytes(packets: Seq<(u16, Seq<u8>)>) -> Seq<u8>
    decreases packets.len(),
{
    if packets.len() == 0 {
        Seq::empty()
    } else {
        frame_bytes(packets[0].0, packets[0].1) + wire_bytes(packets.drop_first())
    }
}

/// The bytes of a sub-connection that do not make up a whole frame yet.
pub struct FrameDecoder {
    buffered: Vec<u8>,
}

impl View for FrameDecoder {
    type V = Seq<u8>;

    closed spec fn view(&self) -> Seq<u8> {
        self.buffered@
    }
}

impl FrameDecoder {
    pub fn new() -> (decoder: Self)
        ensures
            decoder@ == Seq::<u8>::empty(),
    {
        FrameDecoder { buffered: Vec::new() }
    }

    /// Takes in the next bytes of the connection and gives the packets that they complete.
    pub fn feed(&mut self, bytes: &[u8]) -> (packets: Vec<Packet>)
        ensures
            packet_views(packets@) == packets_in(old(self)@ + bytes@),
            final(self)@ == leftover_of(old(self)@ + bytes@),
    {
        let ghost total = old(self)@ + bytes@;
        self.buffered.extend_from_slice(bytes);
        assert(self.buffered@ =~= total);
        let mut packets: Vec<Packet> = Vec::new();
        let mut offset: usize = 0;
        assert(total.skip(0) =~= total);
        assert(packet_views(packets@) + packets_in(total.skip(0)) =~= packets_in(total));
        let end: usize = self.buffered.len();
        loop
            invariant_except_break
                self.buffered@ == total,
                end == total.len(),
                offset <= end,
                packet_views(packets@) + packets_in(total.skip(offset as int)) == packets_in(total),
                leftover_of(total.skip(offset as int)) == leftover_of(total),
            ensures
                self.buffered@ == total,
                offset <= end,
                end == total.len(),
                packet_views(packets@) == packets_in(total),
                total.skip(offset as int) == leftover_of(total),
            decreases end - offset,
        {
            let ghost rest = total.skip(offset as int);
            let view = &self.buffered.as_slice()[offset..end];
            assert(view@ =~= rest);
            match try_parse_frame(view) {
                Some((frame_len, pid, payload_len)) => {
                    let body = &view[HEADER_LEN..HEADER_LEN + payload_len];
                    let payload = vstd::slice::slice_to_vec(body);
                    let ghost before = packet_views(packets@);
                    packets.push(Packet { pid, payload });
                    proof {
                        assert(packet_views(packets@) =~= before.push(head_packet(rest)));
                        assert(rest.skip(head_len(rest)) =~= total.skip(offset + frame_len));
                        assert(packet_views(packets@) + packets_in(total.skip(offset + frame_len))
                            =~= before + packets_in(rest));
                    }
                    offset = offset + frame_len;
                },
                None => {
                    assert(packet_views(packets@) + packets_in(rest) =~= packet_views(packets@));
                    break;
                },
            }
        }
        if offset > 0 {
            let rest = self.buffered.split_off(offset);
            assert(rest@ =~= total.skip(offset as int));
            self.buffered = rest;
        } else {
            assert(total.skip(0) =~= total);
        }
        packets
    }

    /// The connection broke off inside a frame, should it end now.
    pub fn is_inside_frame(&self) -> (inside: bool)
        ensures
            inside == (self@.len() > 0),
    {
        self.buffered.len() > 0
    }
}

/// What is kept back is never a whole frame.
pub proof fn law_leftover_is_partial(buffer: Seq<u8>)
    ensures
        !has_frame(leftover_of(buffer)),
        packets_in(leftover_of(buffer)) == Seq::<(u16, Seq<u8>)>::empty(),
        leftover_of(leftover_of(buffer)) == leftover_of(buffer),
    decreases buffer.len(),
{
    if has_frame(buffer) {
        law_leftover_is_partial(buffer.skip(head_len(buffer)));
    }
}

/// How the bytes of a connection are cut up on arrival makes no difference: feeding two
/// pieces one after the other gives the packets, and keeps back the bytes, of their whole.
pub proof fn law_feed_in_pieces(first: Seq<u8>, second: Seq<u8>)
    ensures
        packets_in(first + second) == packets_in(first) + packets_in(leftover_of(first) + second),
        leftover_of(first + second) == leftover_of(leftover_of(first) + second),
    decreases first.len(),
{
    if has_frame(first) {
        let n = head_len(first);
        law_frame_is_stable(first, second);
        assert((first + second).skip(n) =~= first.skip(n) + second);
        assert(head_packet(first + second).1 =~= head_packet(first).1);
        law_feed_in_pieces(first.skip(n), second);
        assert(packets_in(first + second) =~= packets_in(first) + packets_in(
            leftover_of(first) + second,
        ));
    } else {
        assert(packets_in(first) + packets_in(first + second) =~= packets_in(first + second));
    }
}

/// Every byte of a connection is accounted for: the packets that were found, framed again, followed
/// by what is kept back are the bytes that arrived.
pub proof fn law_every_byte_is_accounted_for(buffer: Seq<u8>)
    ensures
        wire_bytes(packets_in(buffer)) + leftover_of(buffer) == buffer,
        forall|i: int|
            0 <= i < packets_in(buffer).len() ==> is_payload((#[trigger] packets_in(buffer)[i]).1),
    decreases buffer.len(),
{
    if has_frame(buffer) {
        let n = head_len(buffer);
        let rest = buffer.skip(n);
        let head = head_packet(buffer);
        let more = packets_in(rest);
        law_every_byte_is_accounted_for(rest);
        law_frame_is_canonical(buffer);
        lemma_wire_of_one_more(head, more);
        lemma_sum_of_three(buffer.take(n), wire_bytes(more), leftover_of(rest));
        assert(buffer.take(n) + rest =~= buffer);
    } else {
        assert(wire_bytes(packets_in(buffer)) + leftover_of(buffer) =~= buffer);
    }
}

proof fn lemma_wire_of_one_more(head: (u16, Seq<u8>), more: Seq<(u16, Seq<u8>)>)
    ensures
        wire_bytes(seq![head] + more) == frame_bytes(head.0, head.1) + wire_bytes(more),
{
    assert((seq![head] + more).drop_first() =~= more);
}

proof fn lemma_sum_of_three(a: Seq<u8>, b: Seq<u8>, c: Seq<u8>)
    ensures
        (a + b) + c == a + (b + c),
{
    assert((a + b) + c =~= a + (b + c));
}

/// The packets that were framed at one end of a connection come out at the other, each
/// unchanged and in the order in which they were sent, with nothing left over.
pub proof fn law_wire_round_trip(packets: Seq<(u16, Seq<u8>)>)
    requires
        forall|i: int| 0 <= i < packets.len() ==> is_payload(#[trigger] packets[i].1),
    ensures
        packets_in(wire_bytes(packets)) == packets,
        leftover_of(wire_bytes(packets)) == Seq::<u8>::empty(),
    decreases packets.len(),
{
    if packets.len() > 0 {
        let (pid, payload) = packets[0];
        let rest = wire_bytes(packets.drop_first());
        let buffer = wire_bytes(packets);
        law_frame_round_trip(pid, payload, rest);
        assert(is_payload(packets[0].1));
        assert(first_frame(buffer) is Some);
        assert(buffer.skip(head_len(buffer)) =~= rest);
        assert(head_packet(buffer) == packets[0]);
        assert forall|i: int| 0 <= i < packets.drop_first().len() implies is_payload(
            #[trigger] packets.drop_first()[i].1,
        ) by {
            assert(is_payload(packets[i + 1].1));
        }
        law_wire_round_trip(packets.drop_first());
        assert(packets_in(buffer) =~= packets);
    } else {
        assert(packets_in(wire_bytes(packets)) =~= packets);
    }
}

} // verus!
