//! The wire format: the login header and the frame.
//!
//! A login is four bytes, `cid + 100` and `mid`; a frame is a four byte header, the payload's
//! length less one and the packet id, followed by the payload. Numbers are big-endian.
use crate::error::MtcpError;
use vstd::prelude::*;

verus! {

pub const HEADER_LEN: usize = 4;

pub const MAX_FRAME_PAYLOAD: usize = 65_536;

/// What a login adds to the connection id that it answers.
pub const LOGIN_OFFSET: u16 = 100;

/// A number below 2^16 as two bytes, the high one first.
pub open spec fn be16(value: int) -> Seq<u8> {
    seq![(value / 256) as u8, (value % 256) as u8]
}

/// The number that two bytes stand for, the high one first.
pub open spec fn be16_value(high: u8, low: u8) -> u16 {
    (high * 256 + low) as u16
}

pub open spec fn next_pid_spec(pid: u16) -> u16 {
    ((pid + 1) % 65536) as u16
}

pub open spec fn login_bytes(cid: u16, mid: u16) -> Seq<u8> {
    be16(cid + LOGIN_OFFSET) + be16(mid as int)
}

/// What four login bytes say to whoever handed out `expected_cid`.
pub open spec fn login_answer(bytes: Seq<u8>, expected_cid: u16) -> Result<u16, MtcpError> {
    if be16_value(bytes[0], bytes[1]) == expected_cid + LOGIN_OFFSET {
        Ok(be16_value(bytes[2], bytes[3]))
    } else {
        Err(MtcpError::InvalidLogin)
    }
}

/// The packet id that comes `count` steps after `start`.
pub open spec fn pid_at(start: u16, count: int) -> u16 {
    ((start + count) % 65536) as u16
}

/// A payload that one frame can carry.
pub open spec fn is_payload(payload: Seq<u8>) -> bool {
    1 <= payload.len() <= MAX_FRAME_PAYLOAD
}

pub open spec fn frame_bytes(pid: u16, payload: Seq<u8>) -> Seq<u8> {
    be16(payload.len() - 1) + be16(pid as int) + payload
}

/// The payload length that the first header of `buffer` announces.
pub open spec fn announced_len(buffer: Seq<u8>) -> int {
    be16_value(buffer[0], buffer[1]) + 1
}

/// `buffer` begins with a whole frame.
pub open spec fn has_frame(buffer: Seq<u8>) -> bool {
    buffer.len() >= HEADER_LEN && buffer.len() >= HEADER_LEN + announced_len(buffer)
}

/// The first frame of `buffer`: its length, its packet id and its payload's length.
pub open spec fn first_frame(buffer: Seq<u8>) -> Option<(int, u16, int)> {
    if has_frame(buffer) {
        Some(
            (
                HEADER_LEN + announced_len(buffer),
                be16_value(buffer[2], buffer[3]),
                announced_len(buffer),
            ),
        )
    } else {
        None
    }
}

/// The packet id that follows `pid`, back to zero after the largest.
pub fn next_pid(pid: u16) -> (next: u16)
    ensures
        next == next_pid_spec(pid),
{
    pid.wrapping_add(1)
}

/// A number as two big-endian bytes.
pub fn encode_u16(value: u16) -> (bytes: [u8; 2])
    ensures
        bytes@ == be16(value as int),
{
    [(value / 256) as u8, (value % 256) as u8]
}

/// The number in two big-endian bytes.
pub fn decode_u16(bytes: [u8; 2]) -> (value: u16)
    ensures
        value == be16_value(bytes[0], bytes[1]),
{
    bytes[0] as u16 * 256 + bytes[1] as u16
}

/// The login by which a client answers the connection id `cid` and names its socket `mid`.
pub fn encode_login(cid: u16, mid: u16) -> (bytes: [u8; 4])
    requires
        cid + LOGIN_OFFSET <= u16::MAX,
    ensures
        bytes@ == login_bytes(cid, mid),
{
    let head = encode_u16(cid + LOGIN_OFFSET);
    let tail = encode_u16(mid);
    [head[0], head[1], tail[0], tail[1]]
}

/// Checks that a login answers `expected_cid`, and gives the socket that it names.
pub fn parse_login(bytes: [u8; 4], expected_cid: u16) -> (result: Result<u16, MtcpError>)
    requires
        expected_cid + LOGIN_OFFSET <= u16::MAX,
    ensures
        result == login_answer(bytes@, expected_cid),
{
    let login: u16 = decode_u16([bytes[0], bytes[1]]);
    if login != expected_cid + LOGIN_OFFSET {
        return Err(MtcpError::InvalidLogin);
    }
    Ok(decode_u16([bytes[2], bytes[3]]))
}

/// The frame that carries `payload` as packet `pid`.
pub fn encode_frame(pid: u16, payload: &[u8]) -> (frame: Vec<u8>)
    requires
        is_payload(payload@),
    ensures
        frame@ == frame_bytes(pid, payload@),
{
    let mut frame: Vec<u8> = Vec::with_capacity(HEADER_LEN + payload.len());
    let size = encode_u16((payload.len() - 1) as u16);
    let id = encode_u16(pid);
    frame.push(size[0]);
    frame.push(size[1]);
    frame.push(id[0]);
    frame.push(id[1]);
    frame.extend_from_slice(payload);
    frame
}

/// Looks for a whole frame at the start of `buffer`, and gives its length, its packet id and
/// its payload's length.
pub fn try_parse_frame(buffer: &[u8]) -> (result: Option<(usize, u16, usize)>)
    ensures
        match result {
            Some((frame_len, pid, payload_len)) => first_frame(buffer@) == Some(
                (frame_len as int, pid, payload_len as int),
            ),
            None => first_frame(buffer@) is None,
        },
{
    if buffer.len() < HEADER_LEN {
        return None;
    }
    let payload_len: usize = decode_u16([buffer[0], buffer[1]]) as usize + 1;
    let frame_len: usize = HEADER_LEN + payload_len;
    if buffer.len() < frame_len {
        return None;
    }
    let pid: u16 = decode_u16([buffer[2], buffer[3]]);
    Some((frame_len, pid, payload_len))
}

/// Numbers travel as two bytes, of which the first counts for 256 times the second. Any two bytes
/// stand for a number, and none for two.
pub proof fn law_numbers_are_big_endian(value: int, high: u8, low: u8)
    requires
        0 <= value < 65536,
    ensures
        be16(value).len() == 2,
        256 * be16(value)[0] + be16(value)[1] == value,
        be16_value(high, low) == 256 * high + low,
        be16_value(be16(value)[0], be16(value)[1]) == value,
        be16(be16_value(high, low) as int) == seq![high, low],
{
    assert(be16(be16_value(high, low) as int) =~= seq![high, low]);
}

/// A login says in its first number the connection id that it answers, raised by a hundred, and in
/// its second the socket; and any four bytes are taken at their word.
pub proof fn law_login_on_the_wire(cid: u16, mid: u16, bytes: Seq<u8>, expected_cid: u16)
    requires
        cid + 100 <= u16::MAX,
        expected_cid + 100 <= u16::MAX,
        bytes.len() == 4,
    ensures
        ({
            let login = login_bytes(cid, mid);
            &&& login.len() == 4
            &&& 256 * login[0] + login[1] == cid + 100
            &&& 256 * login[2] + login[3] == mid
        }),
        login_answer(bytes, expected_cid) == (if 256 * bytes[0] + bytes[1] == expected_cid + 100 {
            Ok::<u16, MtcpError>((256 * bytes[2] + bytes[3]) as u16)
        } else {
            Err::<u16, MtcpError>(MtcpError::InvalidLogin)
        }),
{
}

/// A frame says in its first number how long its payload is, less one, and in its second which
/// packet it is; the payload follows, and nothing after it.
pub proof fn law_frame_on_the_wire(pid: u16, payload: Seq<u8>)
    requires
        1 <= payload.len() <= 65536,
    ensures
        ({
            let frame = frame_bytes(pid, payload);
            &&& is_payload(payload)
            &&& frame.len() == 4 + payload.len()
            &&& 256 * frame[0] + frame[1] == payload.len() - 1
            &&& 256 * frame[2] + frame[3] == pid
            &&& frame.skip(4) == payload
        }),
{
    let frame = frame_bytes(pid, payload);
    assert(frame.skip(4) =~= payload);
}

/// Packet ids are counted one by one, and zero follows the largest.
pub proof fn law_next_pid_is_one_more(pid: u16, count: int)
    requires
        0 <= count,
    ensures
        pid < u16::MAX ==> next_pid_spec(pid) == pid + 1,
        pid == u16::MAX ==> next_pid_spec(pid) == 0,
        pid + count <= u16::MAX ==> pid_at(pid, count) == pid + count,
{
}

/// A login is accepted by whoever handed out its connection id, and by nobody else; the
/// socket that it names comes back unchanged.
pub proof fn law_login_round_trip(cid: u16, mid: u16, expected_cid: u16)
    requires
        cid + LOGIN_OFFSET <= u16::MAX,
        expected_cid + LOGIN_OFFSET <= u16::MAX,
    ensures
        login_bytes(cid, mid).len() == HEADER_LEN,
        login_answer(login_bytes(cid, mid), expected_cid) == (if cid == expected_cid {
            Ok::<u16, MtcpError>(mid)
        } else {
            Err::<u16, MtcpError>(MtcpError::InvalidLogin)
        }),
{
}

/// A frame followed by anything at all is found whole, with the id and the payload that it
/// was made from.
pub proof fn law_frame_round_trip(pid: u16, payload: Seq<u8>, rest: Seq<u8>)
    requires
        is_payload(payload),
    ensures
        first_frame(frame_bytes(pid, payload) + rest) == Some(
            (HEADER_LEN + payload.len(), pid, payload.len() as int),
        ),
        frame_bytes(pid, payload).len() == HEADER_LEN + payload.len(),
        (frame_bytes(pid, payload) + rest).subrange(
            HEADER_LEN as int,
            HEADER_LEN + payload.len(),
        ) == payload,
{
    let size = payload.len() - 1;
    let buffer = frame_bytes(pid, payload) + rest;
    assert(buffer[0] == (size / 256) as u8 && buffer[1] == (size % 256) as u8);
    assert(buffer[2] == (pid as int / 256) as u8 && buffer[3] == (pid as int % 256) as u8);
    assert(buffer.subrange(HEADER_LEN as int, HEADER_LEN + payload.len()) =~= payload);
}

/// Whatever is recognised as a frame is, byte for byte, the frame of what was found in it.
pub proof fn law_frame_is_canonical(buffer: Seq<u8>)
    requires
        has_frame(buffer),
    ensures
        ({
            let (frame_len, pid, payload_len) = first_frame(buffer)->0;
            let payload = buffer.subrange(HEADER_LEN as int, frame_len);
            &&& payload.len() == payload_len
            &&& is_payload(payload)
            &&& buffer.take(frame_len) == frame_bytes(pid, payload)
        }),
{
    let (frame_len, pid, payload_len) = first_frame(buffer)->0;
    let payload = buffer.subrange(HEADER_LEN as int, frame_len);
    assert(buffer.take(frame_len) =~= frame_bytes(pid, payload));
}

/// Bytes that arrive later never change the frame that is already whole.
pub proof fn law_frame_is_stable(buffer: Seq<u8>, more: Seq<u8>)
    requires
        has_frame(buffer),
    ensures
        first_frame(buffer + more) == first_frame(buffer),
{
}

/// Packet ids count up by one and come round after 65536 steps; within one round no id
/// occurs twice.
pub proof fn law_pids_count_up(start: u16, first: int, second: int)
    requires
        0 <= first,
        0 <= second,
    ensures
        pid_at(start, 0) == start,
        next_pid_spec(pid_at(start, first)) == pid_at(start, first + 1),
        pid_at(start, first + 65536) == pid_at(start, first),
        -65536 < first - second < 65536 && pid_at(start, first) == pid_at(start, second) ==> first
            == second,
{
}

} // verus!
