//! The multiplexed socket: its state, and what each event does to it.
//!
//! A socket is shared between threads by the program around this crate, which holds it under
//! a lock, calls one method for each event, and carries out the action that comes back.
use crate::decoder::{FrameDecoder, Packet};
use crate::error::MtcpError;
use crate::protocol::{encode_frame, encode_login, next_pid, MAX_FRAME_PAYLOAD};
use std::collections::HashMap;
use vstd::prelude::*;

#[allow(unused_imports)]
use crate::decoder::{law_feed_in_pieces, leftover_of, packet_views, packets_in};
#[allow(unused_imports)]
use crate::protocol::{frame_bytes, login_bytes, next_pid_spec, LOGIN_OFFSET};
#[allow(unused_imports)]
use crate::stream::{
    law_deliver_in_lots, law_read_takes_front, lemma_pid_set_finite, min_len, Inbound,
};

verus! {

/// One TCP connection of a socket.
#[derive(Clone, Copy, Debug, PartialEq, Eq, Structural)]
pub struct SubConn {
    /// Names the connection within its socket.
    pub id: u64,
    /// The id that the server gave the connection.
    pub cid: u16,
    /// The bytes that were handed to the connection and are not written yet.
    pub queued_bytes: usize,
    pub alive: bool,
}

impl SubConn {
    pub fn is_alive(&self) -> (alive: bool)
        ensures
            alive == self.alive,
    {
        self.alive
    }
}

/// What became of a request to close a sub-connection.
#[derive(Clone, Copy, Debug, PartialEq, Eq, Structural)]
pub enum Closing {
    /// It was closed before, or never was one of the socket's.
    Already,
    /// Other sub-connections are left.
    Remaining,
    /// It was the last: the socket is closed.
    Last,
}

/// What a read comes to.
#[derive(Clone, Copy, Debug, PartialEq, Eq, Structural)]
pub enum ReadStep {
    /// This many bytes were read.
    Data(usize),
    /// The stream has ended.
    Eof,
    /// The stream broke off.
    Failed(MtcpError),
    /// Nothing can be read until something arrives or a sub-connection ends.
    Wait,
}

/// What a reader gets from its connection.
pub enum ReadEvent<'a> {
    /// Bytes; none at all means that the peer has finished.
    Bytes(&'a [u8]),
    /// The read was interrupted and can be tried again.
    Interrupted,
    /// The read failed.
    Failed,
}

/// What a reader does next.
#[derive(Clone, Copy, Debug, PartialEq, Eq, Structural)]
pub enum ReaderStep {
    /// Read on.
    Continue,
    /// Stop; this became of the sub-connection.
    Stop(Closing),
}

/// A request to the thread that writes to a sub-connection.
#[derive(Debug)]
pub enum WriteMsg {
    Frame(Vec<u8>),
    Shutdown,
    Close,
}

/// What a writer gets to know.
#[derive(Debug)]
pub enum WriterEvent {
    /// A request was received.
    Message(WriteMsg),
    /// A frame of this length was written, or was not.
    Written { frame_len: usize, ok: bool },
    /// No request will follow, or the connection was shut down both ways.
    Ended,
}

/// What a writer does next.
#[derive(Debug)]
pub enum WriterAction {
    /// Write the frame, and report whether that went well.
    Write(Vec<u8>),
    /// Shut down the writing side and wait for the next request.
    ShutdownWrite,
    /// Shut down both sides and report the end.
    ShutdownBoth,
    /// Wait for the next request.
    Receive,
    /// Stop; this became of the sub-connection.
    Stop(Closing),
}

pub open spec fn wrapping_sum(a: usize, b: usize) -> usize {
    if a + b > usize::MAX {
        (a + b - usize::MAX - 1) as usize
    } else {
        (a + b) as usize
    }
}

pub open spec fn wrapping_difference(a: usize, b: usize) -> usize {
    if a < b {
        (a - b + usize::MAX + 1) as usize
    } else {
        (a - b) as usize
    }
}

/// The sub-connections that are alive, in their order.
pub open spec fn live(conns: Seq<SubConn>) -> Seq<SubConn> {
    conns.filter(|conn: SubConn| conn.alive)
}

pub open spec fn ids(conns: Seq<SubConn>) -> Seq<u64> {
    conns.map_values(|conn: SubConn| conn.id)
}

/// `index` is the first of the sub-connections with the fewest queued bytes.
pub open spec fn is_least_loaded(conns: Seq<SubConn>, index: int) -> bool {
    &&& 0 <= index < conns.len()
    &&& forall|i: int|
        0 <= i < conns.len() ==> conns[index].queued_bytes <= (#[trigger] conns[i]).queued_bytes
    &&& forall|i: int|
        0 <= i < index ==> conns[index].queued_bytes < (#[trigger] conns[i]).queued_bytes
}

/// The sub-connections, with `id` no longer alive.
pub open spec fn without_life(conns: Seq<SubConn>, id: u64) -> Seq<SubConn> {
    conns.map_values(
        |conn: SubConn|
            if conn.id == id {
                SubConn { alive: false, ..conn }
            } else {
                conn
            },
    )
}

/// The sub-connections, with `len` bytes fewer queued on `id`.
pub open spec fn with_less_queued(conns: Seq<SubConn>, id: u64, len: usize) -> Seq<SubConn> {
    conns.map_values(
        |conn: SubConn|
            if conn.id == id {
                SubConn { queued_bytes: wrapping_difference(conn.queued_bytes, len), ..conn }
            } else {
                conn
            },
    )
}

/// The state of a socket.
#[verifier::ext_equal]
pub struct SocketView {
    pub mid: Option<u16>,
    pub inbound: Inbound,
    pub write_pid: u16,
    pub conns: Seq<SubConn>,
    pub next_conn: u64,
    pub write_shutdown: bool,
    pub closing: bool,
    pub closed: bool,
    pub truncated: bool,
}

impl SocketView {
    pub open spec fn fresh(mid: Option<u16>) -> SocketView {
        SocketView {
            mid,
            inbound: Inbound::fresh(0),
            write_pid: 0,
            conns: Seq::empty(),
            next_conn: 0,
            write_shutdown: false,
            closing: false,
            closed: false,
            truncated: false,
        }
    }

    /// No two sub-connections share an id, ids are not used again, and a socket that is
    /// closed has no sub-connection.
    pub open spec fn wf(self) -> bool {
        &&& forall|i: int|
            0 <= i < self.conns.len() ==> (#[trigger] self.conns[i]).id < self.next_conn
        &&& forall|i: int, j: int|
            0 <= i < j < self.conns.len() ==> (#[trigger] self.conns[i]).id != (
            #[trigger] self.conns[j]).id
        &&& self.closed ==> self.conns.len() == 0
    }

    /// `id` is a sub-connection that is alive.
    pub open spec fn is_live(self, id: u64) -> bool {
        exists|i: int|
            0 <= i < self.conns.len() && (#[trigger] self.conns[i]).id == id && self.conns[i].alive
    }

    pub open spec fn attach(self, cid: u16) -> SocketView {
        SocketView {
            closed: false,
            conns: self.conns.push(
                SubConn { id: self.next_conn, cid, queued_bytes: 0, alive: true },
            ),
            next_conn: (self.next_conn + 1) as u64,
            ..self
        }
    }

    pub open spec fn deliver(self, pid: u16, payload: Seq<u8>) -> SocketView {
        SocketView { inbound: self.inbound.deliver(pid, payload), ..self }
    }

    pub open spec fn deliver_all(self, packets: Seq<(u16, Seq<u8>)>) -> SocketView {
        SocketView { inbound: self.inbound.deliver_all(packets), ..self }
    }

    pub open spec fn prune(self) -> SocketView {
        SocketView { conns: live(self.conns), ..self }
    }

    pub open spec fn retire(self, id: u64) -> SocketView {
        SocketView { conns: without_life(self.conns, id), ..self }
    }

    pub open spec fn unqueue(self, id: u64, len: usize) -> SocketView {
        SocketView { conns: with_less_queued(self.conns, id, len), ..self }
    }

    /// Closes a sub-connection: it leaves the socket, and with the last one the socket closes.
    pub open spec fn mark_closed(self, id: u64) -> SocketView {
        if self.is_live(id) {
            let rest = self.retire(id).prune();
            SocketView { closed: rest.closed || rest.conns.len() == 0, ..rest }
        } else {
            self
        }
    }

    /// The bytes of a sub-connection have ended, inside a frame or between two frames. Unless
    /// the socket itself is being closed, a frame that is cut off is remembered.
    pub open spec fn end_input(self, id: u64, inside_frame: bool) -> SocketView {
        SocketView {
            truncated: self.truncated || (inside_frame && !self.closing),
            ..self
        }.mark_closed(id)
    }

    /// `len` more bytes are queued on the sub-connection at `index`.
    pub open spec fn queue(self, index: int, len: usize) -> SocketView {
        let conn = self.conns[index];
        SocketView {
            conns: self.conns.update(
                index,
                SubConn { queued_bytes: wrapping_sum(conn.queued_bytes, len), ..conn },
            ),
            ..self
        }
    }

    /// What a read into `want` bytes leaves behind.
    pub open spec fn after_read(self, want: int) -> SocketView {
        if want == 0 {
            self
        } else {
            let read = SocketView { inbound: self.inbound.after_read(want), ..self };
            if self.inbound.read_bytes(want).len() > 0 {
                read
            } else if live(self.conns).len() > 0 {
                read.prune()
            } else {
                SocketView { closed: true, ..read.prune() }
            }
        }
    }

    /// What a read into `want` bytes comes to.
    pub open spec fn read_step(self, want: int) -> ReadStep {
        if want == 0 {
            ReadStep::Data(0)
        } else if self.inbound.read_bytes(want).len() > 0 {
            ReadStep::Data(self.inbound.read_bytes(want).len() as usize)
        } else if live(self.conns).len() > 0 {
            ReadStep::Wait
        } else if self.truncated {
            ReadStep::Failed(MtcpError::TruncatedFrame)
        } else {
            ReadStep::Eof
        }
    }

    pub open spec fn closing_of(self, id: u64) -> Closing {
        if !self.is_live(id) {
            Closing::Already
        } else if self.retire(id).prune().conns.len() == 0 {
            Closing::Last
        } else {
            Closing::Remaining
        }
    }
}

proof fn lemma_live_step(conns: Seq<SubConn>, at: int)
    requires
        0 <= at < conns.len(),
    ensures
        live(conns.take(at + 1)) == (if conns[at].alive {
            live(conns.take(at)).push(conns[at])
        } else {
            live(conns.take(at))
        }),
{
    reveal(Seq::filter);
    assert(conns.take(at + 1).drop_last() =~= conns.take(at));
}

/// What is alive was there before, in the same order.
proof fn lemma_live_is_part(conns: Seq<SubConn>, at: int) -> (from: Seq<int>)
    requires
        0 <= at <= conns.len(),
    ensures
        from.len() == live(conns.take(at)).len(),
        forall|i: int|
            0 <= i < from.len() ==> 0 <= #[trigger] from[i] < at && conns[from[i]] == live(
                conns.take(at),
            )[i] && conns[from[i]].alive,
        forall|i: int, j: int| 0 <= i < j < from.len() ==> #[trigger] from[i] < #[trigger] from[j],
        forall|k: int| 0 <= k < at && (#[trigger] conns[k]).alive ==> from.contains(k),
    decreases at,
{
    if at == 0 {
        reveal(Seq::filter);
        Seq::empty()
    } else {
        let before = lemma_live_is_part(conns, at - 1);
        lemma_live_step(conns, at - 1);
        if conns[at - 1].alive {
            let from = before.push(at - 1);
            assert forall|k: int| 0 <= k < at && (#[trigger] conns[k]).alive implies from.contains(
                k,
            ) by {
                if k < at - 1 {
                    let i = choose|i: int| 0 <= i < before.len() && before[i] == k;
                    assert(from[i] == k);
                } else {
                    assert(from[before.len() as int] == k);
                }
            }
            from
        } else {
            before
        }
    }
}

proof fn lemma_prune_wf(socket: SocketView)
    requires
        socket.wf(),
    ensures
        socket.prune().wf(),
{
    let from = lemma_live_is_part(socket.conns, socket.conns.len() as int);
    assert(socket.conns.take(socket.conns.len() as int) =~= socket.conns);
    let kept = live(socket.conns);
    assert forall|i: int| 0 <= i < kept.len() implies (#[trigger] kept[i]).id < socket.next_conn by {
        assert(kept[i] == socket.conns[from[i]]);
    }
    assert forall|i: int, j: int| 0 <= i < j < kept.len() implies (#[trigger] kept[i]).id != (
    #[trigger] kept[j]).id by {
        assert(kept[i] == socket.conns[from[i]]);
        assert(kept[j] == socket.conns[from[j]]);
    }
    if kept.len() > 0 {
        assert(kept[0] == socket.conns[from[0]]);
    }
}

proof fn lemma_retire_wf(socket: SocketView, id: u64)
    requires
        socket.wf(),
    ensures
        socket.retire(id).wf(),
{
    lemma_same_ids_wf(socket, socket.retire(id));
}

proof fn lemma_same_ids_wf(before: SocketView, after: SocketView)
    requires
        before.wf(),
        after.next_conn == before.next_conn,
        after.closed == before.closed,
        after.conns.len() == before.conns.len(),
        forall|i: int|
            0 <= i < before.conns.len() ==> (#[trigger] before.conns[i]).id == after.conns[i].id,
    ensures
        after.wf(),
{
    assert forall|i: int| 0 <= i < after.conns.len() implies (#[trigger] after.conns[i]).id
        < after.next_conn by {
        assert(before.conns[i].id == after.conns[i].id);
    }
    assert forall|i: int, j: int| 0 <= i < j < after.conns.len() implies (
    #[trigger] after.conns[i]).id != (#[trigger] after.conns[j]).id by {
        assert(before.conns[i].id == after.conns[i].id);
        assert(before.conns[j].id == after.conns[j].id);
    }
}

/// The packages of a socket, payload by payload.
pub open spec fn package_views(packages: Map<u16, Vec<u8>>) -> Map<u16, Seq<u8>> {
    packages.map_values(|payload: Vec<u8>| payload@)
}

/// A socket: one byte stream each way, carried over any number of sub-connections.
pub struct MSocket {
    mid: Option<u16>,
    read_pid: u16,
    write_pid: u16,
    packages: HashMap<u16, Vec<u8>>,
    read_cache: Vec<u8>,
    read_offset: usize,
    conns: Vec<SubConn>,
    next_conn: u64,
    write_shutdown: bool,
    closing: bool,
    closed: bool,
    truncated: bool,
}

impl View for MSocket {
    type V = SocketView;

    closed spec fn view(&self) -> SocketView {
        SocketView {
            mid: self.mid,
            inbound: Inbound {
                pid: self.read_pid,
                packages: package_views(self.packages@),
                cache: self.read_cache@.skip(self.read_offset as int),
            },
            write_pid: self.write_pid,
            conns: self.conns@,
            next_conn: self.next_conn,
            write_shutdown: self.write_shutdown,
            closing: self.closing,
            closed: self.closed,
            truncated: self.truncated,
        }
    }
}

impl MSocket {
    /// What has been read of the cache lies within it.
    pub closed spec fn offset_fits(&self) -> bool {
        self.read_offset <= self.read_cache@.len()
    }

    pub open spec fn wf(&self) -> bool {
        self.offset_fits() && self@.wf()
    }

    /// A socket without any sub-connection yet.
    pub fn new(mid: Option<u16>) -> (socket: Self)
        ensures
            socket.wf(),
            socket@ == SocketView::fresh(mid),
    {
        let socket = MSocket {
            mid,
            read_pid: 0,
            write_pid: 0,
            packages: HashMap::new(),
            read_cache: Vec::new(),
            read_offset: 0,
            conns: Vec::new(),
            next_conn: 0,
            write_shutdown: false,
            closing: false,
            closed: false,
            truncated: false,
        };
        assert(socket@.inbound =~= Inbound::fresh(0));
        socket
    }

    /// The server's end of the socket that a client named `mid`.
    pub fn from_server(mid: u16) -> (socket: Self)
        ensures
            socket.wf(),
            socket@ == SocketView::fresh(Some(mid)),
    {
        Self::new(Some(mid))
    }

    pub fn mid(&self) -> (mid: Option<u16>)
        ensures
            mid == self@.mid,
    {
        self.mid
    }

    pub fn is_closed(&self) -> (closed: bool)
        ensures
            closed == self@.closed,
    {
        self.closed
    }

    /// Whether whoever waits for the socket to close has waited long enough.
    pub fn wait_closed(&self) -> (done: bool)
        ensures
            done == self@.closed,
    {
        self.closed
    }

    /// Drops the sub-connections that are no longer alive.
    fn prune(&mut self)
        requires
            old(self).wf(),
        ensures
            final(self).wf(),
            final(self)@ == old(self)@.prune(),
    {
        let ghost conns = self.conns@;
        let mut kept: Vec<SubConn> = Vec::new();
        let mut i: usize = 0;
        proof {
            reveal(Seq::filter);
        }
        while i < self.conns.len()
            invariant
                *self == *old(self),
                self.conns@ == conns,
                i <= conns.len(),
                kept@ == live(conns.take(i as int)),
            decreases conns.len() - i,
        {
            proof {
                lemma_live_step(conns, i as int);
            }
            let conn: SubConn = self.conns[i];
            if conn.is_alive() {
                kept.push(conn);
            }
            i = i + 1;
        }
        proof {
            assert(conns.take(conns.len() as int) =~= conns);
            lemma_prune_wf(self@);
        }
        self.conns = kept;
    }

    /// The number of sub-connections that are alive.
    pub fn connection_count(&self) -> (count: usize)
        ensures
            count == live(self@.conns).len(),
    {
        let ghost conns = self.conns@;
        let mut count: usize = 0;
        let mut i: usize = 0;
        proof {
            reveal(Seq::filter);
        }
        while i < self.conns.len()
            invariant
                self.conns@ == conns,
                count <= i <= conns.len(),
                count == live(conns.take(i as int)).len(),
            decreases conns.len() - i,
        {
            proof {
                lemma_live_step(conns, i as int);
            }
            if self.conns[i].is_alive() {
                count = count + 1;
            }
            i = i + 1;
        }
        assert(conns.take(conns.len() as int) =~= conns);
        count
    }

    /// The names of the sub-connections that are alive, in their order.
    fn live_ids(&self) -> (names: Vec<u64>)
        ensures
            names@ == ids(live(self@.conns)),
    {
        let ghost conns = self.conns@;
        let mut names: Vec<u64> = Vec::new();
        let mut i: usize = 0;
        proof {
            reveal(Seq::filter);
        }
        while i < self.conns.len()
            invariant
                self.conns@ == conns,
                i <= conns.len(),
                names@ =~= ids(live(conns.take(i as int))),
            decreases conns.len() - i,
        {
            proof {
                lemma_live_step(conns, i as int);
            }
            if self.conns[i].is_alive() {
                names.push(self.conns[i].id);
            }
            i = i + 1;
        }
        assert(conns.take(conns.len() as int) =~= conns);
        names
    }

    /// Takes up a new sub-connection, to which the server gave the id `cid`, and names it.
    pub fn attach_stream(&mut self, cid: u16) -> (id: u64)
        requires
            old(self).wf(),
            old(self)@.next_conn < u64::MAX,
        ensures
            final(self).wf(),
            id == old(self)@.next_conn,
            final(self)@ == old(self)@.attach(cid),
    {
        let id: u64 = self.next_conn;
        self.closed = false;
        self.conns.push(SubConn { id, cid, queued_bytes: 0, alive: true });
        self.next_conn = id + 1;
        id
    }

    /// The login for a connection to which the server gave the id `cid`. The first such id
    /// becomes the name of a socket that has none.
    pub fn connect_sub(&mut self, cid: u16) -> (login: [u8; 4])
        requires
            old(self).wf(),
            cid + LOGIN_OFFSET <= u16::MAX,
        ensures
            final(self).wf(),
            ({
                let mid = match old(self)@.mid {
                    Some(mid) => mid,
                    None => cid,
                };
                &&& login@ == login_bytes(cid, mid)
                &&& final(self)@ == (SocketView { mid: Some(mid), ..old(self)@ })
            }),
    {
        let mid: u16 = match self.mid {
            Some(mid) => mid,
            None => cid,
        };
        self.mid = Some(mid);
        encode_login(cid, mid)
    }

    /// A packet arrives.
    pub fn deliver_frame(&mut self, pid: u16, payload: Vec<u8>)
        requires
            old(self).wf(),
        ensures
            final(self).wf(),
            final(self)@ == old(self)@.deliver(pid, payload@),
    {
        if !self.packages.contains_key(&pid) {
            self.packages.insert(pid, payload);
            assert(package_views(self.packages@) =~= package_views(old(self).packages@).insert(
                pid,
                payload@,
            ));
        }
    }

    /// Ends the life of a sub-connection, and says whether it was alive.
    pub fn retire(&mut self, id: u64) -> (was_live: bool)
        requires
            old(self).wf(),
        ensures
            final(self).wf(),
            was_live == old(self)@.is_live(id),
            final(self)@ == (if was_live {
                old(self)@.retire(id)
            } else {
                old(self)@
            }),
    {
        let ghost conns = self.conns@;
        let mut i: usize = 0;
        while i < self.conns.len()
            invariant
                *self == *old(self),
                self.wf(),
                self.conns@ == conns,
                i <= conns.len(),
                forall|j: int| 0 <= j < i ==> (#[trigger] conns[j]).id != id || !conns[j].alive,
            decreases conns.len() - i,
        {
            let conn: SubConn = self.conns[i];
            if conn.id == id && conn.is_alive() {
                proof {
                    lemma_retire_wf(self@, id);
                    assert(self@.conns[i as int].id == id && self@.conns[i as int].alive);
                }
                self.conns.set(i, SubConn { alive: false, ..conn });
                assert(self.conns@ =~= without_life(conns, id));
                return true;
            }
            i = i + 1;
        }
        false
    }

    /// A sub-connection has ended. It leaves the socket, and the last one closes the socket.
    pub fn mark_connection_closed(&mut self, id: u64) -> (closing: Closing)
        requires
            old(self).wf(),
        ensures
            final(self).wf(),
            closing == old(self)@.closing_of(id),
            final(self)@ == old(self)@.mark_closed(id),
            final(self)@.inbound == old(self)@.inbound,
            final(self)@.write_pid == old(self)@.write_pid,
    {
        if !self.retire(id) {
            return Closing::Already;
        }
        self.prune();
        if self.conns.len() == 0 {
            self.closed = true;
            Closing::Last
        } else {
            Closing::Remaining
        }
    }

    /// Shuts down the writing side, and names the sub-connections that have to be told: those
    /// alive, or none where it was shut down before.
    pub fn shutdown_write(&mut self) -> (tell: Vec<u64>)
        requires
            old(self).wf(),
        ensures
            final(self).wf(),
            final(self)@ == (SocketView { write_shutdown: true, ..old(self)@ }),
            tell@ == (if old(self)@.write_shutdown {
                Seq::<u64>::empty()
            } else {
                ids(live(old(self)@.conns))
            }),
    {
        if self.write_shutdown {
            return Vec::new();
        }
        self.write_shutdown = true;
        self.live_ids()
    }

    /// Gives the socket up, and names the sub-connections that have to be closed.
    pub fn close(&mut self) -> (tell: Vec<u64>)
        requires
            old(self).wf(),
        ensures
            final(self).wf(),
            final(self)@ == (SocketView { write_shutdown: true, closing: true, ..old(self)@ }),
            tell@ == ids(live(old(self)@.conns)),
    {
        self.write_shutdown = true;
        self.closing = true;
        self.live_ids()
    }

    /// Makes the next frame out of `bytes`, which are still to be sent, and says how many of
    /// them it carries; there is none where nothing is left to send.
    pub fn write_buffer(&mut self, bytes: &[u8]) -> (result: Result<
        Option<(Vec<u8>, usize)>,
        MtcpError,
    >)
        requires
            old(self).wf(),
        ensures
            final(self).wf(),
            result is Err <==> bytes@.len() > 0 && old(self)@.write_shutdown,
            match result {
                Err(error) => error == MtcpError::WriteClosed && final(self)@ == old(self)@,
                Ok(None) => bytes@.len() == 0 && final(self)@ == old(self)@,
                Ok(Some((frame, carried))) => {
                    &&& bytes@.len() > 0
                    &&& carried == min_len(bytes@.len() as int, MAX_FRAME_PAYLOAD as int)
                    &&& carried == bytes@.len() || (carried == 65_536 && carried < bytes@.len())
                    &&& frame@ == frame_bytes(old(self)@.write_pid, bytes@.take(carried as int))
                    &&& final(self)@ == (SocketView {
                        write_pid: next_pid_spec(old(self)@.write_pid),
                        ..old(self)@
                    })
                },
            },
    {
        if bytes.len() == 0 {
            return Ok(None);
        }
        let carried: usize = if bytes.len() <= MAX_FRAME_PAYLOAD {
            bytes.len()
        } else {
            MAX_FRAME_PAYLOAD
        };
        if self.write_shutdown {
            return Err(MtcpError::WriteClosed);
        }
        let pid: u16 = self.write_pid;
        self.write_pid = next_pid(pid);
        let payload = &bytes[0..carried];
        assert(payload@ =~= bytes@.take(carried as int));
        Ok(Some((encode_frame(pid, payload), carried)))
    }

    /// Chooses the sub-connection for a frame of `frame_len` bytes, the one with the fewest
    /// bytes queued, and counts the frame as queued there.
    pub fn write_frame(&mut self, frame_len: usize) -> (result: Result<u64, MtcpError>)
        requires
            old(self).wf(),
        ensures
            final(self).wf(),
            match result {
                Ok(id) => {
                    &&& !old(self)@.write_shutdown
                    &&& exists|index: int| #[trigger]
                        is_least_loaded(live(old(self)@.conns), index) && id == live(
                            old(self)@.conns,
                        )[index].id && final(self)@ == old(self)@.prune().queue(index, frame_len)
                },
                Err(error) => {
                    &&& final(self)@ == old(self)@.prune()
                    &&& error == (if old(self)@.write_shutdown {
                        MtcpError::WriteClosed
                    } else {
                        MtcpError::NoActiveConnection
                    })
                },
            },
            result is Ok <==> !old(self)@.write_shutdown && live(old(self)@.conns).len() > 0,
    {
        proof {
            lemma_prune_wf(self@);
        }
        self.prune();
        if self.write_shutdown {
            return Err(MtcpError::WriteClosed);
        }
        if self.conns.len() == 0 {
            return Err(MtcpError::NoActiveConnection);
        }
        let ghost conns = self.conns@;
        let mut least: usize = 0;
        let mut i: usize = 1;
        while i < self.conns.len()
            invariant
                self.conns@ == conns,
                least < i <= conns.len(),
                forall|j: int|
                    0 <= j < i ==> conns[least as int].queued_bytes <= (
                    #[trigger] conns[j]).queued_bytes,
                forall|j: int|
                    0 <= j < least ==> conns[least as int].queued_bytes < (
                    #[trigger] conns[j]).queued_bytes,
            decreases conns.len() - i,
        {
            if self.conns[i].queued_bytes < self.conns[least].queued_bytes {
                least = i;
            }
            i = i + 1;
        }
        let conn: SubConn = self.conns[least];
        assert(is_least_loaded(live(old(self)@.conns), least as int));
        self.conns.set(
            least,
            SubConn { queued_bytes: conn.queued_bytes.wrapping_add(frame_len), ..conn },
        );
        proof {
            lemma_same_ids_wf(old(self)@.prune(), self@);
        }
        Ok(conn.id)
    }

    /// Counts `len` bytes as no longer queued on a sub-connection.
    fn unqueue(&mut self, id: u64, len: usize)
        requires
            old(self).wf(),
        ensures
            final(self).wf(),
            final(self)@ == old(self)@.unqueue(id, len),
    {
        let ghost conns = self.conns@;
        let mut i: usize = 0;
        while i < self.conns.len()
            invariant
                *self == *old(self),
                self.wf(),
                self.conns@ == conns,
                i <= conns.len(),
                forall|j: int| 0 <= j < i ==> (#[trigger] conns[j]).id != id,
            decreases conns.len() - i,
        {
            let conn: SubConn = self.conns[i];
            if conn.id == id {
                self.conns.set(
                    i,
                    SubConn { queued_bytes: conn.queued_bytes.wrapping_sub(len), ..conn },
                );
                assert(self.conns@ =~= with_less_queued(conns, id, len));
                return;
            }
            i = i + 1;
        }
        assert(self.conns@ =~= with_less_queued(conns, id, len));
    }

    /// A frame could not be handed to the sub-connection that was chosen for it.
    pub fn send_failed(&mut self, id: u64, frame_len: usize) -> (closing: Closing)
        requires
            old(self).wf(),
        ensures
            final(self).wf(),
            closing == old(self)@.unqueue(id, frame_len).closing_of(id),
            final(self)@ == old(self)@.unqueue(id, frame_len).mark_closed(id),
    {
        self.unqueue(id, frame_len);
        self.mark_connection_closed(id)
    }

    /// Reads what is due into `buf`.
    pub fn read(&mut self, buf: &mut [u8]) -> (step: ReadStep)
        requires
            old(self).wf(),
        ensures
            final(self).wf(),
            step == old(self)@.read_step(old(buf)@.len() as int),
            final(self)@ == old(self)@.after_read(old(buf)@.len() as int),
            ({
                let data = old(self)@.inbound.read_bytes(old(buf)@.len() as int);
                &&& final(buf)@ == data + old(buf)@.skip(data.len() as int)
                &&& old(self)@.inbound.readable() == data + final(self)@.inbound.readable()
            }),
    {
        let want: usize = buf.len();
        proof {
            law_read_takes_front(self@.inbound, want as int);
        }
        if want == 0 {
            assert(self@.inbound.readable() =~= self@.inbound.read_bytes(0)
                + self@.inbound.readable());
            assert(buf@ =~= old(self)@.inbound.read_bytes(0) + old(buf)@.skip(0));
            return ReadStep::Data(0);
        }
        loop
            invariant
                buf@ == old(buf)@,
                want == buf@.len(),
                want > 0,
                self.wf(),
                self@ == (SocketView { inbound: self@.inbound, ..old(self)@ }),
                self@.inbound.refill() == old(self)@.inbound.refill(),
            ensures
                self@.inbound.cache.len() == 0,
                !self@.inbound.is_due(),
            decreases self@.inbound.packages.dom().len(),
        {
            if self.read_offset < self.read_cache.len() {
                proof {
                    law_read_takes_front(old(self)@.inbound, want as int);
                }
                return self.copy_out(buf);
            }
            let ghost whole = self@;
            let ghost before = self@.inbound;
            let pid: u16 = self.read_pid;
            let found = self.packages.remove(&pid);
            match found {
                Some(payload) => {
                    self.read_pid = next_pid(pid);
                    self.read_cache = payload;
                    self.read_offset = 0;
                    proof {
                        lemma_pid_set_finite(before.packages.dom());
                        assert(self@.inbound =~= before.advance());
                        lemma_same_ids_wf(whole, self@);
                    }
                },
                None => {
                    assert(self@.inbound =~= before);
                    break;
                },
            }
        }
        proof {
            let data = old(self)@.inbound.read_bytes(want as int);
            assert(old(buf)@ =~= data + old(buf)@.skip(data.len() as int));
            assert(old(self)@.inbound.after_read(want as int) =~= self@.inbound);
        }
        self.prune();
        if self.conns.len() == 0 {
            self.closed = true;
            if self.truncated {
                ReadStep::Failed(MtcpError::TruncatedFrame)
            } else {
                ReadStep::Eof
            }
        } else {
            ReadStep::Wait
        }
    }

    /// Copies the front of the cache into `buf`.
    fn copy_out(&mut self, buf: &mut [u8]) -> (step: ReadStep)
        requires
            old(self).wf(),
            old(self)@.inbound.cache.len() > 0,
            old(buf)@.len() > 0,
        ensures
            final(self).wf(),
            step == old(self)@.read_step(old(buf)@.len() as int),
            final(self)@ == old(self)@.after_read(old(buf)@.len() as int),
            ({
                let data = old(self)@.inbound.read_bytes(old(buf)@.len() as int);
                final(buf)@ == data + old(buf)@.skip(data.len() as int)
            }),
    {
        let remaining: usize = self.read_cache.len() - self.read_offset;
        let copied: usize = if remaining <= buf.len() {
            remaining
        } else {
            buf.len()
        };
        let ghost cache = self@.inbound.cache;
        let mut i: usize = 0;
        while i < copied
            invariant
                *self == *old(self),
                self.wf(),
                cache == self.read_cache@.skip(self.read_offset as int),
                self.read_offset + cache.len() == self.read_cache.len(),
                i <= copied <= cache.len(),
                copied <= buf@.len(),
                buf@.len() == old(buf)@.len(),
                buf@ =~= cache.take(i as int) + old(buf)@.skip(i as int),
            decreases copied - i,
        {
            buf[i] = self.read_cache[self.read_offset + i];
            i = i + 1;
        }
        self.read_offset = self.read_offset + copied;
        if self.read_offset == self.read_cache.len() {
            self.read_cache.clear();
            self.read_offset = 0;
        }
        assert(self@.inbound.cache =~= cache.skip(copied as int));
        ReadStep::Data(copied)
    }

    /// One turn of the thread that reads from sub-connection `id`: packets are taken out of
    /// the bytes that arrived, and the end of the bytes closes the sub-connection.
    pub fn reader_loop(
        &mut self,
        id: u64,
        decoder: &mut FrameDecoder,
        event: ReadEvent<'_>,
    ) -> (step: ReaderStep)
        requires
            old(self).wf(),
        ensures
            final(self).wf(),
            match event {
                ReadEvent::Bytes(bytes) if bytes@.len() > 0 => {
                    &&& step == ReaderStep::Continue
                    &&& final(decoder)@ == leftover_of(old(decoder)@ + bytes@)
                    &&& final(self)@ == old(self)@.deliver_all(
                        packets_in(old(decoder)@ + bytes@),
                    )
                },
                ReadEvent::Interrupted => {
                    &&& step == ReaderStep::Continue
                    &&& final(decoder)@ == old(decoder)@
                    &&& final(self)@ == old(self)@
                },
                _ => {
                    &&& step == ReaderStep::Stop(old(self)@.closing_of(id))
                    &&& final(decoder)@ == old(decoder)@
                    &&& final(self)@ == old(self)@.end_input(id, old(decoder)@.len() > 0)
                },
            },
    {
        match event {
            ReadEvent::Interrupted => {
                return ReaderStep::Continue;
            },
            ReadEvent::Bytes(bytes) => {
                if bytes.len() > 0 {
                    let packets = decoder.feed(bytes);
                    self.deliver_packets(packets);
                    return ReaderStep::Continue;
                }
            },
            ReadEvent::Failed => {},
        }
        if decoder.is_inside_frame() && !self.closing {
            self.truncated = true;
        }
        ReaderStep::Stop(self.mark_connection_closed(id))
    }

    /// Packets arrive one after the other.
    fn deliver_packets(&mut self, packets: Vec<Packet>)
        requires
            old(self).wf(),
        ensures
            final(self).wf(),
            final(self)@ == old(self)@.deliver_all(packet_views(packets@)),
    {
        let ghost views = packet_views(packets@);
        assert(views.take(0) =~= Seq::<(u16, Seq<u8>)>::empty());
        for packet in iter: packets
            invariant
                self.wf(),
                iter.seq() == packets@,
                views == packet_views(packets@),
                self@ == old(self)@.deliver_all(views.take(iter.index() as int)),
        {
            let ghost at = iter.index() as int;
            proof {
                assert(views.take(at + 1).drop_last() =~= views.take(at));
                assert(views.take(at + 1).last() == packet@);
            }
            self.deliver_frame(packet.pid, packet.payload);
        }
        assert(views.take(views.len() as int) =~= views);
    }

    /// One turn of the thread that writes to sub-connection `id`.
    pub fn writer_loop(&mut self, id: u64, event: WriterEvent) -> (action: WriterAction)
        requires
            old(self).wf(),
        ensures
            final(self).wf(),
            match event {
                WriterEvent::Message(WriteMsg::Frame(frame)) => {
                    action == WriterAction::Write(frame) && final(self)@ == old(self)@
                },
                WriterEvent::Message(WriteMsg::Shutdown) => {
                    action == WriterAction::ShutdownWrite && final(self)@ == old(self)@
                },
                WriterEvent::Message(WriteMsg::Close) => {
                    action == WriterAction::ShutdownBoth && final(self)@ == old(self)@
                },
                WriterEvent::Written { frame_len, ok } => {
                    let written = old(self)@.unqueue(id, frame_len);
                    if ok {
                        action == WriterAction::Receive && final(self)@ == written
                    } else {
                        &&& action == WriterAction::Stop(written.closing_of(id))
                        &&& final(self)@ == written.mark_closed(id)
                    }
                },
                WriterEvent::Ended => {
                    &&& action == WriterAction::Stop(old(self)@.closing_of(id))
                    &&& final(self)@ == old(self)@.mark_closed(id)
                },
            },
    {
        match event {
            WriterEvent::Message(WriteMsg::Frame(frame)) => WriterAction::Write(frame),
            WriterEvent::Message(WriteMsg::Shutdown) => WriterAction::ShutdownWrite,
            WriterEvent::Message(WriteMsg::Close) => WriterAction::ShutdownBoth,
            WriterEvent::Written { frame_len, ok } => {
                self.unqueue(id, frame_len);
                if ok {
                    WriterAction::Receive
                } else {
                    WriterAction::Stop(self.mark_connection_closed(id))
                }
            },
            WriterEvent::Ended => WriterAction::Stop(self.mark_connection_closed(id)),
        }
    }
}

/// Two turns of a reader come to one: the socket and the bytes kept back are as if the bytes of
/// both had arrived at once.
pub proof fn law_reader_turns_add_up(
    socket: SocketView,
    kept: Seq<u8>,
    first: Seq<u8>,
    second: Seq<u8>,
)
    ensures
        ({
            let kept_then = leftover_of(kept + first);
            let socket_then = socket.deliver_all(packets_in(kept + first));
            &&& socket_then.deliver_all(packets_in(kept_then + second)) == socket.deliver_all(
                packets_in(kept + (first + second)),
            )
            &&& leftover_of(kept_then + second) == leftover_of(kept + (first + second))
        }),
{
    assert(kept + (first + second) =~= (kept + first) + second);
    law_feed_in_pieces(kept + first, second);
    law_deliver_in_lots(
        socket.inbound,
        packets_in(kept + first),
        packets_in(leftover_of(kept + first) + second),
    );
}

/// The sub-connections that are alive are all of those, and only those, whose life has not ended.
/// Each is what it was, and they keep their order and their names; `kept` tells where they stand.
pub proof fn law_live_are_those_alive(conns: Seq<SubConn>) -> (kept: Seq<int>)
    ensures
        kept.len() == live(conns).len(),
        ids(live(conns)).len() == kept.len(),
        forall|i: int|
            0 <= i < kept.len() ==> 0 <= #[trigger] kept[i] < conns.len() && conns[kept[i]].alive
                && live(conns)[i] == conns[kept[i]] && ids(live(conns))[i] == conns[kept[i]].id,
        forall|i: int, j: int| 0 <= i < j < kept.len() ==> #[trigger] kept[i] < #[trigger] kept[j],
        forall|k: int| 0 <= k < conns.len() && (#[trigger] conns[k]).alive ==> kept.contains(k),
{
    let kept = lemma_live_is_part(conns, conns.len() as int);
    assert(conns.take(conns.len() as int) =~= conns);
    kept
}

/// No two sub-connections are the first of the least loaded.
pub proof fn law_least_loaded_is_unique(conns: Seq<SubConn>, first: int, second: int)
    requires
        is_least_loaded(conns, first),
        is_least_loaded(conns, second),
    ensures
        first == second,
{
    assert(conns[first].queued_bytes <= conns[second].queued_bytes);
    assert(conns[second].queued_bytes <= conns[first].queued_bytes);
}

/// Once a frame is written, the bytes that are counted as queued are what they were before it
/// was handed over.
pub proof fn law_queue_is_balanced(socket: SocketView, index: int, len: usize)
    requires
        socket.wf(),
        0 <= index < socket.conns.len(),
    ensures
        socket.queue(index, len).unqueue(socket.conns[index].id, len) == socket,
{
    assert(socket.queue(index, len).unqueue(socket.conns[index].id, len).conns =~= socket.conns);
}

/// A sub-connection that has ended is gone and stays gone, and ending it once more changes
/// nothing.
pub proof fn law_closing_is_final(socket: SocketView, id: u64)
    requires
        socket.wf(),
    ensures
        !socket.mark_closed(id).is_live(id),
        socket.mark_closed(id).mark_closed(id) == socket.mark_closed(id),
        socket.mark_closed(id).closing_of(id) == Closing::Already,
{
    let retired = without_life(socket.conns, id);
    let from = lemma_live_is_part(retired, retired.len() as int);
    assert(retired.take(retired.len() as int) =~= retired);
    let after = socket.mark_closed(id);
    if socket.is_live(id) && after.is_live(id) {
        let i = choose|i: int|
            0 <= i < after.conns.len() && (#[trigger] after.conns[i]).id == id
                && after.conns[i].alive;
        assert(after.conns[i] == retired[from[i]]);
    }
}

/// Closing a sub-connection that is alive leaves one fewer alive, so that a frame which is offered
/// to one sub-connection after the other finds a taker or runs out of them.
pub proof fn law_closing_takes_one(socket: SocketView, id: u64)
    requires
        socket.wf(),
        socket.is_live(id),
    ensures
        live(socket.mark_closed(id).conns).len() + 1 == live(socket.conns).len(),
{
    let at = choose|i: int|
        0 <= i < socket.conns.len() && (#[trigger] socket.conns[i]).id == id
            && socket.conns[i].alive;
    lemma_one_fewer_live(socket.conns, id, at);
    lemma_live_is_settled(without_life(socket.conns, id));
}

proof fn lemma_one_fewer_live(conns: Seq<SubConn>, id: u64, at: int)
    requires
        forall|i: int, j: int|
            0 <= i < j < conns.len() ==> (#[trigger] conns[i]).id != (#[trigger] conns[j]).id,
        0 <= at < conns.len() ==> conns[at].id == id && conns[at].alive,
        !(0 <= at < conns.len()) ==> forall|i: int|
            0 <= i < conns.len() ==> (#[trigger] conns[i]).id != id,
    ensures
        live(without_life(conns, id)).len() + (if 0 <= at < conns.len() {
            1int
        } else {
            0int
        }) == live(conns).len(),
    decreases conns.len(),
{
    reveal(Seq::filter);
    if conns.len() > 0 {
        let init = conns.drop_last();
        assert(without_life(conns, id).drop_last() =~= without_life(init, id));
        assert(without_life(conns, id).last() == without_life(conns, id)[conns.len() - 1]);
        lemma_one_fewer_live(init, id, at);
    } else {
        assert(without_life(conns, id) =~= conns);
    }
}

/// The socket closes with its last sub-connection, and not before.
pub proof fn law_closes_with_the_last(socket: SocketView, id: u64)
    requires
        socket.wf(),
        socket.is_live(id),
    ensures
        socket.mark_closed(id).closed <==> socket.mark_closed(id).conns.len() == 0,
        socket.closing_of(id) == Closing::Last <==> socket.mark_closed(id).closed,
        socket.closing_of(id) != Closing::Already,
{
}

/// The reader is told of an end, or told to wait, only when all that arrived in order has
/// been read.
pub proof fn law_end_comes_after_the_data(socket: SocketView, want: int)
    requires
        want > 0,
    ensures
        socket.read_step(want) is Data <==> socket.inbound.readable().len() > 0,
{
    law_read_takes_front(socket.inbound, want);
}

/// A socket whose last sub-connection breaks off inside a frame does not end its stream in
/// silence: once what arrived in order has been read, reads fail. Where it breaks off between
/// frames, the stream ends.
pub proof fn law_broken_frame_is_reported(
    socket: SocketView,
    id: u64,
    inside_frame: bool,
    want: int,
)
    requires
        socket.wf(),
        socket.closing_of(id) == Closing::Last,
        !socket.closing,
        !socket.truncated,
        want > 0,
    ensures
        ({
            let ended = socket.end_input(id, inside_frame);
            &&& ended.closed
            &&& ended.inbound == socket.inbound
            &&& socket.inbound.readable().len() == 0 ==> ended.read_step(want) == (
            if inside_frame {
                ReadStep::Failed(MtcpError::TruncatedFrame)
            } else {
                ReadStep::Eof
            })
        }),
{
    let ended = socket.end_input(id, inside_frame);
    law_read_takes_front(ended.inbound, want);
    let marked = SocketView {
        truncated: socket.truncated || (inside_frame && !socket.closing),
        ..socket
    };
    let at = choose|i: int|
        0 <= i < socket.conns.len() && (#[trigger] socket.conns[i]).id == id
            && socket.conns[i].alive;
    assert(marked.conns[at].id == id && marked.conns[at].alive);
    assert(ended.conns.len() == 0);
    reveal(Seq::filter);
}

/// Reading touches nothing but the receiving side and the sub-connections that are gone: the
/// sending side, the name and what was remembered stay as they are.
pub proof fn law_read_leaves_the_rest(socket: SocketView, want: int)
    requires
        want >= 0,
    ensures
        ({
            let after = socket.after_read(want);
            &&& after.mid == socket.mid
            &&& after.write_pid == socket.write_pid
            &&& after.write_shutdown == socket.write_shutdown
            &&& after.truncated == socket.truncated
            &&& live(after.conns) == live(socket.conns)
        }),
{
    lemma_live_is_settled(socket.conns);
}

proof fn lemma_live_is_settled(conns: Seq<SubConn>)
    ensures
        live(live(conns)) == live(conns),
    decreases conns.len(),
{
    reveal(Seq::filter);
    if conns.len() > 0 {
        let init = conns.drop_last();
        lemma_live_is_settled(init);
        if conns.last().alive {
            assert(live(conns).drop_last() =~= live(init));
        }
    }
}

} // verus!
