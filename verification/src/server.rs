//! The server's book-keeping: connection ids, and the sockets that clients have named.
use std::collections::HashMap;
use vstd::prelude::*;

#[allow(unused_imports)]
use crate::protocol::LOGIN_OFFSET;

verus! {

/// Connection ids lie above zero and below this.
pub const CID_LIMIT: u16 = 65_000;

/// The sockets of a server, by name, and where the search for a free connection id goes on.
#[verifier::ext_equal]
pub struct ServerView<S> {
    pub next_cid: u16,
    pub sockets: Map<u16, S>,
}

/// The connection id at which a search begins.
pub open spec fn first_cid(next: u16) -> u16 {
    if next == 0 || next >= CID_LIMIT {
        1
    } else {
        next
    }
}

/// The connection id that comes `steps`, less than one round, after `start`: after the largest
/// the ids begin again at one.
pub open spec fn cid_at(start: u16, steps: int) -> u16 {
    if start + steps < CID_LIMIT {
        (start + steps) as u16
    } else {
        (start + steps - CID_LIMIT + 1) as u16
    }
}

/// The steps that lead from one connection id to another.
pub open spec fn cid_steps(start: u16, goal: u16) -> int {
    if goal >= start {
        goal - start
    } else {
        goal - start + CID_LIMIT - 1
    }
}

impl<S> ServerView<S> {
    pub open spec fn fresh() -> ServerView<S> {
        ServerView { next_cid: 1, sockets: Map::empty() }
    }

    /// No socket goes by the name `cid`.
    pub open spec fn is_free(self, cid: u16) -> bool {
        1 <= cid < CID_LIMIT && !self.sockets.contains_key(cid)
    }

    pub open spec fn has_free(self) -> bool {
        exists|cid: u16| self.is_free(cid)
    }

    /// The search finds its first free connection id after `steps` that are taken.
    pub open spec fn finds_after(self, steps: int) -> bool {
        let start = first_cid(self.next_cid);
        &&& 0 <= steps < CID_LIMIT - 1
        &&& self.is_free(cid_at(start, steps))
        &&& forall|i: int| 0 <= i < steps ==> !self.is_free(#[trigger] cid_at(start, i))
    }

    /// `cid` is the connection id that the search finds.
    pub open spec fn finds(self, cid: u16) -> bool {
        exists|steps: int| #[trigger]
            self.finds_after(steps) && cid == cid_at(first_cid(self.next_cid), steps)
    }

    pub open spec fn allocated(self, cid: u16) -> ServerView<S> {
        ServerView { next_cid: (cid + 1) as u16, ..self }
    }

    pub open spec fn without(self, mid: u16) -> ServerView<S> {
        ServerView { sockets: self.sockets.remove(mid), ..self }
    }

    /// A login names `mid`; `fresh` becomes the socket of that name if there is none.
    pub open spec fn joined(self, mid: u16, fresh: S) -> ServerView<S> {
        if self.sockets.contains_key(mid) {
            self
        } else {
            ServerView { sockets: self.sockets.insert(mid, fresh), ..self }
        }
    }
}

/// With fewer sockets than connection ids, an id is free.
proof fn lemma_few_leave_one_free<S>(server: ServerView<S>)
    requires
        server.sockets.dom().finite(),
        server.sockets.dom().len() < CID_LIMIT - 1,
    ensures
        server.has_free(),
{
    if !server.has_free() {
        let all = <u16 as vstd::set_lib::FiniteRange>::range_set(1, CID_LIMIT);
        <u16 as vstd::set_lib::FiniteRange>::range_properties(1, CID_LIMIT);
        assert forall|cid: u16| #[trigger] all.contains(cid) implies server.sockets.dom().contains(
            cid,
        ) by {
            assert(!server.is_free(cid));
        }
        vstd::set_lib::lemma_len_subset(all, server.sockets.dom());
    }
}

/// How a login was taken in.
#[derive(Clone, Copy, Debug, PartialEq, Eq, Structural)]
pub struct Joining {
    pub mid: u16,
    /// The login was the first to name the socket.
    pub created: bool,
}

/// The sockets of a server. What stands for a socket here is up to the program.
pub struct ServerState<S> {
    next_cid: u16,
    sockets: HashMap<u16, S>,
}

impl<S> View for ServerState<S> {
    type V = ServerView<S>;

    closed spec fn view(&self) -> ServerView<S> {
        ServerView { next_cid: self.next_cid, sockets: self.sockets@ }
    }
}

impl<S> Default for ServerState<S> {
    fn default() -> (state: Self)
        ensures
            state@ == ServerView::<S>::fresh(),
    {
        let state = ServerState { next_cid: 1, sockets: HashMap::new() };
        assert(state@ =~= ServerView::<S>::fresh());
        state
    }
}

impl<S> ServerState<S> {
    /// Whether a connection id can be handed out.
    pub fn has_free_cid(&self) -> (free: bool)
        ensures
            free == self@.has_free(),
    {
        if self.sockets.len() < CID_LIMIT as usize - 1 {
            proof {
                lemma_few_leave_one_free(self@);
            }
            return true;
        }
        let mut cid: u16 = 1;
        while cid < CID_LIMIT
            invariant
                1 <= cid <= CID_LIMIT,
                forall|c: u16| 1 <= c < cid ==> !self@.is_free(c),
            decreases CID_LIMIT - cid,
        {
            if !self.sockets.contains_key(&cid) {
                assert(self@.is_free(cid));
                return true;
            }
            cid = cid + 1;
        }
        false
    }

    /// Hands out the next connection id that no socket goes by.
    pub fn allocate_cid(&mut self) -> (cid: u16)
        requires
            old(self)@.has_free(),
        ensures
            old(self)@.is_free(cid),
            old(self)@.finds(cid),
            final(self)@ == old(self)@.allocated(cid),
            final(self)@.sockets == old(self)@.sockets,
            cid + LOGIN_OFFSET <= u16::MAX,
    {
        let ghost start = first_cid(self.next_cid);
        let ghost span = CID_LIMIT - 1;
        let ghost goal = choose|cid: u16| self@.is_free(cid);
        let ghost reach = cid_steps(start, goal);
        let ghost mut steps: int = 0;
        proof {
            assert(cid_at(start, reach) == goal);
            assert(cid_at(start, 0) == start);
        }
        loop
            invariant
                self@.sockets == old(self)@.sockets,
                start == first_cid(old(self)@.next_cid),
                1 <= start < CID_LIMIT,
                span == CID_LIMIT - 1,
                old(self)@.is_free(cid_at(start, reach)),
                0 <= steps <= reach < span,
                first_cid(self@.next_cid) == cid_at(start, steps),
                forall|i: int| 0 <= i < steps ==> !old(self)@.is_free(#[trigger] cid_at(start, i)),
            decreases reach - steps,
        {
            if self.next_cid == 0 || self.next_cid >= CID_LIMIT {
                self.next_cid = 1;
            }
            let cid: u16 = self.next_cid;
            self.next_cid = cid + 1;
            if !self.sockets.contains_key(&cid) {
                assert(old(self)@.finds_after(steps));
                return cid;
            }
            proof {
                assert(!old(self)@.is_free(cid_at(start, steps)));
                assert(cid_at(start, steps + 1) == first_cid((cid_at(start, steps) + 1) as u16));
                steps = steps + 1;
            }
        }
    }

    /// The socket of that name, if there is one.
    pub fn get(&self, mid: u16) -> (socket: Option<&S>)
        ensures
            match socket {
                Some(socket) => self@.sockets.contains_key(mid) && *socket == self@.sockets[mid],
                None => !self@.sockets.contains_key(mid),
            },
    {
        self.sockets.get(&mid)
    }

    /// Takes in a login that names `mid`: the connection joins the socket of that name, or
    /// else `fresh` becomes it.
    pub fn join(&mut self, mid: u16, fresh: S) -> (joining: Joining)
        ensures
            joining == (Joining { mid, created: !old(self)@.sockets.contains_key(mid) }),
            final(self)@ == old(self)@.joined(mid, fresh),
    {
        if self.sockets.contains_key(&mid) {
            return Joining { mid, created: false };
        }
        self.sockets.insert(mid, fresh);
        Joining { mid, created: true }
    }

    /// The connection could not be attached to its socket. A socket that was made for it goes.
    pub fn attach_failed(&mut self, joining: Joining)
        ensures
            final(self)@ == (if joining.created {
                old(self)@.without(joining.mid)
            } else {
                old(self)@
            }),
    {
        if joining.created {
            self.sockets.remove(&joining.mid);
        }
    }

    /// The socket of that name has closed.
    pub fn socket_closed(&mut self, mid: u16)
        ensures
            final(self)@ == old(self)@.without(mid),
    {
        self.sockets.remove(&mid);
    }
}

/// The search finds one connection id and no other.
pub proof fn law_search_is_determined<S>(server: ServerView<S>, first: u16, second: u16)
    requires
        server.finds(first),
        server.finds(second),
    ensures
        first == second,
{
    let start = first_cid(server.next_cid);
    let a = choose|steps: int| #[trigger]
        server.finds_after(steps) && first == cid_at(start, steps);
    let b = choose|steps: int| #[trigger]
        server.finds_after(steps) && second == cid_at(start, steps);
    if a < b {
        assert(!server.is_free(cid_at(start, a)));
    } else if b < a {
        assert(!server.is_free(cid_at(start, b)));
    }
}

/// Two connections that come one after the other get different ids, unless only one id is
/// free.
pub proof fn law_ids_do_not_repeat_at_once<S>(
    server: ServerView<S>,
    first: u16,
    second: u16,
    other: u16,
)
    requires
        server.finds(first),
        server.allocated(first).finds(second),
        server.is_free(other),
        other != first,
    ensures
        second != first,
{
    let next = server.allocated(first);
    let start = first_cid(next.next_cid);
    let b = choose|steps: int| #[trigger]
        next.finds_after(steps) && second == cid_at(start, steps);
    let span = CID_LIMIT - 1;
    assert(1 <= first < CID_LIMIT);
    if second == first {
        assert(b == span - 1);
        let reach = cid_steps(start, other);
        assert(cid_at(start, reach) == other);
        assert(reach < b);
        assert(!next.is_free(cid_at(start, reach)));
    }
}

/// The search finds an id that no socket goes by, and passes over none: the ids on its way, from
/// where it begins up to the largest and then from one on, are all names of sockets.
pub proof fn law_search_passes_over_taken_ids<S>(server: ServerView<S>, cid: u16, passed: u16)
    requires
        server.finds(cid),
        1 <= passed < 65_000,
        ({
            let start = if 1 <= server.next_cid < 65_000 {
                server.next_cid
            } else {
                1u16
            };
            if start <= cid {
                start <= passed < cid
            } else {
                start <= passed || passed < cid
            }
        }),
    ensures
        1 <= cid < 65_000,
        !server.sockets.contains_key(cid),
        server.sockets.contains_key(passed),
{
    let start = first_cid(server.next_cid);
    let steps = choose|steps: int| #[trigger]
        server.finds_after(steps) && cid == cid_at(start, steps);
    let at = cid_steps(start, passed);
    assert(cid_at(start, at) == passed);
    assert(at < steps);
    assert(!server.is_free(cid_at(start, at)));
}

/// As long as some connection id is free, the search finds one.
pub proof fn law_search_finds_a_free_id<S>(server: ServerView<S>, free: u16) -> (cid: u16)
    requires
        1 <= free < 65_000,
        !server.sockets.contains_key(free),
    ensures
        server.has_free(),
        server.finds(cid),
        1 <= cid < 65_000,
        !server.sockets.contains_key(cid),
{
    assert(server.is_free(free));
    let start = first_cid(server.next_cid);
    let reach = cid_steps(start, free);
    assert(cid_at(start, reach) == free);
    let steps = lemma_first_free(server, reach);
    assert(server.finds_after(steps));
    cid_at(start, steps)
}

proof fn lemma_first_free<S>(server: ServerView<S>, reach: int) -> (steps: int)
    requires
        0 <= reach < CID_LIMIT - 1,
        server.is_free(cid_at(first_cid(server.next_cid), reach)),
    ensures
        server.finds_after(steps),
    decreases reach,
{
    let start = first_cid(server.next_cid);
    if exists|i: int| 0 <= i < reach && server.is_free(#[trigger] cid_at(start, i)) {
        let i = choose|i: int| 0 <= i < reach && server.is_free(#[trigger] cid_at(start, i));
        lemma_first_free(server, i)
    } else {
        reach
    }
}

/// A connection id can be handed out if and only if one of those below the limit is not the name of
/// a socket.
pub proof fn law_room_is_an_unused_id<S>(server: ServerView<S>)
    ensures
        server.has_free() <==> exists|cid: u16|
            1 <= cid < 65_000 && !(#[trigger] server.sockets.contains_key(cid)),
{
    if exists|cid: u16| 1 <= cid < 65_000 && !(#[trigger] server.sockets.contains_key(cid)) {
        let cid = choose|cid: u16|
            1 <= cid < 65_000 && !(#[trigger] server.sockets.contains_key(cid));
        assert(server.is_free(cid));
    }
    if server.has_free() {
        let cid = choose|cid: u16| server.is_free(cid);
        assert(!server.sockets.contains_key(cid));
    }
}

/// No id is skipped: of two connection ids that are handed out one after the other, all those in
/// between are names of sockets.
pub proof fn law_no_free_id_is_skipped<S>(
    server: ServerView<S>,
    first: u16,
    second: u16,
    passed: u16,
)
    requires
        1 <= first < 65_000,
        server.allocated(first).finds(second),
        1 <= passed < 65_000,
        if first < second {
            first < passed < second
        } else {
            first < passed || passed < second
        },
    ensures
        server.sockets.contains_key(passed),
{
    law_search_passes_over_taken_ids(server.allocated(first), second, passed);
}

/// Connection ids count up: the id after one that was handed out comes next if it is free, and
/// after the largest comes one.
pub proof fn law_ids_count_up<S>(server: ServerView<S>, cid: u16, next: u16)
    requires
        1 <= cid < 65_000,
        next == (if cid == 64_999 {
            1int
        } else {
            cid + 1
        }),
        !server.sockets.contains_key(next),
    ensures
        server.allocated(cid).finds(next),
{
    let after = server.allocated(cid);
    let start = first_cid(after.next_cid);
    assert(cid_at(start, 0) == next);
    assert(after.finds_after(0));
}

/// Handing out a connection id leaves the sockets of the server as they are. So a login finds the
/// socket that it names, or finds none, however many ids were handed out since.
pub proof fn law_handing_out_ids_keeps_the_sockets<S>(
    server: ServerView<S>,
    cids: Seq<u16>,
    mid: u16,
    fresh: S,
)
    ensures
        cids.fold_left(server, |state: ServerView<S>, cid: u16| state.allocated(cid)).sockets
            == server.sockets,
        cids.fold_left(
            server,
            |state: ServerView<S>, cid: u16| state.allocated(cid),
        ).joined(mid, fresh).sockets == server.joined(mid, fresh).sockets,
    decreases cids.len(),
{
    if cids.len() > 0 {
        law_handing_out_ids_keeps_the_sockets(server, cids.drop_last(), mid, fresh);
    }
}

/// A login that names a socket leaves every other socket alone, and so does the end of a socket;
/// neither changes which connection id comes next.
pub proof fn law_sockets_do_not_disturb_each_other<S>(
    server: ServerView<S>,
    mid: u16,
    fresh: S,
    other: u16,
)
    requires
        other != mid,
    ensures
        server.joined(mid, fresh).sockets.contains_key(mid),
        server.joined(mid, fresh).sockets[mid] == (if server.sockets.contains_key(mid) {
            server.sockets[mid]
        } else {
            fresh
        }),
        !server.without(mid).sockets.contains_key(mid),
        server.joined(mid, fresh).sockets.contains_key(other) <==> server.sockets.contains_key(
            other,
        ),
        server.without(mid).sockets.contains_key(other) <==> server.sockets.contains_key(other),
        server.sockets.contains_key(other) ==> server.joined(mid, fresh).sockets[other]
            == server.sockets[other] && server.without(mid).sockets[other]
            == server.sockets[other],
        server.joined(mid, fresh).next_cid == server.next_cid,
        server.without(mid).next_cid == server.next_cid,
{
}

/// The first login to name a socket makes it, and every later one joins that same socket.
pub proof fn law_later_logins_join<S>(server: ServerView<S>, mid: u16, fresh: S, other: S)
    requires
        !server.sockets.contains_key(mid),
    ensures
        server.joined(mid, fresh).sockets[mid] == fresh,
        server.joined(mid, fresh).joined(mid, other) == server.joined(mid, fresh),
{
}

/// Taking back a socket that was just made leaves the server as it was.
pub proof fn law_take_back<S>(server: ServerView<S>, mid: u16, fresh: S)
    requires
        !server.sockets.contains_key(mid),
    ensures
        server.joined(mid, fresh).without(mid) == server,
{
    assert(server.joined(mid, fresh).without(mid).sockets =~= server.sockets);
}

} // verus!
