//! The sockets that a client keeps connected ahead of time.
use crate::bridge::ClientConfig;
use vstd::prelude::*;

verus! {

/// The time before the pool looks again, when it is full.
pub const FULL_PAUSE_MILLIS: u64 = 250;

/// The time before the pool tries again, when it could not connect.
pub const RETRY_PAUSE_MILLIS: u64 = 1000;

/// What the thread that fills the pool does next.
#[derive(Clone, Copy, Debug, PartialEq, Eq, Structural)]
pub enum FillStep {
    /// Connect one more socket.
    Connect,
    /// Look again after this many milliseconds.
    Pause(u64),
    /// Look again.
    Check,
}

/// The sockets that are not closed, in their order; `closed[i]` tells of `sockets[i]`.
pub open spec fn still_open<S>(sockets: Seq<S>, closed: Seq<bool>) -> Seq<S>
    decreases sockets.len(),
{
    if sockets.len() == 0 {
        Seq::empty()
    } else {
        let rest = still_open(sockets.drop_last(), closed);
        if closed[sockets.len() - 1] {
            rest
        } else {
            rest.push(sockets.last())
        }
    }
}

/// `index` is the last of the sockets that is not closed.
pub open spec fn is_last_open(closed: Seq<bool>, index: int) -> bool {
    &&& 0 <= index < closed.len()
    &&& !closed[index]
    &&& forall|i: int| index < i < closed.len() ==> #[trigger] closed[i]
}

/// A pool of sockets. What stands for a socket here is up to the program.
pub struct PreconnectPool<S> {
    config: ClientConfig,
    sockets: Vec<S>,
}

impl<S> PreconnectPool<S> {
    pub closed spec fn config_spec(&self) -> ClientConfig {
        self.config
    }

    pub closed spec fn sockets_spec(&self) -> Seq<S> {
        self.sockets@
    }

    pub fn new(config: ClientConfig) -> (pool: Self)
        ensures
            pool.config_spec() == config,
            pool.sockets_spec() == Seq::<S>::empty(),
    {
        PreconnectPool { config, sockets: Vec::new() }
    }

    pub fn config(&self) -> (config: &ClientConfig)
        ensures
            *config == self.config_spec(),
    {
        &self.config
    }

    /// The sockets in the pool, the latest last.
    pub fn sockets(&self) -> (sockets: &Vec<S>)
        ensures
            sockets@ == self.sockets_spec(),
    {
        &self.sockets
    }

    /// Whether the pool is to be filled at all.
    pub fn start(&self) -> (fill: bool)
        ensures
            fill == (self.config_spec().preconnect != 0),
    {
        self.config.preconnect != 0
    }

    /// One look at the pool: sockets that have closed are dropped, and another is asked for
    /// while there are fewer than there should be.
    pub fn fill_loop(&mut self, closed: &[bool]) -> (step: FillStep)
        requires
            closed@.len() == old(self).sockets_spec().len(),
        ensures
            final(self).config_spec() == old(self).config_spec(),
            final(self).sockets_spec() == still_open(old(self).sockets_spec(), closed@),
            step == (if final(self).sockets_spec().len() >= old(self).config_spec().preconnect {
                FillStep::Pause(FULL_PAUSE_MILLIS)
            } else {
                FillStep::Connect
            }),
    {
        let ghost before = self.sockets@;
        let mut kept: usize = 0;
        let mut seen: usize = 0;
        assert(before.take(0) =~= Seq::<S>::empty());
        assert(still_open(before.take(0), closed@) + before.skip(0) =~= before);
        while seen < closed.len()
            invariant
                self.config == old(self).config,
                closed@.len() == before.len(),
                seen <= before.len(),
                kept == still_open(before.take(seen as int), closed@).len(),
                self.sockets@ == still_open(before.take(seen as int), closed@) + before.skip(
                    seen as int,
                ),
            decreases closed.len() - seen,
        {
            proof {
                assert(before.take(seen + 1).drop_last() =~= before.take(seen as int));
                assert(before.skip(seen as int) =~= seq![before[seen as int]] + before.skip(
                    seen + 1,
                ));
            }
            let ghost open = still_open(before.take(seen as int), closed@);
            if closed[seen] {
                let _gone = self.sockets.remove(kept);
                assert(self.sockets@ =~= open + before.skip(seen + 1));
            } else {
                assert(self.sockets@ =~= open.push(before[seen as int]) + before.skip(seen + 1));
                assert(self.sockets@.len() == open.len() + 1 + before.skip(seen + 1).len());
                assert(kept < self.sockets.len());
                kept = kept + 1;
            }
            seen = seen + 1;
        }
        proof {
            assert(before.take(before.len() as int) =~= before);
            assert(still_open(before, closed@) + before.skip(before.len() as int) =~= still_open(
                before,
                closed@,
            ));
        }
        if self.sockets.len() >= self.config.preconnect {
            FillStep::Pause(FULL_PAUSE_MILLIS)
        } else {
            FillStep::Connect
        }
    }

    /// Takes in how the attempt to connect one more socket went.
    pub fn dialed(&mut self, socket: Option<S>) -> (step: FillStep)
        ensures
            final(self).config_spec() == old(self).config_spec(),
            match socket {
                Some(socket) => {
                    &&& final(self).sockets_spec() == old(self).sockets_spec().push(socket)
                    &&& step == FillStep::Check
                },
                None => {
                    &&& final(self).sockets_spec() == old(self).sockets_spec()
                    &&& step == FillStep::Pause(RETRY_PAUSE_MILLIS)
                },
            },
    {
        match socket {
            Some(socket) => {
                self.sockets.push(socket);
                FillStep::Check
            },
            None => FillStep::Pause(RETRY_PAUSE_MILLIS),
        }
    }

    /// Takes the latest socket that is not closed out of the pool, and drops those after it.
    pub fn take(&mut self, closed: &[bool]) -> (socket: Option<S>)
        requires
            closed@.len() == old(self).sockets_spec().len(),
        ensures
            final(self).config_spec() == old(self).config_spec(),
            match socket {
                Some(socket) => exists|index: int| #[trigger]
                    is_last_open(closed@, index) && socket == old(self).sockets_spec()[index]
                        && final(self).sockets_spec() == old(self).sockets_spec().take(index),
                None => {
                    &&& forall|i: int| 0 <= i < closed@.len() ==> #[trigger] closed@[i]
                    &&& final(self).sockets_spec() == Seq::<S>::empty()
                },
            },
    {
        let ghost before = self.sockets@;
        assert(before.take(before.len() as int) =~= before);
        while self.sockets.len() > 0
            invariant
                self.config == old(self).config,
                before == old(self).sockets@,
                closed@.len() == before.len(),
                self.sockets@.len() <= before.len(),
                self.sockets@ == before.take(self.sockets@.len() as int),
                forall|i: int| self.sockets@.len() <= i < closed@.len() ==> #[trigger] closed@[i],
            decreases self.sockets.len(),
        {
            let index: usize = self.sockets.len() - 1;
            let popped = self.sockets.pop();
            assert(self.sockets@ =~= before.take(index as int));
            if !closed[index] {
                assert(is_last_open(closed@, index as int));
                return popped;
            }
        }
        None
    }
}

/// A socket stays in the pool if and only if it is not closed, and those that stay keep their
/// order.
pub proof fn law_open_sockets_stay<S>(sockets: Seq<S>, closed: Seq<bool>) -> (kept: Seq<int>)
    requires
        closed.len() >= sockets.len(),
    ensures
        kept.len() == still_open(sockets, closed).len(),
        forall|i: int|
            0 <= i < kept.len() ==> 0 <= #[trigger] kept[i] < sockets.len() && !closed[kept[i]]
                && still_open(sockets, closed)[i] == sockets[kept[i]],
        forall|i: int, j: int| 0 <= i < j < kept.len() ==> #[trigger] kept[i] < #[trigger] kept[j],
        forall|k: int| 0 <= k < sockets.len() && !(#[trigger] closed[k]) ==> kept.contains(k),
    decreases sockets.len(),
{
    if sockets.len() == 0 {
        Seq::empty()
    } else {
        let last = sockets.len() - 1;
        let before = law_open_sockets_stay(sockets.drop_last(), closed);
        if closed[last] {
            before
        } else {
            let kept = before.push(last);
            assert forall|k: int| 0 <= k < sockets.len() && !(#[trigger] closed[k]) implies
                kept.contains(k) by {
                if k < last {
                    let i = choose|i: int| 0 <= i < before.len() && before[i] == k;
                    assert(kept[i] == k);
                } else {
                    assert(kept[before.len() as int] == k);
                }
            }
            kept
        }
    }
}

/// The socket that is taken out is the latest of those that are open, and the others that are open
/// stay.
pub proof fn law_latest_open_is_taken<S>(sockets: Seq<S>, closed: Seq<bool>, index: int)
    requires
        sockets.len() == closed.len(),
        is_last_open(closed, index),
    ensures
        0 <= index < sockets.len(),
        !closed[index],
        forall|i: int| index < i < closed.len() ==> #[trigger] closed[i],
        still_open(sockets, closed) == still_open(sockets.take(index), closed).push(
            sockets[index],
        ),
{
    lemma_closed_at_the_end(sockets, closed, index + 1);
    assert(sockets.take(index + 1).drop_last() =~= sockets.take(index));
}

proof fn lemma_closed_at_the_end<S>(sockets: Seq<S>, closed: Seq<bool>, from: int)
    requires
        0 <= from <= sockets.len() <= closed.len(),
        forall|i: int| from <= i < sockets.len() ==> #[trigger] closed[i],
    ensures
        still_open(sockets, closed) == still_open(sockets.take(from), closed),
    decreases sockets.len(),
{
    if from < sockets.len() {
        lemma_closed_at_the_end(sockets.drop_last(), closed, from);
        assert(sockets.drop_last().take(from) =~= sockets.take(from));
    } else {
        assert(sockets.take(from) =~= sockets);
    }
}

} // verus!
