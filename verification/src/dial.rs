//! Opening the sub-connections of a socket: which host to dial, and what to make of the result.
use crate::connection::MSocket;
use crate::error::MtcpError;
use vstd::prelude::*;

#[allow(unused_imports)]
use crate::connection::{live, SocketView};

verus! {

/// The time between one sub-connection that was opened and the next attempt.
pub const DIAL_PAUSE_MILLIS: u64 = 50;

/// The attempts to open sub-connections, one after the other.
#[derive(Clone, Copy, Debug, PartialEq, Eq, Structural)]
pub struct DialPlan {
    pub host_count: usize,
    pub port: u16,
    /// The number of attempts.
    pub total: usize,
    /// The attempt that comes next.
    pub index: usize,
}

/// What follows an attempt.
#[derive(Clone, Copy, Debug, PartialEq, Eq, Structural)]
pub enum DialStep {
    /// Give up and report why the attempt failed.
    Abort,
    /// Go on at once.
    Next,
    /// Go on after this many milliseconds.
    Pause(u64),
}

/// The number of sub-connections to open: one to each of several hosts, or `pool_count`, and
/// at least one, to a single host.
pub open spec fn dial_total(host_count: int, pool_count: int) -> int {
    if host_count > 1 {
        host_count
    } else if pool_count >= 1 {
        pool_count
    } else {
        1
    }
}

impl DialPlan {
    pub open spec fn wf(self) -> bool {
        &&& 1 <= self.host_count
        &&& self.index <= self.total
        &&& self.host_count > 1 ==> self.total == self.host_count
    }

    /// The host of attempt `index`.
    pub open spec fn host_at(self, index: int) -> int {
        if self.host_count > 1 {
            index
        } else {
            0
        }
    }

    /// The host to dial next, by its place in the list, and the port.
    pub fn next(&self) -> (target: Option<(usize, u16)>)
        requires
            self.wf(),
        ensures
            target == (if self.index < self.total {
                Some((self.host_at(self.index as int) as usize, self.port))
            } else {
                None
            }),
            target matches Some((host, port)) ==> host < self.host_count,
    {
        if self.index >= self.total {
            return None;
        }
        let host: usize = if self.host_count > 1 {
            self.index
        } else {
            0
        };
        Some((host, self.port))
    }

    /// Takes in how the attempt went. The first has to succeed; a later one that fails is
    /// passed over.
    pub fn dialed(&mut self, ok: bool) -> (step: DialStep)
        requires
            old(self).wf(),
            old(self).index < old(self).total,
        ensures
            final(self).wf(),
            *final(self) == (DialPlan { index: (old(self).index + 1) as usize, ..*old(self) }),
            step == (if !ok && old(self).index == 0 {
                DialStep::Abort
            } else if ok && old(self).index + 1 < old(self).total {
                DialStep::Pause(DIAL_PAUSE_MILLIS)
            } else {
                DialStep::Next
            }),
    {
        let first = self.index == 0;
        self.index = self.index + 1;
        if !ok {
            if first {
                DialStep::Abort
            } else {
                DialStep::Next
            }
        } else if self.index < self.total {
            DialStep::Pause(DIAL_PAUSE_MILLIS)
        } else {
            DialStep::Next
        }
    }
}

impl MSocket {
    /// Begins to connect: a socket without a name and without sub-connections, and the
    /// attempts to open some.
    pub fn connect(hosts: &[String], port: u16, pool_count: usize) -> (result: Result<
        (MSocket, DialPlan),
        MtcpError,
    >)
        ensures
            result is Err <==> hosts@.len() == 0,
            match result {
                Err(error) => error == MtcpError::NoUpstreamHost,
                Ok((socket, plan)) => {
                    &&& socket.wf()
                    &&& socket@ == SocketView::fresh(None)
                    &&& plan.wf()
                    &&& plan.host_count == hosts@.len()
                    &&& plan.port == port
                    &&& plan.total == dial_total(hosts@.len() as int, pool_count as int)
                    &&& hosts@.len() > 1 ==> plan.total == hosts@.len()
                    &&& hosts@.len() == 1 && pool_count >= 1 ==> plan.total == pool_count
                    &&& hosts@.len() == 1 && pool_count == 0 ==> plan.total == 1
                    &&& plan.index == 0
                },
            },
    {
        if hosts.len() == 0 {
            return Err(MtcpError::NoUpstreamHost);
        }
        let total: usize = if hosts.len() > 1 {
            hosts.len()
        } else if pool_count >= 1 {
            pool_count
        } else {
            1
        };
        let plan = DialPlan { host_count: hosts.len(), port, total, index: 0 };
        Ok((MSocket::new(None), plan))
    }

    /// After the last attempt: whether there is a sub-connection at all.
    pub fn check_connected(&self) -> (result: Result<(), MtcpError>)
        ensures
            result == (if live(self@.conns).len() == 0 {
                Err::<(), MtcpError>(MtcpError::NoSubConnection)
            } else {
                Ok::<(), MtcpError>(())
            }),
    {
        if self.connection_count() == 0 {
            Err(MtcpError::NoSubConnection)
        } else {
            Ok(())
        }
    }
}

/// A single host is dialled as often as asked, and once where nothing was asked for; of several
/// hosts each is dialled once, whatever was asked for.
pub proof fn law_attempts_are_as_many_as_asked(host_count: int, pool_count: int)
    requires
        1 <= host_count,
        0 <= pool_count,
    ensures
        host_count == 1 && pool_count >= 1 ==> dial_total(host_count, pool_count) == pool_count,
        host_count == 1 && pool_count == 0 ==> dial_total(host_count, pool_count) == 1,
        host_count > 1 ==> dial_total(host_count, pool_count) == host_count,
        dial_total(host_count, pool_count) >= 1,
{
}

/// Every host of several is dialled once, in their order; a single host gets every attempt.
pub proof fn law_hosts_are_dialled_in_turn(plan: DialPlan, index: int)
    requires
        plan.wf(),
        0 <= index < plan.total,
    ensures
        0 <= plan.host_at(index) < plan.host_count,
        plan.host_count > 1 ==> plan.total == plan.host_count && plan.host_at(index) == index,
        plan.host_count == 1 ==> plan.host_at(index) == 0,
{
}

} // verus!
