//! The two ends of a bridge between plain TCP and mTCP: their settings, the client's pool of
//! sockets that are connected ahead of time, and how a bridge comes to its end.
use crate::text::{decimal_text, join_text};
use vstd::prelude::*;
use vstd::string::StringExecFns;

#[allow(unused_imports)]
use crate::text::{
    decimal, joined, law_decimal_reads_back, law_split_undoes_join, number_in, split_on,
    string_views,
};

verus! {

/// The settings of a client bridge.
#[derive(Clone, Debug)]
pub struct ClientConfig {
    pub listen_host: String,
    pub listen_port: u16,
    pub upstream_hosts: Vec<String>,
    pub upstream_port: u16,
    /// Sub-connections per socket, where there is a single upstream host.
    pub pool_count: usize,
    /// Sockets that are kept connected ahead of time.
    pub preconnect: usize,
}

/// The settings of a client bridge, as values.
#[verifier::ext_equal]
pub struct ClientSettings {
    pub listen_host: Seq<char>,
    pub listen_port: u16,
    pub upstream_hosts: Seq<Seq<char>>,
    pub upstream_port: u16,
    pub pool_count: usize,
    pub preconnect: usize,
}

impl View for ClientConfig {
    type V = ClientSettings;

    open spec fn view(&self) -> ClientSettings {
        ClientSettings {
            listen_host: self.listen_host@,
            listen_port: self.listen_port,
            upstream_hosts: string_views(self.upstream_hosts@),
            upstream_port: self.upstream_port,
            pool_count: self.pool_count,
            preconnect: self.preconnect,
        }
    }
}

/// An address as `host:port`.
pub open spec fn address(host: Seq<char>, port: u16) -> Seq<char> {
    host + ":"@ + decimal(port as nat)
}

fn address_text(host: &str, port: u16) -> (text: String)
    ensures
        text@ == address(host@, port),
{
    let mut text = host.to_owned();
    text.append(":");
    text.append(decimal_text(port).as_str());
    text
}

impl ClientSettings {
    pub open spec fn standard() -> ClientSettings {
        ClientSettings {
            listen_host: "0.0.0.0"@,
            listen_port: 5201,
            upstream_hosts: seq!["8.8.8.8"@],
            upstream_port: 15201,
            pool_count: 3,
            preconnect: 10,
        }
    }

    pub open spec fn announcement(self) -> Seq<char> {
        "启动成功:listen tcp:"@ + decimal(self.listen_port as nat) + " -> mtcp:"@ + address(
            joined(self.upstream_hosts, ","@),
            self.upstream_port,
        )
    }
}

impl Default for ClientConfig {
    fn default() -> (config: Self)
        ensures
            config@ == ClientSettings::standard(),
    {
        let mut upstream_hosts: Vec<String> = Vec::new();
        upstream_hosts.push("8.8.8.8".to_owned());
        let config = ClientConfig {
            listen_host: "0.0.0.0".to_owned(),
            listen_port: 5201,
            upstream_hosts,
            upstream_port: 15201,
            pool_count: 3,
            preconnect: 10,
        };
        assert(config@.upstream_hosts =~= ClientSettings::standard().upstream_hosts);
        config
    }
}

impl ClientConfig {
    /// The address to listen on.
    pub fn listen_addr(&self) -> (addr: String)
        ensures
            addr@ == address(self@.listen_host, self@.listen_port),
    {
        address_text(self.listen_host.as_str(), self.listen_port)
    }

    /// The upstream hosts, for people.
    pub fn upstream_label(&self) -> (label: String)
        ensures
            label@ == joined(self@.upstream_hosts, ","@),
    {
        join_text(&self.upstream_hosts, ",")
    }

    /// The line that says that the bridge is up.
    pub fn startup_line(&self) -> (line: String)
        ensures
            line@ == self@.announcement(),
    {
        let mut line = "启动成功:listen tcp:".to_owned();
        line.append(decimal_text(self.listen_port).as_str());
        line.append(" -> mtcp:");
        line.append(
            address_text(self.upstream_label().as_str(), self.upstream_port).as_str(),
        );
        line
    }
}

/// The settings of a remote bridge.
#[derive(Clone, Debug)]
pub struct RemoteConfig {
    pub listen_host: String,
    pub listen_port: u16,
    pub upstream_host: String,
    pub upstream_port: u16,
}

/// The settings of a remote bridge, as values.
#[verifier::ext_equal]
pub struct RemoteSettings {
    pub listen_host: Seq<char>,
    pub listen_port: u16,
    pub upstream_host: Seq<char>,
    pub upstream_port: u16,
}

impl View for RemoteConfig {
    type V = RemoteSettings;

    open spec fn view(&self) -> RemoteSettings {
        RemoteSettings {
            listen_host: self.listen_host@,
            listen_port: self.listen_port,
            upstream_host: self.upstream_host@,
            upstream_port: self.upstream_port,
        }
    }
}

impl RemoteSettings {
    pub open spec fn standard() -> RemoteSettings {
        RemoteSettings {
            listen_host: "0.0.0.0"@,
            listen_port: 15201,
            upstream_host: "0.0.0.0"@,
            upstream_port: 5201,
        }
    }

    pub open spec fn announcement(self) -> Seq<char> {
        "启动成功:listen mtcp:"@ + decimal(self.listen_port as nat) + " -> tcp:"@ + address(
            self.upstream_host,
            self.upstream_port,
        )
    }
}

impl Default for RemoteConfig {
    fn default() -> (config: Self)
        ensures
            config@ == RemoteSettings::standard(),
    {
        RemoteConfig {
            listen_host: "0.0.0.0".to_owned(),
            listen_port: 15201,
            upstream_host: "0.0.0.0".to_owned(),
            upstream_port: 5201,
        }
    }
}

impl RemoteConfig {
    /// The address to listen on.
    pub fn listen_addr(&self) -> (addr: String)
        ensures
            addr@ == address(self@.listen_host, self@.listen_port),
    {
        address_text(self.listen_host.as_str(), self.listen_port)
    }

    /// The line that says that the bridge is up.
    pub fn startup_line(&self) -> (line: String)
        ensures
            line@ == self@.announcement(),
    {
        let mut line = "启动成功:listen mtcp:".to_owned();
        line.append(decimal_text(self.listen_port).as_str());
        line.append(" -> tcp:");
        line.append(address_text(self.upstream_host.as_str(), self.upstream_port).as_str());
        line
    }
}

/// How one of the two copies of a bridge came out.
#[derive(Debug)]
pub enum CopyReport<E> {
    /// It came to the end of its input.
    Done,
    /// It failed.
    Failed(E),
    /// It is gone and will not report.
    Vanished,
}

/// What a bridge does about a report.
#[derive(Clone, Copy, Debug, PartialEq, Eq, Structural)]
pub enum BridgeStep {
    /// Wait for the other copy.
    Await,
    /// Close the socket and shut down the TCP stream, so that the other copy ends too, and
    /// wait for it.
    AbortAndAwait,
    /// Both have reported: join them.
    Join,
    /// Return at once: nothing more will be heard.
    GiveUp,
}

#[derive(Clone, Copy, Debug, PartialEq, Eq, Structural)]
pub enum Direction {
    TcpToMtcp,
    MtcpToTcp,
}

/// Why a bridge failed.
#[derive(Debug)]
pub enum BridgeError<E> {
    /// A copy failed.
    Copy(E),
    /// A copy went away without a report.
    NoStatus,
    /// A copy panicked.
    Panicked(Direction),
}

impl Direction {
    pub open spec fn label_spec(self) -> Seq<char> {
        match self {
            Direction::TcpToMtcp => "tcp -> mtcp"@,
            Direction::MtcpToTcp => "mtcp -> tcp"@,
        }
    }

    pub fn label(&self) -> (label: &'static str)
        ensures
            label@ == self.label_spec(),
    {
        match self {
            Direction::TcpToMtcp => "tcp -> mtcp",
            Direction::MtcpToTcp => "mtcp -> tcp",
        }
    }
}

impl<E> BridgeError<E> {
    pub open spec fn message_spec(self) -> Option<Seq<char>> {
        match self {
            BridgeError::Copy(_) => None,
            BridgeError::NoStatus => Some(
                "bridge copy threads exited before reporting their status"@,
            ),
            BridgeError::Panicked(direction) => Some(
                "bridge thread panicked while copying "@ + direction.label_spec(),
            ),
        }
    }

    /// The text shown to people; a copy that failed has its own.
    pub fn message(&self) -> (message: Option<String>)
        ensures
            match message {
                Some(text) => self.message_spec() == Some(text@),
                None => self.message_spec() is None,
            },
    {
        match self {
            BridgeError::Copy(_) => None,
            BridgeError::NoStatus => Some(
                "bridge copy threads exited before reporting their status".to_owned(),
            ),
            BridgeError::Panicked(direction) => {
                let mut text = "bridge thread panicked while copying ".to_owned();
                text.append(direction.label());
                Some(text)
            },
        }
    }
}

impl<E> CopyReport<E> {
    pub open spec fn error(self) -> Option<E> {
        match self {
            CopyReport::Failed(error) => Some(error),
            _ => None,
        }
    }
}

/// A bridge that is waiting for its two copies to report.
#[derive(Debug)]
pub struct BridgeWait<E> {
    /// The error that was reported first.
    pub error: Option<E>,
    /// The number of reports.
    pub reports: u8,
}

impl<E> BridgeWait<E> {
    pub open spec fn fresh() -> BridgeWait<E> {
        BridgeWait { error: None, reports: 0 }
    }

    /// The state after one more report that did come.
    pub open spec fn heard(self, report: CopyReport<E>) -> BridgeWait<E> {
        BridgeWait {
            error: if self.error is Some {
                self.error
            } else {
                report.error()
            },
            reports: (self.reports + 1) as u8,
        }
    }

    /// How the bridge comes out, once its copies have reported and been joined.
    pub open spec fn outcome(self, forward_joined: bool, backward_joined: bool) -> Result<
        (),
        BridgeError<E>,
    > {
        if !forward_joined {
            Err(BridgeError::Panicked(Direction::TcpToMtcp))
        } else if !backward_joined {
            Err(BridgeError::Panicked(Direction::MtcpToTcp))
        } else {
            match self.error {
                Some(error) => Err(BridgeError::Copy(error)),
                None => Ok(()),
            }
        }
    }

    pub fn new() -> (wait: Self)
        ensures
            wait == BridgeWait::<E>::fresh(),
    {
        BridgeWait { error: None, reports: 0 }
    }

    /// Takes in the report of one of the copies. A failure that is reported first ends the
    /// other copy too.
    pub fn report(&mut self, report: CopyReport<E>) -> (step: BridgeStep)
        requires
            old(self).reports < 2,
        ensures
            report is Vanished ==> step == BridgeStep::GiveUp && *final(self) == *old(self),
            !(report is Vanished) ==> {
                &&& *final(self) == old(self).heard(report)
                &&& step == (if old(self).reports > 0 {
                    BridgeStep::Join
                } else if final(self).error is Some {
                    BridgeStep::AbortAndAwait
                } else {
                    BridgeStep::Await
                })
            },
    {
        let error = match report {
            CopyReport::Vanished => {
                return BridgeStep::GiveUp;
            },
            CopyReport::Done => None,
            CopyReport::Failed(error) => Some(error),
        };
        if self.error.is_none() {
            self.error = error;
        }
        self.reports = self.reports + 1;
        if self.reports > 1 {
            BridgeStep::Join
        } else if self.error.is_some() {
            BridgeStep::AbortAndAwait
        } else {
            BridgeStep::Await
        }
    }

    /// How the bridge came out. It says of each copy whether it could be joined.
    pub fn finish(self, forward_joined: bool, backward_joined: bool) -> (result: Result<
        (),
        BridgeError<E>,
    >)
        ensures
            result == self.outcome(forward_joined, backward_joined),
    {
        if !forward_joined {
            return Err(BridgeError::Panicked(Direction::TcpToMtcp));
        }
        if !backward_joined {
            return Err(BridgeError::Panicked(Direction::MtcpToTcp));
        }
        match self.error {
            Some(error) => Err(BridgeError::Copy(error)),
            None => Ok(()),
        }
    }
}

/// A bridge succeeds if and only if both copies do and neither panics; of two failures the one
/// that was reported first is the bridge's.
pub proof fn law_first_failure_is_reported<E>(
    first: CopyReport<E>,
    second: CopyReport<E>,
    forward_joined: bool,
    backward_joined: bool,
)
    requires
        !(first is Vanished),
        !(second is Vanished),
    ensures
        ({
            let outcome = BridgeWait::<E>::fresh().heard(first).heard(second).outcome(
                forward_joined,
                backward_joined,
            );
            &&& outcome is Ok <==> first is Done && second is Done && forward_joined
                && backward_joined
            &&& first is Failed && forward_joined && backward_joined ==> outcome == Err::<
                (),
                BridgeError<E>,
            >(BridgeError::Copy(first->0))
            &&& first is Done && second is Failed && forward_joined && backward_joined ==> outcome
                == Err::<(), BridgeError<E>>(BridgeError::Copy(second->0))
        }),
{
}

/// A copy that panicked is the bridge's failure, whatever was reported, and the one from TCP goes
/// before the other. Reports are counted, and a first error stays.
pub proof fn law_panics_go_first<E>(wait: BridgeWait<E>, report: CopyReport<E>)
    requires
        wait.reports < 2,
    ensures
        wait.outcome(false, true) == Err::<(), BridgeError<E>>(
            BridgeError::Panicked(Direction::TcpToMtcp),
        ),
        wait.outcome(false, false) == Err::<(), BridgeError<E>>(
            BridgeError::Panicked(Direction::TcpToMtcp),
        ),
        wait.outcome(true, false) == Err::<(), BridgeError<E>>(
            BridgeError::Panicked(Direction::MtcpToTcp),
        ),
        BridgeWait::<E>::fresh().reports == 0,
        BridgeWait::<E>::fresh().error is None,
        wait.heard(report).reports == wait.reports + 1,
        wait.error is Some ==> wait.heard(report).error == wait.error,
        wait.error is None ==> wait.heard(report).error == (match report {
            CopyReport::Failed(error) => Some(error),
            _ => None,
        }),
{
}

/// An address is the host, a colon and the port, which reads back as the number that it is.
pub proof fn law_address_reads_back(host: Seq<char>, port: u16)
    ensures
        address(host, port).len() > host.len() + 1,
        address(host, port).take(host.len() as int) == host,
        address(host, port)[host.len() as int] == ':',
        number_in(address(host, port).skip(host.len() as int + 1)) == Some(port as nat),
{
    reveal_strlit(":");
    law_decimal_reads_back(port as nat);
    assert(address(host, port).take(host.len() as int) =~= host);
    assert(address(host, port).skip(host.len() as int + 1) =~= decimal(port as nat));
}

/// The hosts in a client's label come back when it is split at the commas, provided that there are
/// hosts and that no host has a comma in it.
pub proof fn law_label_names_the_hosts(hosts: Seq<Seq<char>>)
    requires
        hosts.len() > 0,
        forall|i: int| 0 <= i < hosts.len() ==> !(#[trigger] hosts[i]).contains(','),
    ensures
        split_on(joined(hosts, ","@), ',') == hosts,
{
    reveal_strlit(",");
    assert(","@ =~= seq![',']);
    law_split_undoes_join(hosts, ',');
}

/// The line that says that a bridge is up names the port that it listens on and the address that it
/// connects to.
pub proof fn law_announcement_names_both_ends(client: ClientSettings, remote: RemoteSettings)
    ensures
        ({
            let line = client.announcement();
            let head = "启动成功:listen tcp:"@ + decimal(client.listen_port as nat) + " -> mtcp:"@;
            &&& line.take(head.len() as int) == head
            &&& line.skip(head.len() as int) == address(
                joined(client.upstream_hosts, ","@),
                client.upstream_port,
            )
        }),
        ({
            let line = remote.announcement();
            let head = "启动成功:listen mtcp:"@ + decimal(remote.listen_port as nat) + " -> tcp:"@;
            &&& line.take(head.len() as int) == head
            &&& line.skip(head.len() as int) == address(remote.upstream_host, remote.upstream_port)
        }),
{
    let line = client.announcement();
    let head = "启动成功:listen tcp:"@ + decimal(client.listen_port as nat) + " -> mtcp:"@;
    assert(line.take(head.len() as int) =~= head);
    assert(line.skip(head.len() as int) =~= address(
        joined(client.upstream_hosts, ","@),
        client.upstream_port,
    ));
    let line = remote.announcement();
    let head = "启动成功:listen mtcp:"@ + decimal(remote.listen_port as nat) + " -> tcp:"@;
    assert(line.take(head.len() as int) =~= head);
    assert(line.skip(head.len() as int) =~= address(remote.upstream_host, remote.upstream_port));
}

} // verus!
