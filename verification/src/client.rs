//! The settings of the client program, from its environment and its arguments.
use crate::args::{next_value, parse_u16, parse_usize, unknown_argument_text};
use crate::bridge::ClientConfig;
use crate::text::{same_text, split_hosts};
use vstd::prelude::*;
use vstd::string::StringExecFns;

#[allow(unused_imports)]
use crate::args::{
    law_settings_are_the_numbers_given, lemma_later_flag, missing_value, names_flag, u16_setting,
    unknown_argument, usize_setting,
};
#[allow(unused_imports)]
use crate::bridge::ClientSettings;
#[allow(unused_imports)]
use crate::text::{names_in, number_in, string_views};

verus! {

pub const USAGE: &'static str = "\
Usage: client [options]

Options:
  --listen-host <host>
  --listen-port <port>
  --upstream-host <host>
  --upstream-hosts <host1,host2,...>
  --upstream-port <port>
  --pool-count <count>
  --preconnect <count>

Env overrides:
  MTCP_LISTEN_HOST
  MTCP_LISTEN_PORT
  MTCP_UPSTREAM_HOST
  MTCP_UPSTREAM_HOSTS
  MTCP_UPSTREAM_PORT
  MTCP_POOL_COUNT
  MTCP_PRECONNECT
";

/// The variables of the environment that the client heeds, as far as they are set.
#[derive(Clone, Debug, Default)]
pub struct ClientEnv {
    /// `MTCP_LISTEN_HOST`
    pub listen_host: Option<String>,
    /// `MTCP_LISTEN_PORT`
    pub listen_port: Option<String>,
    /// `MTCP_UPSTREAM_HOST`
    pub upstream_host: Option<String>,
    /// `MTCP_UPSTREAM_HOSTS`
    pub upstream_hosts: Option<String>,
    /// `MTCP_UPSTREAM_PORT`
    pub upstream_port: Option<String>,
    /// `MTCP_POOL_COUNT`
    pub pool_count: Option<String>,
    /// `MTCP_PRECONNECT`
    pub preconnect: Option<String>,
}

/// A flag that takes a value.
#[derive(Clone, Copy, Debug, PartialEq, Eq, Structural)]
pub enum ClientFlag {
    ListenHost,
    ListenPort,
    UpstreamHost,
    UpstreamHosts,
    UpstreamPort,
    PoolCount,
    Preconnect,
}

pub open spec fn flag_named(name: Seq<char>) -> Option<ClientFlag> {
    if name == "--listen-host"@ {
        Some(ClientFlag::ListenHost)
    } else if name == "--listen-port"@ {
        Some(ClientFlag::ListenPort)
    } else if name == "--upstream-host"@ {
        Some(ClientFlag::UpstreamHost)
    } else if name == "--upstream-hosts"@ {
        Some(ClientFlag::UpstreamHosts)
    } else if name == "--upstream-port"@ {
        Some(ClientFlag::UpstreamPort)
    } else if name == "--pool-count"@ {
        Some(ClientFlag::PoolCount)
    } else if name == "--preconnect"@ {
        Some(ClientFlag::Preconnect)
    } else {
        None
    }
}

/// The settings with one of them given; `label` is how the setting is called in a complaint.
pub open spec fn with_setting(
    settings: ClientSettings,
    flag: ClientFlag,
    label: Seq<char>,
    value: Seq<char>,
) -> Result<ClientSettings, Seq<char>> {
    match flag {
        ClientFlag::ListenHost => Ok(ClientSettings { listen_host: value, ..settings }),
        ClientFlag::ListenPort => match u16_setting(label, value) {
            Ok(listen_port) => Ok(ClientSettings { listen_port, ..settings }),
            Err(text) => Err(text),
        },
        ClientFlag::UpstreamHost => Ok(ClientSettings { upstream_hosts: seq![value], ..settings }),
        ClientFlag::UpstreamHosts => Ok(
            ClientSettings { upstream_hosts: names_in(value), ..settings },
        ),
        ClientFlag::UpstreamPort => match u16_setting(label, value) {
            Ok(upstream_port) => Ok(ClientSettings { upstream_port, ..settings }),
            Err(text) => Err(text),
        },
        ClientFlag::PoolCount => match usize_setting(label, value) {
            Ok(pool_count) => Ok(ClientSettings { pool_count, ..settings }),
            Err(text) => Err(text),
        },
        ClientFlag::Preconnect => match usize_setting(label, value) {
            Ok(preconnect) => Ok(ClientSettings { preconnect, ..settings }),
            Err(text) => Err(text),
        },
    }
}

/// The settings with a variable of the environment heeded, if it is set.
pub open spec fn with_variable(
    loaded: Result<ClientSettings, Seq<char>>,
    flag: ClientFlag,
    label: Seq<char>,
    value: Option<String>,
) -> Result<ClientSettings, Seq<char>> {
    match (loaded, value) {
        (Ok(settings), Some(value)) => with_setting(settings, flag, label, value@),
        _ => loaded,
    }
}

/// The settings as the environment gives them. A list of hosts goes before a single host.
pub open spec fn from_env(env: ClientEnv) -> Result<ClientSettings, Seq<char>> {
    let loaded = Ok::<ClientSettings, Seq<char>>(ClientSettings::standard());
    let loaded = with_variable(
        loaded,
        ClientFlag::ListenHost,
        "MTCP_LISTEN_HOST"@,
        env.listen_host,
    );
    let loaded = with_variable(
        loaded,
        ClientFlag::ListenPort,
        "MTCP_LISTEN_PORT"@,
        env.listen_port,
    );
    let loaded = if env.upstream_hosts is Some {
        with_variable(
            loaded,
            ClientFlag::UpstreamHosts,
            "MTCP_UPSTREAM_HOSTS"@,
            env.upstream_hosts,
        )
    } else {
        with_variable(
            loaded,
            ClientFlag::UpstreamHost,
            "MTCP_UPSTREAM_HOST"@,
            env.upstream_host,
        )
    };
    let loaded = with_variable(
        loaded,
        ClientFlag::UpstreamPort,
        "MTCP_UPSTREAM_PORT"@,
        env.upstream_port,
    );
    let loaded = with_variable(
        loaded,
        ClientFlag::PoolCount,
        "MTCP_POOL_COUNT"@,
        env.pool_count,
    );
    with_variable(loaded, ClientFlag::Preconnect, "MTCP_PRECONNECT"@, env.preconnect)
}

/// The settings with the arguments heeded, one after the other.
pub open spec fn with_args(settings: ClientSettings, args: Seq<Seq<char>>) -> Result<
    ClientSettings,
    Seq<char>,
>
    decreases args.len(),
{
    if args.len() == 0 {
        Ok(settings)
    } else {
        match flag_named(args[0]) {
            Some(flag) => if args.len() == 1 {
                Err(missing_value(args[0], USAGE@))
            } else {
                match with_setting(settings, flag, args[0], args[1]) {
                    Ok(changed) => with_args(changed, args.skip(2)),
                    Err(text) => Err(text),
                }
            },
            None => if args[0] == "--help"@ || args[0] == "-h"@ {
                Err(USAGE@)
            } else {
                Err(unknown_argument(args[0], USAGE@))
            },
        }
    }
}

/// The settings of the program, or what it says instead of starting.
pub open spec fn settings_from(env: ClientEnv, args: Seq<Seq<char>>) -> Result<
    ClientSettings,
    Seq<char>,
> {
    match from_env(env) {
        Err(text) => Err(text),
        Ok(settings) => match with_args(settings, args) {
            Err(text) => Err(text),
            Ok(settings) => if settings.upstream_hosts.len() == 0 {
                Err("at least one upstream host is required\n\n"@ + USAGE@)
            } else {
                Ok(settings)
            },
        },
    }
}

fn flag_of(name: &String) -> (flag: Option<ClientFlag>)
    ensures
        flag == flag_named(name@),
{
    if same_text(name, "--listen-host") {
        Some(ClientFlag::ListenHost)
    } else if same_text(name, "--listen-port") {
        Some(ClientFlag::ListenPort)
    } else if same_text(name, "--upstream-host") {
        Some(ClientFlag::UpstreamHost)
    } else if same_text(name, "--upstream-hosts") {
        Some(ClientFlag::UpstreamHosts)
    } else if same_text(name, "--upstream-port") {
        Some(ClientFlag::UpstreamPort)
    } else if same_text(name, "--pool-count") {
        Some(ClientFlag::PoolCount)
    } else if same_text(name, "--preconnect") {
        Some(ClientFlag::Preconnect)
    } else {
        None
    }
}

/// Gives one of the settings.
fn set(config: &mut ClientConfig, flag: ClientFlag, label: &str, value: String) -> (result: Result<
    (),
    String,
>)
    ensures
        match result {
            Ok(()) => with_setting(old(config)@, flag, label@, value@) == Ok::<
                ClientSettings,
                Seq<char>,
            >(final(config)@),
            Err(text) => {
                &&& with_setting(old(config)@, flag, label@, value@) == Err::<
                    ClientSettings,
                    Seq<char>,
                >(text@)
                &&& final(config)@ == old(config)@
            },
        },
{
    match flag {
        ClientFlag::ListenHost => {
            config.listen_host = value;
        },
        ClientFlag::ListenPort => match parse_u16(label, value.as_str()) {
            Ok(number) => {
                config.listen_port = number;
            },
            Err(text) => {
                return Err(text);
            },
        },
        ClientFlag::UpstreamHost => {
            let mut hosts: Vec<String> = Vec::new();
            hosts.push(value);
            assert(string_views(hosts@) =~= seq![value@]);
            config.upstream_hosts = hosts;
        },
        ClientFlag::UpstreamHosts => {
            config.upstream_hosts = split_hosts(value.as_str());
        },
        ClientFlag::UpstreamPort => match parse_u16(label, value.as_str()) {
            Ok(number) => {
                config.upstream_port = number;
            },
            Err(text) => {
                return Err(text);
            },
        },
        ClientFlag::PoolCount => match parse_usize(label, value.as_str()) {
            Ok(number) => {
                config.pool_count = number;
            },
            Err(text) => {
                return Err(text);
            },
        },
        ClientFlag::Preconnect => match parse_usize(label, value.as_str()) {
            Ok(number) => {
                config.preconnect = number;
            },
            Err(text) => {
                return Err(text);
            },
        },
    }
    Ok(())
}

/// Heeds a variable of the environment, if it is set.
fn set_variable(
    loaded: Result<ClientConfig, String>,
    flag: ClientFlag,
    label: &str,
    value: Option<String>,
) -> (result: Result<ClientConfig, String>)
    ensures
        config_view(result) == with_variable(config_view(loaded), flag, label@, value),
{
    match (loaded, value) {
        (Ok(config), Some(value)) => {
            let mut changed = config;
            match set(&mut changed, flag, label, value) {
                Ok(()) => Ok(changed),
                Err(text) => Err(text),
            }
        },
        (loaded, _) => loaded,
    }
}

pub open spec fn config_view(loaded: Result<ClientConfig, String>) -> Result<
    ClientSettings,
    Seq<char>,
> {
    match loaded {
        Ok(config) => Ok(config@),
        Err(text) => Err(text@),
    }
}

fn load_env(env: ClientEnv) -> (loaded: Result<ClientConfig, String>)
    ensures
        config_view(loaded) == from_env(env),
{
    let loaded = Ok(ClientConfig::default());
    let loaded = set_variable(
        loaded,
        ClientFlag::ListenHost,
        "MTCP_LISTEN_HOST",
        env.listen_host,
    );
    let loaded = set_variable(
        loaded,
        ClientFlag::ListenPort,
        "MTCP_LISTEN_PORT",
        env.listen_port,
    );
    let loaded = if env.upstream_hosts.is_some() {
        set_variable(
            loaded,
            ClientFlag::UpstreamHosts,
            "MTCP_UPSTREAM_HOSTS",
            env.upstream_hosts,
        )
    } else {
        set_variable(loaded, ClientFlag::UpstreamHost, "MTCP_UPSTREAM_HOST", env.upstream_host)
    };
    let loaded = set_variable(
        loaded,
        ClientFlag::UpstreamPort,
        "MTCP_UPSTREAM_PORT",
        env.upstream_port,
    );
    let loaded = set_variable(loaded, ClientFlag::PoolCount, "MTCP_POOL_COUNT", env.pool_count);
    set_variable(loaded, ClientFlag::Preconnect, "MTCP_PRECONNECT", env.preconnect)
}

fn load_args(config: ClientConfig, args: &Vec<String>) -> (loaded: Result<ClientConfig, String>)
    ensures
        config_view(loaded) == with_args(config@, string_views(args@)),
{
    let ghost texts = string_views(args@);
    let mut changed = config;
    let mut at: usize = 0;
    assert(texts.skip(0) =~= texts);
    while at < args.len()
        invariant
            texts == string_views(args@),
            at <= args.len(),
            with_args(changed@, texts.skip(at as int)) == with_args(config@, texts),
        decreases args.len() - at,
    {
        let ghost rest = texts.skip(at as int);
        assert(rest[0] == args@[at as int]@);
        match flag_of(&args[at]) {
            Some(flag) => match next_value(args, at, USAGE) {
                Ok(value) => {
                    assert(rest[1] == value@);
                    assert(rest.skip(2) =~= texts.skip(at + 2));
                    match set(&mut changed, flag, args[at].as_str(), value) {
                        Ok(()) => {
                            at = at + 2;
                        },
                        Err(text) => {
                            return Err(text);
                        },
                    }
                },
                Err(text) => {
                    return Err(text);
                },
            },
            None => {
                if same_text(&args[at], "--help") || same_text(&args[at], "-h") {
                    return Err(USAGE.to_owned());
                }
                return Err(unknown_argument_text(args[at].as_str(), USAGE));
            },
        }
    }
    Ok(changed)
}

/// The settings of the client: the standard ones, the environment, then the arguments.
pub fn load_config(env: ClientEnv, args: &Vec<String>) -> (result: Result<ClientConfig, String>)
    ensures
        config_view(result) == settings_from(env, string_views(args@)),
{
    match load_env(env) {
        Err(text) => Err(text),
        Ok(config) => match load_args(config, args) {
            Err(text) => Err(text),
            Ok(config) => {
                if config.upstream_hosts.len() == 0 {
                    let mut text = "at least one upstream host is required\n\n".to_owned();
                    text.append(USAGE);
                    return Err(text);
                }
                Ok(config)
            },
        },
    }
}

/// Arguments are heeded in turn, each on top of what those before it made of the settings.
pub proof fn law_arguments_in_turn(
    settings: ClientSettings,
    first: Seq<Seq<char>>,
    second: Seq<Seq<char>>,
)
    requires
        with_args(settings, first) is Ok,
    ensures
        with_args(settings, first + second) == with_args(with_args(settings, first)->Ok_0, second),
    decreases first.len(),
{
    if first.len() == 0 {
        assert(first + second =~= second);
    } else {
        let flag = flag_named(first[0])->0;
        let changed = with_setting(settings, flag, first[0], first[1])->Ok_0;
        law_arguments_in_turn(changed, first.skip(2), second);
        assert((first + second).skip(2) =~= first.skip(2) + second);
    }
}

/// Where nothing is set, the standard settings hold; and a program that starts has a host to
/// connect to.
pub proof fn law_settings_are_usable(env: ClientEnv, args: Seq<Seq<char>>)
    ensures
        settings_from(env, args) matches Ok(settings) ==> settings.upstream_hosts.len() > 0,
        args.len() == 0 && env.listen_host is None && env.listen_port is None && env.upstream_host
            is None && env.upstream_hosts is None && env.upstream_port is None && env.pool_count
            is None && env.preconnect is None ==> settings_from(env, args) == Ok::<
            ClientSettings,
            Seq<char>,
        >(ClientSettings::standard()),
{
}

/// A variable of the environment that is set goes before the standard setting, and a list of
/// hosts before a single host.
pub proof fn law_environment_overrides(env: ClientEnv)
    ensures
        from_env(env) matches Ok(settings) ==> {
            let standard = ClientSettings::standard();
            &&& settings.listen_host == (match env.listen_host {
                Some(value) => value@,
                None => standard.listen_host,
            })
            &&& Ok::<u16, Seq<char>>(settings.listen_port) == (match env.listen_port {
                Some(value) => u16_setting("MTCP_LISTEN_PORT"@, value@),
                None => Ok(standard.listen_port),
            })
            &&& settings.upstream_hosts == (match (env.upstream_hosts, env.upstream_host) {
                (Some(list), _) => names_in(list@),
                (None, Some(host)) => seq![host@],
                (None, None) => standard.upstream_hosts,
            })
            &&& Ok::<u16, Seq<char>>(settings.upstream_port) == (match env.upstream_port {
                Some(value) => u16_setting("MTCP_UPSTREAM_PORT"@, value@),
                None => Ok(standard.upstream_port),
            })
            &&& Ok::<usize, Seq<char>>(settings.pool_count) == (match env.pool_count {
                Some(value) => usize_setting("MTCP_POOL_COUNT"@, value@),
                None => Ok(standard.pool_count),
            })
            &&& Ok::<usize, Seq<char>>(settings.preconnect) == (match env.preconnect {
                Some(value) => usize_setting("MTCP_PRECONNECT"@, value@),
                None => Ok(standard.preconnect),
            })
        },
{
}

/// What an argument sets holds, whatever the settings were before it.
pub proof fn law_arguments_override(
    settings: ClientSettings,
    flag_name: Seq<char>,
    value: Seq<char>,
)
    requires
        flag_named(flag_name) is Some,
    ensures
        with_args(settings, seq![flag_name, value]) == with_setting(
            settings,
            flag_named(flag_name)->0,
            flag_name,
            value,
        ),
{
    let args = seq![flag_name, value];
    let flag = flag_named(flag_name)->0;
    if let Ok(changed) = with_setting(settings, flag, flag_name, value) {
        assert(args.skip(2).len() == 0);
        assert(with_args(changed, args.skip(2)) == Ok::<ClientSettings, Seq<char>>(changed));
    }
}

/// Each flag goes by one name, and nothing else is a flag.
pub proof fn law_flags_go_by_their_names(name: Seq<char>)
    ensures
        flag_named("--listen-host"@) == Some(ClientFlag::ListenHost),
        flag_named("--listen-port"@) == Some(ClientFlag::ListenPort),
        flag_named("--upstream-host"@) == Some(ClientFlag::UpstreamHost),
        flag_named("--upstream-hosts"@) == Some(ClientFlag::UpstreamHosts),
        flag_named("--upstream-port"@) == Some(ClientFlag::UpstreamPort),
        flag_named("--pool-count"@) == Some(ClientFlag::PoolCount),
        flag_named("--preconnect"@) == Some(ClientFlag::Preconnect),
        flag_named(name) is Some <==> name
            == "--listen-host"@ || name
            == "--listen-port"@ || name
            == "--upstream-host"@ || name
            == "--upstream-hosts"@ || name
            == "--upstream-port"@ || name
            == "--pool-count"@ || name
            == "--preconnect"@,
{
    reveal_strlit("--listen-host");
    reveal_strlit("--listen-port");
    reveal_strlit("--upstream-host");
    reveal_strlit("--upstream-hosts");
    reveal_strlit("--upstream-port");
    reveal_strlit("--pool-count");
    reveal_strlit("--preconnect");
    assert("--listen-host"@.len() == 13);
    assert("--listen-port"@.len() == 13);
    assert("--upstream-host"@.len() == 15);
    assert("--upstream-hosts"@.len() == 16);
    assert("--upstream-port"@.len() == 15);
    assert("--pool-count"@.len() == 12);
    assert("--preconnect"@.len() == 12);
    assert("--listen-host"@[9] == 'h');
    assert("--listen-port"@[9] == 'p');
    assert("--upstream-host"@[11] == 'h');
    assert("--upstream-port"@[11] == 'p');
    assert("--pool-count"@[3] == 'o');
    assert("--preconnect"@[3] == 'r');
}

/// Giving a setting changes that setting and no other. It succeeds unless a number is called for
/// and what is given is none that fits.
pub proof fn law_a_setting_has_its_place(
    settings: ClientSettings,
    flag: ClientFlag,
    label: Seq<char>,
    value: Seq<char>,
)
    ensures
        with_setting(settings, flag, label, value) matches Ok(after) ==> {
            &&& flag != ClientFlag::ListenHost ==> after.listen_host == settings.listen_host
            &&& flag != ClientFlag::ListenPort ==> after.listen_port == settings.listen_port
            &&& flag != ClientFlag::UpstreamHost && flag != ClientFlag::UpstreamHosts
                ==> after.upstream_hosts == settings.upstream_hosts
            &&& flag != ClientFlag::UpstreamPort ==> after.upstream_port == settings.upstream_port
            &&& flag != ClientFlag::PoolCount ==> after.pool_count == settings.pool_count
            &&& flag != ClientFlag::Preconnect ==> after.preconnect == settings.preconnect
            &&& flag == ClientFlag::ListenHost ==> after.listen_host == value
            &&& flag == ClientFlag::ListenPort
                ==> number_in(value) == Some(after.listen_port as nat)
            &&& flag == ClientFlag::UpstreamHost ==> after.upstream_hosts == seq![value]
            &&& flag == ClientFlag::UpstreamHosts ==> after.upstream_hosts == names_in(value)
            &&& flag == ClientFlag::UpstreamPort
                ==> number_in(value) == Some(after.upstream_port as nat)
            &&& flag == ClientFlag::PoolCount ==> number_in(value) == Some(after.pool_count as nat)
            &&& flag == ClientFlag::Preconnect ==> number_in(value) == Some(after.preconnect as nat)
        },
        with_setting(settings, flag, label, value) is Err <==> {
            ||| (flag == ClientFlag::ListenPort || flag == ClientFlag::UpstreamPort) && (
            number_in(value) is None || number_in(value)->0 > 65535)
            ||| (flag == ClientFlag::PoolCount || flag == ClientFlag::Preconnect) && (
            number_in(value) is None || number_in(value)->0 > usize::MAX)
        },
        with_setting(settings, flag, label, value) matches Err(text) ==> text
            == "invalid value for "@ + label + ": "@ + value,
{
    law_settings_are_the_numbers_given(label, value, 0, 0);
}

/// A setting that no argument names stays as it is.
pub proof fn law_unnamed_settings_stay(settings: ClientSettings, args: Seq<Seq<char>>)
    ensures
        with_args(settings, args) matches Ok(after) ==> {
            &&& !names_flag(args, "--listen-host"@) ==> after.listen_host == settings.listen_host
            &&& !names_flag(args, "--listen-port"@) ==> after.listen_port == settings.listen_port
            &&& !names_flag(args, "--upstream-host"@)
                && !names_flag(args, "--upstream-hosts"@)
                    ==> after.upstream_hosts == settings.upstream_hosts
            &&& !names_flag(args, "--upstream-port"@)
                ==> after.upstream_port == settings.upstream_port
            &&& !names_flag(args, "--pool-count"@) ==> after.pool_count == settings.pool_count
            &&& !names_flag(args, "--preconnect"@) ==> after.preconnect == settings.preconnect
        },
    decreases args.len(),
{
    if with_args(settings, args) is Ok && args.len() > 0 {
        let flag = flag_named(args[0])->0;
        let changed = with_setting(settings, flag, args[0], args[1])->Ok_0;
        let rest = args.skip(2);
        law_unnamed_settings_stay(changed, rest);
        law_a_setting_has_its_place(settings, flag, args[0], args[1]);
        assert forall|name: Seq<char>| names_flag(rest, name) implies #[trigger] names_flag(
            args,
            name,
        ) by {
            lemma_later_flag(args, name);
        }
        assert(names_flag(args, args[0]));
    }
}

/// Of the arguments that name a setting the last one counts, whatever comes before it.
pub proof fn law_last_argument_counts(
    settings: ClientSettings,
    first: Seq<Seq<char>>,
    flag_name: Seq<char>,
    value: Seq<char>,
    second: Seq<Seq<char>>,
)
    requires
        with_args(settings, first) is Ok,
        flag_named(flag_name) is Some,
    ensures
        with_args(settings, first + seq![flag_name, value] + second) matches Ok(after) ==> {
            &&& flag_name == "--listen-host"@ && !names_flag(second, "--listen-host"@)
                ==> after.listen_host == value
            &&& flag_name == "--listen-port"@ && !names_flag(second, "--listen-port"@)
                ==> number_in(value) == Some(after.listen_port as nat)
            &&& flag_name == "--upstream-host"@ && !names_flag(second, "--upstream-host"@)
                && !names_flag(second, "--upstream-hosts"@) ==> after.upstream_hosts == seq![value]
            &&& flag_name == "--upstream-hosts"@ && !names_flag(second, "--upstream-host"@)
                && !names_flag(second, "--upstream-hosts"@)
                    ==> after.upstream_hosts == names_in(value)
            &&& flag_name == "--upstream-port"@ && !names_flag(second, "--upstream-port"@)
                ==> number_in(value) == Some(after.upstream_port as nat)
            &&& flag_name == "--pool-count"@ && !names_flag(second, "--pool-count"@)
                ==> number_in(value) == Some(after.pool_count as nat)
            &&& flag_name == "--preconnect"@ && !names_flag(second, "--preconnect"@)
                ==> number_in(value) == Some(after.preconnect as nat)
        },
{
    let pair = seq![flag_name, value];
    let before = with_args(settings, first)->Ok_0;
    let flag = flag_named(flag_name)->0;
    assert(first + pair + second =~= first + (pair + second));
    law_arguments_in_turn(settings, first, pair + second);
    law_arguments_override(before, flag_name, value);
    law_a_setting_has_its_place(before, flag, flag_name, value);
    law_flags_go_by_their_names(flag_name);
    if with_setting(before, flag, flag_name, value) is Ok {
        law_arguments_in_turn(before, pair, second);
        law_unnamed_settings_stay(with_args(before, pair)->Ok_0, second);
    } else {
        assert((pair + second)[0] == flag_name);
        assert((pair + second)[1] == value);
    }
}

/// The environment is refused if and only if a variable that calls for a number has none that fits,
/// and the complaint is about the first such variable.
pub proof fn law_environment_is_refused_for_numbers_only(env: ClientEnv)
    ensures
        ({
            let bad_listen_port = env.listen_port matches Some(value)
                && (number_in(value@) is None || number_in(
                value@,
            )->0 > 65535);
            let bad_upstream_port = env.upstream_port matches Some(value)
                && (number_in(value@) is None || number_in(
                value@,
            )->0 > 65535);
            let bad_pool_count = env.pool_count matches Some(value)
                && (number_in(value@) is None || number_in(
                value@,
            )->0 > usize::MAX);
            let bad_preconnect = env.preconnect matches Some(value)
                && (number_in(value@) is None || number_in(
                value@,
            )->0 > usize::MAX);
            &&& from_env(env) is Err <==> bad_listen_port || bad_upstream_port
                || bad_pool_count || bad_preconnect
            &&& bad_listen_port ==> from_env(env) == Err::<ClientSettings, Seq<char>>(
                "invalid value for "@ + "MTCP_LISTEN_PORT"@ + ": "@ + env.listen_port->0@,
            )
            &&& !bad_listen_port && bad_upstream_port
                ==> from_env(env) == Err::<ClientSettings, Seq<char>>(
                "invalid value for "@ + "MTCP_UPSTREAM_PORT"@ + ": "@ + env.upstream_port->0@,
            )
            &&& !bad_listen_port && !bad_upstream_port && bad_pool_count
                ==> from_env(env) == Err::<ClientSettings, Seq<char>>(
                "invalid value for "@ + "MTCP_POOL_COUNT"@ + ": "@ + env.pool_count->0@,
            )
            &&& !bad_listen_port && !bad_upstream_port && !bad_pool_count && bad_preconnect
                ==> from_env(env) == Err::<ClientSettings, Seq<char>>(
                "invalid value for "@ + "MTCP_PRECONNECT"@ + ": "@ + env.preconnect->0@,
            )
        }),
{
    if let Some(value) = env.listen_port {
        law_settings_are_the_numbers_given("MTCP_LISTEN_PORT"@, value@, 0, 0);
    }
    if let Some(value) = env.upstream_port {
        law_settings_are_the_numbers_given("MTCP_UPSTREAM_PORT"@, value@, 0, 0);
    }
    if let Some(value) = env.pool_count {
        law_settings_are_the_numbers_given("MTCP_POOL_COUNT"@, value@, 0, 0);
    }
    if let Some(value) = env.preconnect {
        law_settings_are_the_numbers_given("MTCP_PRECONNECT"@, value@, 0, 0);
    }
}

/// The arguments are heeded on top of what the environment gives: a setting that no argument names
/// has the value of its variable, or the standard value where the variable is not set.
pub proof fn law_arguments_on_top_of_environment(env: ClientEnv, args: Seq<Seq<char>>)
    ensures
        from_env(env) matches Err(text)
            ==> settings_from(env, args) == Err::<ClientSettings, Seq<char>>(text),
        from_env(env) matches Ok(settings) ==> match with_args(settings, args) {
            Err(text) => settings_from(env, args) == Err::<ClientSettings, Seq<char>>(text),
            Ok(after) => settings_from(env, args) == (if after.upstream_hosts.len() > 0 {
                Ok::<ClientSettings, Seq<char>>(after)
            } else {
                Err("at least one upstream host is required\n\n"@ + USAGE@)
            }),
        },
        settings_from(env, args) matches Ok(after) ==> {
            let standard = ClientSettings::standard();
            &&& !names_flag(args, "--listen-host"@)
                ==> after.listen_host == (match env.listen_host {
                Some(value) => value@,
                None => standard.listen_host,
            })
            &&& !names_flag(args, "--listen-port"@) ==> (match env.listen_port {
                Some(value) => number_in(value@) == Some(after.listen_port as nat),
                None => after.listen_port == standard.listen_port,
            })
            &&& !names_flag(args, "--upstream-host"@)
                && !names_flag(args, "--upstream-hosts"@)
                    ==> after.upstream_hosts == (match (env.upstream_hosts, env.upstream_host) {
                (Some(list), _) => names_in(list@),
                (None, Some(host)) => seq![host@],
                (None, None) => standard.upstream_hosts,
            })
            &&& !names_flag(args, "--upstream-port"@) ==> (match env.upstream_port {
                Some(value) => number_in(value@) == Some(after.upstream_port as nat),
                None => after.upstream_port == standard.upstream_port,
            })
            &&& !names_flag(args, "--pool-count"@) ==> (match env.pool_count {
                Some(value) => number_in(value@) == Some(after.pool_count as nat),
                None => after.pool_count == standard.pool_count,
            })
            &&& !names_flag(args, "--preconnect"@) ==> (match env.preconnect {
                Some(value) => number_in(value@) == Some(after.preconnect as nat),
                None => after.preconnect == standard.preconnect,
            })
        },
{
    if let Ok(settings) = from_env(env) {
        law_unnamed_settings_stay(settings, args);
        law_environment_overrides(env);
        if let Some(value) = env.listen_port {
            law_settings_are_the_numbers_given("MTCP_LISTEN_PORT"@, value@, settings.listen_port, 0);
        }
        if let Some(value) = env.upstream_port {
            law_settings_are_the_numbers_given(
                "MTCP_UPSTREAM_PORT"@,
                value@,
                settings.upstream_port,
                0,
            );
        }
        if let Some(value) = env.pool_count {
            law_settings_are_the_numbers_given("MTCP_POOL_COUNT"@, value@, 0, settings.pool_count);
        }
        if let Some(value) = env.preconnect {
            law_settings_are_the_numbers_given("MTCP_PRECONNECT"@, value@, 0, settings.preconnect);
        }
    }
}

/// What stops the program: a request for help, an argument that is no flag, a flag without a value
/// and a value that does not fit, each as soon as it is met and with its own text. No argument at
/// all changes nothing.
pub proof fn law_arguments_that_stop_the_program(
    settings: ClientSettings,
    name: Seq<char>,
    value: Seq<char>,
    rest: Seq<Seq<char>>,
)
    ensures
        with_args(settings, Seq::empty()) == Ok::<ClientSettings, Seq<char>>(settings),
        name == "--help"@ || name == "-h"@ ==> with_args(settings, seq![name] + rest) == Err::<
            ClientSettings,
            Seq<char>,
        >(USAGE@),
        flag_named(name) is None && name != "--help"@ && name != "-h"@ ==> with_args(
            settings,
            seq![name] + rest,
        ) == Err::<ClientSettings, Seq<char>>("unknown argument: "@ + name + "\n\n"@ + USAGE@),
        flag_named(name) is Some ==> with_args(settings, seq![name]) == Err::<
            ClientSettings,
            Seq<char>,
        >("missing value for "@ + name + "\n\n"@ + USAGE@),
        flag_named(name) matches Some(flag)
            ==> (with_setting(settings, flag, name, value) matches Err(
            text,
        ) ==> with_args(settings, seq![name, value] + rest)
            == Err::<ClientSettings, Seq<char>>(text)),
{
    reveal_strlit("--help");
    reveal_strlit("-h");
    reveal_strlit("--listen-host");
    reveal_strlit("--listen-port");
    reveal_strlit("--upstream-host");
    reveal_strlit("--upstream-hosts");
    reveal_strlit("--upstream-port");
    reveal_strlit("--pool-count");
    reveal_strlit("--preconnect");
    assert("--help"@.len() == 6);
    assert("-h"@.len() == 2);
    assert("--listen-host"@.len() == 13);
    assert("--listen-port"@.len() == 13);
    assert("--upstream-host"@.len() == 15);
    assert("--upstream-hosts"@.len() == 16);
    assert("--upstream-port"@.len() == 15);
    assert("--pool-count"@.len() == 12);
    assert("--preconnect"@.len() == 12);
    assert((seq![name] + rest)[0] == name);
    assert(seq![name][0] == name);
    assert((seq![name, value] + rest)[0] == name);
    assert((seq![name, value] + rest)[1] == value);
}

} // verus!
