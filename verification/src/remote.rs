//! The settings of the remote program, from its environment and its arguments.
use crate::args::{next_value, parse_u16, unknown_argument_text};
use crate::bridge::RemoteConfig;
use crate::text::same_text;
use vstd::prelude::*;

#[allow(unused_imports)]
use crate::args::{
    law_settings_are_the_numbers_given, lemma_later_flag, missing_value, names_flag, u16_setting,
    unknown_argument,
};
#[allow(unused_imports)]
use crate::bridge::RemoteSettings;
#[allow(unused_imports)]
use crate::text::{number_in, string_views};

verus! {

pub const USAGE: &'static str = "\
Usage: remote [options]

Options:
  --listen-host <host>
  --listen-port <port>
  --upstream-host <host>
  --upstream-port <port>

Env overrides:
  MTCP_LISTEN_HOST
  MTCP_LISTEN_PORT
  MTCP_UPSTREAM_HOST
  MTCP_UPSTREAM_PORT
";

/// The variables of the environment that the remote end heeds, as far as they are set.
#[derive(Clone, Debug, Default)]
pub struct RemoteEnv {
    /// `MTCP_LISTEN_HOST`
    pub listen_host: Option<String>,
    /// `MTCP_LISTEN_PORT`
    pub listen_port: Option<String>,
    /// `MTCP_UPSTREAM_HOST`
    pub upstream_host: Option<String>,
    /// `MTCP_UPSTREAM_PORT`
    pub upstream_port: Option<String>,
}

/// A flag that takes a value.
#[derive(Clone, Copy, Debug, PartialEq, Eq, Structural)]
pub enum RemoteFlag {
    ListenHost,
    ListenPort,
    UpstreamHost,
    UpstreamPort,
}

pub open spec fn flag_named(name: Seq<char>) -> Option<RemoteFlag> {
    if name == "--listen-host"@ {
        Some(RemoteFlag::ListenHost)
    } else if name == "--listen-port"@ {
        Some(RemoteFlag::ListenPort)
    } else if name == "--upstream-host"@ {
        Some(RemoteFlag::UpstreamHost)
    } else if name == "--upstream-port"@ {
        Some(RemoteFlag::UpstreamPort)
    } else {
        None
    }
}

/// The settings with one of them given; `label` is how the setting is called in a complaint.
pub open spec fn with_setting(
    settings: RemoteSettings,
    flag: RemoteFlag,
    label: Seq<char>,
    value: Seq<char>,
) -> Result<RemoteSettings, Seq<char>> {
    match flag {
        RemoteFlag::ListenHost => Ok(RemoteSettings { listen_host: value, ..settings }),
        RemoteFlag::ListenPort => match u16_setting(label, value) {
            Ok(listen_port) => Ok(RemoteSettings { listen_port, ..settings }),
            Err(text) => Err(text),
        },
        RemoteFlag::UpstreamHost => Ok(RemoteSettings { upstream_host: value, ..settings }),
        RemoteFlag::UpstreamPort => match u16_setting(label, value) {
            Ok(upstream_port) => Ok(RemoteSettings { upstream_port, ..settings }),
            Err(text) => Err(text),
        },
    }
}

/// The settings with a variable of the environment heeded, if it is set.
pub open spec fn with_variable(
    loaded: Result<RemoteSettings, Seq<char>>,
    flag: RemoteFlag,
    label: Seq<char>,
    value: Option<String>,
) -> Result<RemoteSettings, Seq<char>> {
    match (loaded, value) {
        (Ok(settings), Some(value)) => with_setting(settings, flag, label, value@),
        _ => loaded,
    }
}

/// The settings as the environment gives them.
pub open spec fn from_env(env: RemoteEnv) -> Result<RemoteSettings, Seq<char>> {
    let loaded = Ok::<RemoteSettings, Seq<char>>(RemoteSettings::standard());
    let loaded = with_variable(
        loaded,
        RemoteFlag::ListenHost,
        "MTCP_LISTEN_HOST"@,
        env.listen_host,
    );
    let loaded = with_variable(
        loaded,
        RemoteFlag::ListenPort,
        "MTCP_LISTEN_PORT"@,
        env.listen_port,
    );
    let loaded = with_variable(
        loaded,
        RemoteFlag::UpstreamHost,
        "MTCP_UPSTREAM_HOST"@,
        env.upstream_host,
    );
    with_variable(loaded, RemoteFlag::UpstreamPort, "MTCP_UPSTREAM_PORT"@, env.upstream_port)
}

/// The settings with the arguments heeded, one after the other.
pub open spec fn with_args(settings: RemoteSettings, args: Seq<Seq<char>>) -> Result<
    RemoteSettings,
    Seq<char>,
>
    decreases args.len(),
{
    if args.len() == 0 {
        Ok(settings)
    } else {
        match flag_named(args[0]) {
            Some(flag) => if args.len() == 1 {
                Err(missing_value(args[0], USAGE@))
            } else {
                match with_setting(settings, flag, args[0], args[1]) {
                    Ok(changed) => with_args(changed, args.skip(2)),
                    Err(text) => Err(text),
                }
            },
            None => if args[0] == "--help"@ || args[0] == "-h"@ {
                Err(USAGE@)
            } else {
                Err(unknown_argument(args[0], USAGE@))
            },
        }
    }
}

/// The settings of the program, or what it says instead of starting.
pub open spec fn settings_from(env: RemoteEnv, args: Seq<Seq<char>>) -> Result<
    RemoteSettings,
    Seq<char>,
> {
    match from_env(env) {
        Err(text) => Err(text),
        Ok(settings) => with_args(settings, args),
    }
}

fn flag_of(name: &String) -> (flag: Option<RemoteFlag>)
    ensures
        flag == flag_named(name@),
{
    if same_text(name, "--listen-host") {
        Some(RemoteFlag::ListenHost)
    } else if same_text(name, "--listen-port") {
        Some(RemoteFlag::ListenPort)
    } else if same_text(name, "--upstream-host") {
        Some(RemoteFlag::UpstreamHost)
    } else if same_text(name, "--upstream-port") {
        Some(RemoteFlag::UpstreamPort)
    } else {
        None
    }
}

/// Gives one of the settings.
fn set(config: &mut RemoteConfig, flag: RemoteFlag, label: &str, value: String) -> (result: Result<
    (),
    String,
>)
    ensures
        match result {
            Ok(()) => with_setting(old(config)@, flag, label@, value@) == Ok::<
                RemoteSettings,
                Seq<char>,
            >(final(config)@),
            Err(text) => {
                &&& with_setting(old(config)@, flag, label@, value@) == Err::<
                    RemoteSettings,
                    Seq<char>,
                >(text@)
                &&& final(config)@ == old(config)@
            },
        },
{
    match flag {
        RemoteFlag::ListenHost => {
            config.listen_host = value;
        },
        RemoteFlag::ListenPort => match parse_u16(label, value.as_str()) {
            Ok(number) => {
                config.listen_port = number;
            },
            Err(text) => {
                return Err(text);
            },
        },
        RemoteFlag::UpstreamHost => {
            config.upstream_host = value;
        },
        RemoteFlag::UpstreamPort => match parse_u16(label, value.as_str()) {
            Ok(number) => {
                config.upstream_port = number;
            },
            Err(text) => {
                return Err(text);
            },
        },
    }
    Ok(())
}

/// Heeds a variable of the environment, if it is set.
fn set_variable(
    loaded: Result<RemoteConfig, String>,
    flag: RemoteFlag,
    label: &str,
    value: Option<String>,
) -> (result: Result<RemoteConfig, String>)
    ensures
        config_view(result) == with_variable(config_view(loaded), flag, label@, value),
{
    match (loaded, value) {
        (Ok(config), Some(value)) => {
            let mut changed = config;
            match set(&mut changed, flag, label, value) {
                Ok(()) => Ok(changed),
                Err(text) => Err(text),
            }
        },
        (loaded, _) => loaded,
    }
}

pub open spec fn config_view(loaded: Result<RemoteConfig, String>) -> Result<
    RemoteSettings,
    Seq<char>,
> {
    match loaded {
        Ok(config) => Ok(config@),
        Err(text) => Err(text@),
    }
}

fn load_env(env: RemoteEnv) -> (loaded: Result<RemoteConfig, String>)
    ensures
        config_view(loaded) == from_env(env),
{
    let loaded = Ok(RemoteConfig::default());
    let loaded = set_variable(
        loaded,
        RemoteFlag::ListenHost,
        "MTCP_LISTEN_HOST",
        env.listen_host,
    );
    let loaded = set_variable(
        loaded,
        RemoteFlag::ListenPort,
        "MTCP_LISTEN_PORT",
        env.listen_port,
    );
    let loaded = set_variable(
        loaded,
        RemoteFlag::UpstreamHost,
        "MTCP_UPSTREAM_HOST",
        env.upstream_host,
    );
    set_variable(loaded, RemoteFlag::UpstreamPort, "MTCP_UPSTREAM_PORT", env.upstream_port)
}

fn load_args(config: RemoteConfig, args: &Vec<String>) -> (loaded: Result<RemoteConfig, String>)
    ensures
        config_view(loaded) == with_args(config@, string_views(args@)),
{
    let ghost texts = string_views(args@);
    let mut changed = config;
    let mut at: usize = 0;
    assert(texts.skip(0) =~= texts);
    while at < args.len()
        invariant
            texts == string_views(args@),
            at <= args.len(),
            with_args(changed@, texts.skip(at as int)) == with_args(config@, texts),
        decreases args.len() - at,
    {
        let ghost rest = texts.skip(at as int);
        assert(rest[0] == args@[at as int]@);
        match flag_of(&args[at]) {
            Some(flag) => match next_value(args, at, USAGE) {
                Ok(value) => {
                    assert(rest[1] == value@);
                    assert(rest.skip(2) =~= texts.skip(at + 2));
                    match set(&mut changed, flag, args[at].as_str(), value) {
                        Ok(()) => {
                            at = at + 2;
                        },
                        Err(text) => {
                            return Err(text);
                        },
                    }
                },
                Err(text) => {
                    return Err(text);
                },
            },
            None => {
                if same_text(&args[at], "--help") || same_text(&args[at], "-h") {
                    return Err(USAGE.to_owned());
                }
                return Err(unknown_argument_text(args[at].as_str(), USAGE));
            },
        }
    }
    Ok(changed)
}

/// The settings of the remote end: the standard ones, the environment, then the arguments.
pub fn load_config(env: RemoteEnv, args: &Vec<String>) -> (result: Result<RemoteConfig, String>)
    ensures
        config_view(result) == settings_from(env, string_views(args@)),
{
    match load_env(env) {
        Err(text) => Err(text),
        Ok(config) => load_args(config, args),
    }
}

/// Arguments are heeded in turn, each on top of what those before it made of the settings.
pub proof fn law_arguments_in_turn(
    settings: RemoteSettings,
    first: Seq<Seq<char>>,
    second: Seq<Seq<char>>,
)
    requires
        with_args(settings, first) is Ok,
    ensures
        with_args(settings, first + second) == with_args(with_args(settings, first)->Ok_0, second),
    decreases first.len(),
{
    if first.len() == 0 {
        assert(first + second =~= second);
    } else {
        let flag = flag_named(first[0])->0;
        let changed = with_setting(settings, flag, first[0], first[1])->Ok_0;
        law_arguments_in_turn(changed, first.skip(2), second);
        assert((first + second).skip(2) =~= first.skip(2) + second);
    }
}

/// Where nothing is set, the standard settings hold.
pub proof fn law_standard_settings(env: RemoteEnv)
    requires
        env.listen_host is None,
        env.listen_port is None,
        env.upstream_host is None,
        env.upstream_port is None,
    ensures
        settings_from(env, Seq::empty()) == Ok::<RemoteSettings, Seq<char>>(
            RemoteSettings::standard(),
        ),
{
}

/// A variable of the environment that is set goes before the standard setting.
pub proof fn law_environment_overrides(env: RemoteEnv)
    ensures
        from_env(env) matches Ok(settings) ==> {
            let standard = RemoteSettings::standard();
            &&& settings.listen_host == (match env.listen_host {
                Some(value) => value@,
                None => standard.listen_host,
            })
            &&& Ok::<u16, Seq<char>>(settings.listen_port) == (match env.listen_port {
                Some(value) => u16_setting("MTCP_LISTEN_PORT"@, value@),
                None => Ok(standard.listen_port),
            })
            &&& settings.upstream_host == (match env.upstream_host {
                Some(value) => value@,
                None => standard.upstream_host,
            })
            &&& Ok::<u16, Seq<char>>(settings.upstream_port) == (match env.upstream_port {
                Some(value) => u16_setting("MTCP_UPSTREAM_PORT"@, value@),
                None => Ok(standard.upstream_port),
            })
        },
{
}

/// What an argument sets holds, whatever the settings were before it.
pub proof fn law_arguments_override(
    settings: RemoteSettings,
    flag_name: Seq<char>,
    value: Seq<char>,
)
    requires
        flag_named(flag_name) is Some,
    ensures
        with_args(settings, seq![flag_name, value]) == with_setting(
            settings,
            flag_named(flag_name)->0,
            flag_name,
            value,
        ),
{
    let args = seq![flag_name, value];
    let flag = flag_named(flag_name)->0;
    if let Ok(changed) = with_setting(settings, flag, flag_name, value) {
        assert(args.skip(2).len() == 0);
        assert(with_args(changed, args.skip(2)) == Ok::<RemoteSettings, Seq<char>>(changed));
    }
}

/// Each flag goes by one name, and nothing else is a flag.
pub proof fn law_flags_go_by_their_names(name: Seq<char>)
    ensures
        flag_named("--listen-host"@) == Some(RemoteFlag::ListenHost),
        flag_named("--listen-port"@) == Some(RemoteFlag::ListenPort),
        flag_named("--upstream-host"@) == Some(RemoteFlag::UpstreamHost),
        flag_named("--upstream-port"@) == Some(RemoteFlag::UpstreamPort),
        flag_named(name) is Some <==> name
            == "--listen-host"@ || name
            == "--listen-port"@ || name
            == "--upstream-host"@ || name
            == "--upstream-port"@,
{
    reveal_strlit("--listen-host");
    reveal_strlit("--listen-port");
    reveal_strlit("--upstream-host");
    reveal_strlit("--upstream-port");
    assert("--listen-host"@.len() == 13);
    assert("--listen-port"@.len() == 13);
    assert("--upstream-host"@.len() == 15);
    assert("--upstream-port"@.len() == 15);
    assert("--listen-host"@[9] == 'h');
    assert("--listen-port"@[9] == 'p');
    assert("--upstream-host"@[11] == 'h');
    assert("--upstream-port"@[11] == 'p');
}

/// Giving a setting changes that setting and no other. It succeeds unless a number is called for
/// and what is given is none that fits.
pub proof fn law_a_setting_has_its_place(
    settings: RemoteSettings,
    flag: RemoteFlag,
    label: Seq<char>,
    value: Seq<char>,
)
    ensures
        with_setting(settings, flag, label, value) matches Ok(after) ==> {
            &&& flag != RemoteFlag::ListenHost ==> after.listen_host == settings.listen_host
            &&& flag != RemoteFlag::ListenPort ==> after.listen_port == settings.listen_port
            &&& flag != RemoteFlag::UpstreamHost ==> after.upstream_host == settings.upstream_host
            &&& flag != RemoteFlag::UpstreamPort ==> after.upstream_port == settings.upstream_port
            &&& flag == RemoteFlag::ListenHost ==> after.listen_host == value
            &&& flag == RemoteFlag::ListenPort
                ==> number_in(value) == Some(after.listen_port as nat)
            &&& flag == RemoteFlag::UpstreamHost ==> after.upstream_host == value
            &&& flag == RemoteFlag::UpstreamPort
                ==> number_in(value) == Some(after.upstream_port as nat)
        },
        with_setting(settings, flag, label, value) is Err <==> {
            ||| (flag == RemoteFlag::ListenPort || flag == RemoteFlag::UpstreamPort) && (
            number_in(value) is None || number_in(value)->0 > 65535)
        },
        with_setting(settings, flag, label, value) matches Err(text) ==> text
            == "invalid value for "@ + label + ": "@ + value,
{
    law_settings_are_the_numbers_given(label, value, 0, 0);
}

/// A setting that no argument names stays as it is.
pub proof fn law_unnamed_settings_stay(settings: RemoteSettings, args: Seq<Seq<char>>)
    ensures
        with_args(settings, args) matches Ok(after) ==> {
            &&& !names_flag(args, "--listen-host"@) ==> after.listen_host == settings.listen_host
            &&& !names_flag(args, "--listen-port"@) ==> after.listen_port == settings.listen_port
            &&& !names_flag(args, "--upstream-host"@)
                ==> after.upstream_host == settings.upstream_host
            &&& !names_flag(args, "--upstream-port"@)
                ==> after.upstream_port == settings.upstream_port
        },
    decreases args.len(),
{
    if with_args(settings, args) is Ok && args.len() > 0 {
        let flag = flag_named(args[0])->0;
        let changed = with_setting(settings, flag, args[0], args[1])->Ok_0;
        let rest = args.skip(2);
        law_unnamed_settings_stay(changed, rest);
        law_a_setting_has_its_place(settings, flag, args[0], args[1]);
        assert forall|name: Seq<char>| names_flag(rest, name) implies #[trigger] names_flag(
            args,
            name,
        ) by {
            lemma_later_flag(args, name);
        }
        assert(names_flag(args, args[0]));
    }
}

/// Of the arguments that name a setting the last one counts, whatever comes before it.
pub proof fn law_last_argument_counts(
    settings: RemoteSettings,
    first: Seq<Seq<char>>,
    flag_name: Seq<char>,
    value: Seq<char>,
    second: Seq<Seq<char>>,
)
    requires
        with_args(settings, first) is Ok,
        flag_named(flag_name) is Some,
    ensures
        with_args(settings, first + seq![flag_name, value] + second) matches Ok(after) ==> {
            &&& flag_name == "--listen-host"@ && !names_flag(second, "--listen-host"@)
                ==> after.listen_host == value
            &&& flag_name == "--listen-port"@ && !names_flag(second, "--listen-port"@)
                ==> number_in(value) == Some(after.listen_port as nat)
            &&& flag_name == "--upstream-host"@ && !names_flag(second, "--upstream-host"@)
                ==> after.upstream_host == value
            &&& flag_name == "--upstream-port"@ && !names_flag(second, "--upstream-port"@)
                ==> number_in(value) == Some(after.upstream_port as nat)
        },
{
    let pair = seq![flag_name, value];
    let before = with_args(settings, first)->Ok_0;
    let flag = flag_named(flag_name)->0;
    assert(first + pair + second =~= first + (pair + second));
    law_arguments_in_turn(settings, first, pair + second);
    law_arguments_override(before, flag_name, value);
    law_a_setting_has_its_place(before, flag, flag_name, value);
    law_flags_go_by_their_names(flag_name);
    if with_setting(before, flag, flag_name, value) is Ok {
        law_arguments_in_turn(before, pair, second);
        law_unnamed_settings_stay(with_args(before, pair)->Ok_0, second);
    } else {
        assert((pair + second)[0] == flag_name);
        assert((pair + second)[1] == value);
    }
}

/// The environment is refused if and only if a variable that calls for a number has none that fits,
/// and the complaint is about the first such variable.
pub proof fn law_environment_is_refused_for_numbers_only(env: RemoteEnv)
    ensures
        ({
            let bad_listen_port = env.listen_port matches Some(value)
                && (number_in(value@) is None || number_in(
                value@,
            )->0 > 65535);
            let bad_upstream_port = env.upstream_port matches Some(value)
                && (number_in(value@) is None || number_in(
                value@,
            )->0 > 65535);
            &&& from_env(env) is Err <==> bad_listen_port || bad_upstream_port
            &&& bad_listen_port ==> from_env(env) == Err::<RemoteSettings, Seq<char>>(
                "invalid value for "@ + "MTCP_LISTEN_PORT"@ + ": "@ + env.listen_port->0@,
            )
            &&& !bad_listen_port && bad_upstream_port
                ==> from_env(env) == Err::<RemoteSettings, Seq<char>>(
                "invalid value for "@ + "MTCP_UPSTREAM_PORT"@ + ": "@ + env.upstream_port->0@,
            )
        }),
{
    if let Some(value) = env.listen_port {
        law_settings_are_the_numbers_given("MTCP_LISTEN_PORT"@, value@, 0, 0);
    }
    if let Some(value) = env.upstream_port {
        law_settings_are_the_numbers_given("MTCP_UPSTREAM_PORT"@, value@, 0, 0);
    }
}

/// The arguments are heeded on top of what the environment gives: a setting that no argument names
/// has the value of its variable, or the standard value where the variable is not set.
pub proof fn law_arguments_on_top_of_environment(env: RemoteEnv, args: Seq<Seq<char>>)
    ensures
        from_env(env) matches Err(text)
            ==> settings_from(env, args) == Err::<RemoteSettings, Seq<char>>(text),
        from_env(env) matches Ok(settings) ==> match with_args(settings, args) {
            Err(text) => settings_from(env, args) == Err::<RemoteSettings, Seq<char>>(text),
            Ok(after) => settings_from(env, args) == Ok::<RemoteSettings, Seq<char>>(after),
        },
        settings_from(env, args) matches Ok(after) ==> {
            let standard = RemoteSettings::standard();
            &&& !names_flag(args, "--listen-host"@)
                ==> after.listen_host == (match env.listen_host {
                Some(value) => value@,
                None => standard.listen_host,
            })
            &&& !names_flag(args, "--listen-port"@) ==> (match env.listen_port {
                Some(value) => number_in(value@) == Some(after.listen_port as nat),
                None => after.listen_port == standard.listen_port,
            })
            &&& !names_flag(args, "--upstream-host"@)
                ==> after.upstream_host == (match env.upstream_host {
                Some(value) => value@,
                None => standard.upstream_host,
            })
            &&& !names_flag(args, "--upstream-port"@) ==> (match env.upstream_port {
                Some(value) => number_in(value@) == Some(after.upstream_port as nat),
                None => after.upstream_port == standard.upstream_port,
            })
        },
{
    if let Ok(settings) = from_env(env) {
        law_unnamed_settings_stay(settings, args);
        law_environment_overrides(env);
        if let Some(value) = env.listen_port {
            law_settings_are_the_numbers_given("MTCP_LISTEN_PORT"@, value@, settings.listen_port, 0);
        }
        if let Some(value) = env.upstream_port {
            law_settings_are_the_numbers_given(
                "MTCP_UPSTREAM_PORT"@,
                value@,
                settings.upstream_port,
                0,
            );
        }
    }
}

/// What stops the program: a request for help, an argument that is no flag, a flag without a value
/// and a value that does not fit, each as soon as it is met and with its own text. No argument at
/// all changes nothing.
pub proof fn law_arguments_that_stop_the_program(
    settings: RemoteSettings,
    name: Seq<char>,
    value: Seq<char>,
    rest: Seq<Seq<char>>,
)
    ensures
        with_args(settings, Seq::empty()) == Ok::<RemoteSettings, Seq<char>>(settings),
        name == "--help"@ || name == "-h"@ ==> with_args(settings, seq![name] + rest) == Err::<
            RemoteSettings,
            Seq<char>,
        >(USAGE@),
        flag_named(name) is None && name != "--help"@ && name != "-h"@ ==> with_args(
            settings,
            seq![name] + rest,
        ) == Err::<RemoteSettings, Seq<char>>("unknown argument: "@ + name + "\n\n"@ + USAGE@),
        flag_named(name) is Some ==> with_args(settings, seq![name]) == Err::<
            RemoteSettings,
            Seq<char>,
        >("missing value for "@ + name + "\n\n"@ + USAGE@),
        flag_named(name) matches Some(flag)
            ==> (with_setting(settings, flag, name, value) matches Err(
            text,
        ) ==> with_args(settings, seq![name, value] + rest)
            == Err::<RemoteSettings, Seq<char>>(text)),
{
    reveal_strlit("--help");
    reveal_strlit("-h");
    reveal_strlit("--listen-host");
    reveal_strlit("--listen-port");
    reveal_strlit("--upstream-host");
    reveal_strlit("--upstream-port");
    assert("--help"@.len() == 6);
    assert("-h"@.len() == 2);
    assert("--listen-host"@.len() == 13);
    assert("--listen-port"@.len() == 13);
    assert("--upstream-host"@.len() == 15);
    assert("--upstream-port"@.len() == 15);
    assert((seq![name] + rest)[0] == name);
    assert(seq![name][0] == name);
    assert((seq![name, value] + rest)[0] == name);
    assert((seq![name, value] + rest)[1] == value);
}

} // verus!
