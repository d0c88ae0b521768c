use mtcp_rs::args::{next_value, parse_u16, parse_usize};
use mtcp_rs::client::{self, ClientEnv};
use mtcp_rs::remote::{self, RemoteEnv};
use mtcp_rs::text::{chars_of, decimal_text, is_whitespace, join_text, parse_number, split_hosts};

fn args(list: &[&str]) -> Vec<String> {
    list.iter().map(|arg| arg.to_string()).collect()
}

fn some(text: &str) -> Option<String> {
    Some(text.to_string())
}

#[test]
fn decimals_match_the_standard_ones() {
    for number in 0..=u16::MAX {
        let text = decimal_text(number);
        assert_eq!(text, number.to_string());
        assert_eq!(parse_number(&text, 65_535), Some(number as usize));
    }
}

#[test]
fn numbers_are_read_as_the_standard_library_reads_them() {
    let samples = [
        "", "+", "-", "0", "-0", "+0", "00", "007", "+42", "++1", "1+", " 1", "1 ", "1_000", "0x10",
        "65535", "65536", "65536000000000000000000", "18446744073709551615", "18446744073709551616",
        "99999999999999999999", "٣", "1.0", "abc", "12a", "000000000000000000000000000012",
    ];
    for sample in samples {
        assert_eq!(parse_u16("x", sample).ok(), sample.parse::<u16>().ok());
        assert_eq!(parse_usize("x", sample).ok(), sample.parse::<usize>().ok());
    }
}

#[test]
fn white_space_is_what_the_standard_library_says() {
    for code in 0..=0x10ffffu32 {
        if let Some(c) = char::from_u32(code) {
            assert_eq!(is_whitespace(c), c.is_whitespace());
        }
    }
}

#[test]
fn host_lists_are_cut_at_commas() {
    let samples = [
        "", ",", "a", "a,b", " a , b ,", ",,a,,b,,", "\t\n x y \u{a0},\u{3000}", "启动, 成功 ,",
        "1.1.1.1,2.2.2.2,3.3.3.3",
    ];
    for sample in samples {
        let expected: Vec<String> = sample
            .split(',')
            .map(str::trim)
            .filter(|host| !host.is_empty())
            .map(ToOwned::to_owned)
            .collect();
        assert_eq!(split_hosts(sample), expected);
    }
    assert_eq!(split_hosts(" a ,, b"), args(&["a", "b"]));
}

#[test]
fn text_is_joined_and_taken_apart() {
    assert_eq!(join_text(&args(&["a", "b", "c"]), ", "), "a, b, c");
    assert_eq!(join_text(&args(&["a"]), ", "), "a");
    assert_eq!(join_text(&args(&[]), ", "), "");
    assert_eq!(chars_of("a启b"), vec!['a', '启', 'b']);
}

#[test]
fn complaints_about_values() {
    assert_eq!(
        parse_u16("--listen-port", "70000").unwrap_err(),
        "invalid value for --listen-port: 70000"
    );
    assert_eq!(
        parse_usize("MTCP_POOL_COUNT", "many").unwrap_err(),
        "invalid value for MTCP_POOL_COUNT: many"
    );
    let list = args(&["--a", "b"]);
    assert_eq!(next_value(&list, 0, "U"), Ok("b".to_string()));
    assert_eq!(
        next_value(&list, 1, "U"),
        Err("missing value for b\n\nU".to_string())
    );
}

#[test]
fn client_without_settings_uses_the_standard_ones() {
    let config = client::load_config(ClientEnv::default(), &args(&[])).unwrap();
    assert_eq!(config.listen_addr(), "0.0.0.0:5201");
    assert_eq!(config.upstream_hosts, args(&["8.8.8.8"]));
}

#[test]
fn client_environment_is_heeded() {
    let env = ClientEnv {
        listen_host: some("127.0.0.1"),
        listen_port: some("1"),
        upstream_host: some("ignored"),
        upstream_hosts: some("a, b"),
        upstream_port: some("2"),
        pool_count: some("4"),
        preconnect: some("0"),
    };
    let config = client::load_config(env, &args(&[])).unwrap();
    assert_eq!(config.listen_host, "127.0.0.1");
    assert_eq!(config.listen_port, 1);
    assert_eq!(config.upstream_hosts, args(&["a", "b"]));
    assert_eq!(config.upstream_port, 2);
    assert_eq!(config.pool_count, 4);
    assert_eq!(config.preconnect, 0);

    let env = ClientEnv { upstream_host: some(" one "), ..ClientEnv::default() };
    let config = client::load_config(env, &args(&[])).unwrap();
    assert_eq!(config.upstream_hosts, args(&[" one "]));
}

#[test]
fn client_arguments_go_before_the_environment() {
    let env = ClientEnv { listen_port: some("1"), ..ClientEnv::default() };
    let list = args(&[
        "--listen-host", "h", "--listen-port", "2", "--upstream-hosts", "x,y", "--upstream-port",
        "3", "--pool-count", "5", "--preconnect", "6", "--listen-port", "7",
    ]);
    let config = client::load_config(env, &list).unwrap();
    assert_eq!(config.listen_host, "h");
    assert_eq!(config.listen_port, 7);
    assert_eq!(config.upstream_hosts, args(&["x", "y"]));
    assert_eq!(config.upstream_port, 3);
    assert_eq!(config.pool_count, 5);
    assert_eq!(config.preconnect, 6);

    let list = args(&["--upstream-hosts", "x,y", "--upstream-host", "z"]);
    let config = client::load_config(ClientEnv::default(), &list).unwrap();
    assert_eq!(config.upstream_hosts, args(&["z"]));
}

#[test]
fn client_complaints() {
    let load = |list: &[&str]| client::load_config(ClientEnv::default(), &args(list)).unwrap_err();
    let usage = client::USAGE;
    assert!(usage.starts_with("Usage: client [options]\n\nOptions:\n  --listen-host <host>\n"));
    assert!(usage.ends_with("  MTCP_POOL_COUNT\n  MTCP_PRECONNECT\n"));
    assert_eq!(load(&["--help"]), usage);
    assert_eq!(load(&["-h"]), usage);
    assert_eq!(load(&["--what"]), format!("unknown argument: --what\n\n{usage}"));
    assert_eq!(
        load(&["--listen-port"]),
        format!("missing value for --listen-port\n\n{usage}")
    );
    assert_eq!(load(&["--pool-count", "x"]), "invalid value for --pool-count: x");
    assert_eq!(
        load(&["--upstream-hosts", " , "]),
        format!("at least one upstream host is required\n\n{usage}")
    );
    let env = ClientEnv { upstream_port: some("x"), ..ClientEnv::default() };
    assert_eq!(
        client::load_config(env, &args(&["--help"])).unwrap_err(),
        "invalid value for MTCP_UPSTREAM_PORT: x"
    );
}

#[test]
fn remote_settings_are_loaded() {
    let config = remote::load_config(RemoteEnv::default(), &args(&[])).unwrap();
    assert_eq!(config.listen_addr(), "0.0.0.0:15201");
    let env = RemoteEnv {
        listen_host: some("e"),
        listen_port: some("1"),
        upstream_host: some("f"),
        upstream_port: some("2"),
    };
    let config = remote::load_config(env, &args(&["--upstream-port", "3"])).unwrap();
    assert_eq!(config.listen_addr(), "e:1");
    assert_eq!(config.upstream_host, "f");
    assert_eq!(config.upstream_port, 3);
    let list = args(&["--listen-host", "a", "--listen-port", "9", "--upstream-host", "b"]);
    let config = remote::load_config(RemoteEnv::default(), &list).unwrap();
    assert_eq!(config.listen_addr(), "a:9");
    assert_eq!(config.upstream_host, "b");
}

#[test]
fn remote_complaints() {
    let load = |list: &[&str]| remote::load_config(RemoteEnv::default(), &args(list)).unwrap_err();
    let usage = remote::USAGE;
    assert!(usage.starts_with("Usage: remote [options]\n"));
    assert_eq!(load(&["--help"]), usage);
    assert_eq!(
        load(&["--pool-count", "1"]),
        format!("unknown argument: --pool-count\n\n{usage}")
    );
    assert_eq!(
        load(&["--upstream-host"]),
        format!("missing value for --upstream-host\n\n{usage}")
    );
    assert_eq!(load(&["--listen-port", "-1"]), "invalid value for --listen-port: -1");
}
