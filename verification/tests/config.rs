//! Tests of command-line and configuration-file handling, and of the
//! MAC-mixing debug utility.

use lookaround::app_common::{CliArgError, ConfigError, Params};
use lookaround::avalanche::{mix, unmix};
use lookaround::client::{build_nickname_table, configure_client, configure_find_nick,
    get_peer_nickname, NicknameTable};
use lookaround::server::configure;

fn strings(args: &[&str]) -> Vec<String> {
    args.iter().map(|a| a.to_string()).collect()
}

#[test]
fn default_params() {
    let p = Params::default();
    assert_eq!(p.server_port, 9040);
    // 225.100.99.98
    assert_eq!(p.multicast_addr, 0xe1646362);
}

#[test]
fn client_args_parsed() {
    let args = strings(&["--bind-addr", "10.0.0.1", "--timeout-ms", "250"]);
    let p = configure_client(&args, NicknameTable::new(), vec![]).unwrap();
    assert_eq!(p.bind_addrs, vec![0x0a000001]);
    assert_eq!(p.timeout_ms, 250);
    assert_eq!(p.common.server_port, 9040);
}

#[test]
fn client_defaults_and_detected_addresses() {
    let p = configure_client(&vec![], NicknameTable::new(), vec![0x7f000001]).unwrap();
    assert_eq!(p.bind_addrs, vec![0x7f000001]);
    assert_eq!(p.timeout_ms, 500);
}

#[test]
fn client_rejects_bad_args() {
    let r = configure_client(&strings(&["--frobnicate"]), NicknameTable::new(), vec![]);
    assert!(matches!(
        r,
        Err(ConfigError::Cli(CliArgError::UnrecognizedArgument(_)))
    ));
    let r = configure_client(&strings(&["--bind-addr"]), NicknameTable::new(), vec![]);
    assert!(matches!(
        r,
        Err(ConfigError::Cli(CliArgError::MissingArgumentValue(_)))
    ));
    let r = configure_client(
        &strings(&["--bind-addr", "999.0.0.1"]),
        NicknameTable::new(),
        vec![],
    );
    assert!(matches!(r, Err(ConfigError::BadAddress(_))));
    let r = configure_client(
        &strings(&["--timeout-ms", "soon"]),
        NicknameTable::new(),
        vec![],
    );
    assert!(matches!(r, Err(ConfigError::BadNumber(_))));
}

#[test]
fn server_args_parsed() {
    let mac = Some([1, 2, 3, 4, 5, 6]);
    let args = strings(&["--nickname", "snowflake", "--bind-addr", "192.168.0.2"]);
    let p = configure(&args, mac, vec![]).unwrap();
    assert_eq!(p.nickname, "snowflake");
    assert_eq!(p.bind_addrs, vec![0xc0a80002]);
    assert_eq!(p.our_mac, mac);

    let p = configure(&vec![], None, vec![0x0a000001]).unwrap();
    assert_eq!(p.nickname, "");
    assert_eq!(p.bind_addrs, vec![0x0a000001]);
}

#[test]
fn find_nick_args_parsed() {
    let (needle, timeout) = configure_find_nick(&strings(&["snowflake"])).unwrap();
    assert_eq!(needle, "snowflake");
    assert_eq!(timeout, 500);

    let (needle, timeout) =
        configure_find_nick(&strings(&["--timeout-ms", "900", "phoenix"])).unwrap();
    assert_eq!(needle, "phoenix");
    assert_eq!(timeout, 900);

    let r = configure_find_nick(&strings(&["--timeout-ms", "900"]));
    assert!(matches!(
        r,
        Err(ConfigError::Cli(CliArgError::MissingRequiredArg(_)))
    ));
}

#[test]
fn nickname_table_from_config_pairs() {
    let pairs = vec![
        ("01:01:01:01:01:01".to_string(), "phoenix".to_string()),
        ("not-a-mac".to_string(), "ignored".to_string()),
        ("01:01:01:01:01:01".to_string(), "phoenix2".to_string()),
    ];
    let table = build_nickname_table(&pairs);
    let got = get_peer_nickname(&table, Some([1, 1, 1, 1, 1, 1]), None);
    assert_eq!(got, Some("phoenix2".to_string()));
    let missing = get_peer_nickname(&table, Some([2, 2, 2, 2, 2, 2]), None);
    assert_eq!(missing, None);
}

#[test]
fn mix_round_trips() {
    for input in [
        [0, 0, 0, 0, 0, 0],
        [0, 0, 0, 0, 0, 1],
        [1, 0, 0, 0, 0, 0],
        [1, 0, 0, 0, 0, 1],
    ] {
        assert_eq!(unmix(mix(input)), input);
    }
}
