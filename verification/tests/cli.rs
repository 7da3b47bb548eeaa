use clap::error::ErrorKind;
use clap::{Arg, ArgAction, ArgMatches};
use teehee::buffer_budget::RX_BUFFER_DEFAULT_MS;
use teehee::cli::{
    parse_capture_source, parse_chunk_ms, parse_host_port, parse_mtu, parse_port,
    parse_prebuffer_ms, parse_rx_buffer_ms, CaptureSource, Cli, Command, RecvArgs, ResolvedTarget,
    SendArgs,
};
use teehee::mtu_budget::MTU_DEFAULT_BYTES;

fn flag(name: &'static str) -> Arg {
    Arg::new(name).long(name).action(ArgAction::SetTrue)
}

/// The command line, with the library's parsers for its values.
fn command_line() -> clap::Command {
    let send = clap::Command::new("send")
        .arg(Arg::new("host").value_name("HOST"))
        .arg(Arg::new("host-flag").long("host").value_name("HOST").conflicts_with("host"))
        .arg(Arg::new("port").long("port").default_value("5000").value_parser(parse_port))
        .arg(Arg::new("chunk-ms").long("chunk-ms").default_value("20").value_parser(parse_chunk_ms))
        .arg(Arg::new("mtu").long("mtu").default_value("1500").value_parser(parse_mtu))
        .arg(
            Arg::new("capture-source")
                .long("capture-source")
                .default_value("default")
                .value_parser(parse_capture_source),
        )
        .arg(flag("exact-capture-source"))
        .arg(flag("sine"))
        .arg(flag("stats"))
        .arg(flag("mdns"));
    let recv = clap::Command::new("recv")
        .arg(Arg::new("port").long("port").default_value("5000").value_parser(parse_port))
        .arg(
            Arg::new("prebuffer-ms")
                .long("prebuffer-ms")
                .default_value("200")
                .value_parser(parse_prebuffer_ms),
        )
        .arg(
            Arg::new("rx-buffer-ms")
                .long("rx-buffer-ms")
                .default_value("2000")
                .value_parser(parse_rx_buffer_ms),
        )
        .arg(flag("stats"))
        .arg(flag("mdns"));
    clap::Command::new("teehee")
        .subcommand_required(true)
        .subcommand(send)
        .subcommand(recv)
        .subcommand(clap::Command::new("devices"))
}

fn one<T: Clone + Send + Sync + 'static>(m: &ArgMatches, name: &str) -> T {
    m.get_one::<T>(name).cloned().expect("argument has a value")
}

/// Reads a command line.
fn try_parse_from<I, T>(args: I) -> Result<Cli, clap::Error>
where
    I: IntoIterator<Item = T>,
    T: Into<String>,
{
    let matches = command_line().try_get_matches_from(args.into_iter().map(Into::<String>::into))?;
    let command = match matches.subcommand() {
        Some(("send", m)) => Command::Send(SendArgs {
            host: m.get_one::<String>("host").cloned(),
            host_flag: m.get_one::<String>("host-flag").cloned(),
            port: one(m, "port"),
            chunk_ms: one(m, "chunk-ms"),
            mtu: one(m, "mtu"),
            sample_rate: 48_000,
            channels: 2,
            sine: m.get_flag("sine"),
            stats: m.get_flag("stats"),
            capture_source: one(m, "capture-source"),
            exact_capture_source: m.get_flag("exact-capture-source"),
            mdns: m.get_flag("mdns"),
            mdns_timeout_ms: 3_000,
            capture_buffer_ms: 200,
            log_file: None,
            control_port: 0,
            follow_system_volume: false,
        }),
        Some(("recv", m)) => Command::Recv(RecvArgs {
            port: one(m, "port"),
            prebuffer_ms: one(m, "prebuffer-ms"),
            rx_buffer_ms: one(m, "rx-buffer-ms"),
            stats: m.get_flag("stats"),
            mdns: m.get_flag("mdns"),
            log_file: None,
        }),
        _ => Command::Devices,
    };
    Ok(Cli { command })
}

fn make_args(host: Option<&str>, host_flag: Option<&str>, port: u16) -> SendArgs {
    SendArgs {
        host: host.map(String::from),
        host_flag: host_flag.map(String::from),
        port,
        chunk_ms: 20,
        mtu: MTU_DEFAULT_BYTES,
        sample_rate: 48_000,
        channels: 2,
        sine: false,
        stats: false,
        capture_source: CaptureSource::Default,
        exact_capture_source: false,
        mdns: false,
        mdns_timeout_ms: 3_000,
        capture_buffer_ms: 200,
        log_file: None,
        control_port: 0,
        follow_system_volume: false,
    }
}

#[test]
fn send_args_validate_accepts_defaults() {
    let t = make_args(Some("127.0.0.1"), None, 5000)
        .validate()
        .expect("ok");
    assert_eq!(t.host(), Some("127.0.0.1"));
    assert_eq!(t.port(), Some(5000));
}

#[test]
fn send_args_validate_rejects_zero_chunk() {
    let mut args = make_args(Some("127.0.0.1"), None, 5000);
    args.chunk_ms = 0;
    let err = args.validate().unwrap_err();
    assert!(err.contains("chunk-ms"));
}

#[test]
fn send_args_validate_rejects_zero_channels() {
    let mut args = make_args(Some("127.0.0.1"), None, 5000);
    args.channels = 0;
    let err = args.validate().unwrap_err();
    assert!(err.contains("channels"));
}

#[test]
fn validate_accepts_long_form_host() {
    let t = make_args(None, Some("10.0.0.5"), 5000)
        .validate()
        .expect("ok");
    assert_eq!(t.host(), Some("10.0.0.5"));
    assert_eq!(t.port(), Some(5000));
}

#[test]
fn validate_host_port_form_uses_embedded_port() {
    let t = make_args(Some("10.0.0.5:6000"), None, 5000)
        .validate()
        .expect("ok");
    assert_eq!(t.host(), Some("10.0.0.5"));
    assert_eq!(t.port(), Some(6000));
}

#[test]
fn validate_flag_host_with_embedded_port_uses_embedded() {
    let t = make_args(None, Some("10.0.0.5:6000"), 5000)
        .validate()
        .expect("ok");
    assert_eq!(t.host(), Some("10.0.0.5"));
    assert_eq!(t.port(), Some(6000));
}

#[test]
fn validate_rejects_port_override_when_embedded_set() {
    let err = make_args(Some("10.0.0.5:6000"), None, 6001)
        .validate()
        .unwrap_err();
    assert!(err.contains("ambiguous port"));
    assert!(err.contains("6000"));
    assert!(err.contains("6001"));
}

#[test]
fn validate_rejects_missing_host() {
    let err = make_args(None, None, 5000).validate().unwrap_err();
    assert!(err.contains("destination host required"));
}

#[test]
fn validate_rejects_both_positional_and_flag_host() {
    let err = make_args(Some("127.0.0.1"), Some("10.0.0.5"), 5000)
        .validate()
        .unwrap_err();
    assert!(err.contains("not both"));
}

#[test]
fn validate_rejects_invalid_embedded_port() {
    let err = make_args(Some("127.0.0.1:notaport"), None, 5000)
        .validate()
        .unwrap_err();
    assert!(err.contains("invalid port"));
}

#[test]
fn validate_rejects_empty_embedded_port() {
    let err = make_args(Some("127.0.0.1:"), None, 5000)
        .validate()
        .unwrap_err();
    assert!(err.contains("empty port") || err.contains("invalid port"));
}

#[test]
fn parse_host_port_ipv4_no_port() {
    let (h, p) = parse_host_port("192.168.0.10").unwrap();
    assert_eq!(h, "192.168.0.10");
    assert_eq!(p, None);
}

#[test]
fn parse_host_port_ipv4_with_port() {
    let (h, p) = parse_host_port("192.168.0.10:6000").unwrap();
    assert_eq!(h, "192.168.0.10");
    assert_eq!(p, Some(6000));
}

#[test]
fn parse_host_port_ipv6_bracketed_no_port() {
    let (h, p) = parse_host_port("[fe80::1]").unwrap();
    assert_eq!(h, "[fe80::1]");
    assert_eq!(p, None);
}

#[test]
fn parse_host_port_ipv6_bracketed_with_port() {
    let (h, p) = parse_host_port("[fe80::1]:6000").unwrap();
    assert_eq!(h, "[fe80::1]");
    assert_eq!(p, Some(6000));
}

#[test]
fn parse_host_port_bare_ipv6_treated_as_hostname() {
    let (h, p) = parse_host_port("::1").unwrap();
    assert_eq!(h, "::1");
    assert_eq!(p, None);
}

#[test]
fn parse_host_port_rejects_out_of_range_port() {
    assert!(parse_host_port("192.168.0.10:99999").is_err());
}

#[test]
fn parse_host_port_rejects_unterminated_bracket() {
    assert!(parse_host_port("[fe80::1:6000").is_err());
}

#[test]
fn parse_host_port_rejects_unterminated_bracket_no_port() {
    assert!(parse_host_port("[fe80::1").is_err());
}

#[test]
fn clap_parses_dash_dash_host_flag() {
    let cli = try_parse_from(["teehee", "send", "--host", "10.0.0.5", "--sine"])
        .expect("clap must accept --host <ip>");
    let Command::Send(args) = cli.command else {
        panic!("expected Send subcommand");
    };
    assert!(args.host.is_none());
    assert_eq!(args.host_flag.as_deref(), Some("10.0.0.5"));
    assert!(args.sine);
}

#[test]
fn clap_parses_positional_host() {
    let cli = try_parse_from(["teehee", "send", "127.0.0.1"])
        .expect("clap must accept positional HOST");
    let Command::Send(args) = cli.command else {
        panic!("expected Send subcommand");
    };
    assert_eq!(args.host.as_deref(), Some("127.0.0.1"));
    assert!(args.host_flag.is_none());
}

#[test]
fn clap_parses_host_with_embedded_port() {
    let cli = try_parse_from(["teehee", "send", "--host", "10.0.0.5:6000", "--sine"])
        .expect("clap must accept --host with host:port embedded");
    let Command::Send(args) = cli.command else {
        panic!("expected Send subcommand");
    };
    let t = args.validate().expect("validate ok");
    assert_eq!(t.host(), Some("10.0.0.5"));
    assert_eq!(t.port(), Some(6000));
}

#[test]
fn clap_rejects_ambiguous_port_at_parse_time() {
    let cli = try_parse_from(["teehee", "send", "127.0.0.1", "--host", "10.0.0.5"]);
    assert!(
        cli.is_err(),
        "clap must reject positional HOST + --host via conflicts_with"
    );
}

#[test]
fn resolved_target_socket_string_formatting() {
    let t = ResolvedTarget::Explicit {
        host: "10.0.0.5".into(),
        port: 6000,
    };
    assert_eq!(t.to_socket_string(), "10.0.0.5:6000");
}
#[test]
fn capture_source_default_value_is_default() {
    let cli = try_parse_from(["teehee", "send", "--host", "10.0.0.5"])
        .expect("clap must accept default send args");
    let Command::Send(args) = cli.command else {
        panic!("expected Send subcommand");
    };
    assert_eq!(
        args.capture_source,
        CaptureSource::Default,
        "CaptureSource default must preserve v1 default-input behavior"
    );
}

#[test]
fn capture_source_loopback_parses_cleanly() {
    let cli = try_parse_from([
        "teehee",
        "send",
        "--host",
        "10.0.0.5",
        "--capture-source",
        "loopback",
    ])
    .expect("clap must accept --capture-source loopback");
    let Command::Send(args) = cli.command else {
        panic!("expected Send subcommand");
    };
    assert_eq!(args.capture_source, CaptureSource::Loopback);
}

#[test]
fn capture_source_loopback_default_keyword_rejected() {
    let cli = try_parse_from([
        "teehee",
        "send",
        "--host",
        "10.0.0.5",
        "--capture-source",
        "Default",
    ]);
    assert!(
        cli.is_err(),
        "clap must reject 'Default' (capitalised variant name)"
    );
}

#[test]
fn capture_source_unknown_value_rejected() {
    let cli = try_parse_from([
        "teehee",
        "send",
        "--host",
        "10.0.0.5",
        "--capture-source",
        "ffmpeg",
    ]);
    assert!(cli.is_err(), "clap must reject unknown capture sources");
}

#[test]
fn capture_source_is_comparable_by_value() {
    let a = CaptureSource::Loopback;
    let b = CaptureSource::Loopback;
    assert_eq!(a, b, "Copy + PartialEq round-trip");
    let c = CaptureSource::Default;
    assert_ne!(a, c, "different variants must compare unequal");
}

#[test]
fn capture_source_auto_parses_cleanly() {
    let cli = try_parse_from([
        "teehee",
        "send",
        "--host",
        "10.0.0.5",
        "--capture-source",
        "auto",
    ])
    .expect("clap must accept --capture-source auto");
    let Command::Send(args) = cli.command else {
        panic!("expected Send subcommand");
    };
    assert_eq!(
        args.capture_source,
        CaptureSource::Auto,
        "--capture-source auto parses to CaptureSource::Auto"
    );
}

#[test]
fn capture_source_auto_capitalised_rejected() {
    let cli = try_parse_from([
        "teehee",
        "send",
        "--host",
        "10.0.0.5",
        "--capture-source",
        "Auto",
    ]);
    assert!(
        cli.is_err(),
        "clap must reject 'Auto' (capitalised variant name)"
    );
}

#[test]
fn capture_source_auto_partial_alias_rejected() {
    let cli_alias = try_parse_from([
        "teehee",
        "send",
        "--host",
        "10.0.0.5",
        "--capture-source",
        "automatic",
    ]);
    assert!(
        cli_alias.is_err(),
        "clap must reject 'automatic' alias for auto"
    );
    let cli_dash = try_parse_from([
        "teehee",
        "send",
        "--host",
        "10.0.0.5",
        "--capture-source",
        "auto-detect",
    ]);
    assert!(
        cli_dash.is_err(),
        "clap must reject 'auto-detect' partial alias"
    );
}

#[test]
fn capture_source_default_remains_v1_back_compat() {
    let cli_explicit = try_parse_from([
        "teehee",
        "send",
        "--host",
        "10.0.0.5",
        "--capture-source",
        "default",
    ])
    .expect("clap must accept --capture-source default");
    let Command::Send(args) = cli_explicit.command else {
        panic!("expected Send subcommand");
    };
    assert_eq!(args.capture_source, CaptureSource::Default);

    let cli_omitted = try_parse_from(["teehee", "send", "--host", "10.0.0.5"])
        .expect("clap must accept default send args");
    let Command::Send(args) = cli_omitted.command else {
        panic!("expected Send subcommand");
    };
    assert_eq!(
        args.capture_source,
        CaptureSource::Default,
        "omitted --capture-source must preserve the v1 default-input path"
    );
}

#[test]
fn capture_source_auto_in_make_args_helper_roundtrip() {
    let mut args = make_args(Some("127.0.0.1"), None, 5000);
    args.capture_source = CaptureSource::Auto;
    let resolved = args.validate().expect("validate ok");
    assert_eq!(resolved.host(), Some("127.0.0.1"));
    assert_eq!(resolved.port(), Some(5000));
    assert_eq!(
        args.capture_source,
        CaptureSource::Auto,
        "make_args must round-trip CaptureSource::Auto"
    );
}

#[test]
fn exact_capture_source_with_auto_rejected_at_validate() {
    let mut args = make_args(Some("127.0.0.1"), None, 5000);
    args.exact_capture_source = true;
    args.capture_source = CaptureSource::Auto;
    let err = args
        .validate()
        .expect_err("validate must reject --exact-capture-source with --capture-source=auto");
    assert!(
        err.contains("--exact-capture-source"),
        "err must name the strict-mode flag; got: {err}"
    );
    assert!(
        err.contains("auto"),
        "err must name the rejected value; got: {err}"
    );
}

#[test]
fn exact_capture_source_with_default_passes_validate() {
    let mut args = make_args(Some("127.0.0.1"), None, 5000);
    args.exact_capture_source = true;
    args.capture_source = CaptureSource::Default;
    let resolved = args
        .validate()
        .expect("--exact-capture-source + --capture-source=default must validate");
    assert_eq!(resolved.host(), Some("127.0.0.1"));
}

#[test]
fn exact_capture_source_with_loopback_passes_validate() {
    let mut args = make_args(Some("127.0.0.1"), None, 5000);
    args.exact_capture_source = true;
    args.capture_source = CaptureSource::Loopback;
    let resolved = args
        .validate()
        .expect("--exact-capture-source + --capture-source=loopback must validate");
    assert_eq!(resolved.host(), Some("127.0.0.1"));
}

#[test]
fn exact_capture_source_omitted_with_auto_passes_validate() {
    let mut args = make_args(Some("127.0.0.1"), None, 5000);
    args.exact_capture_source = false;
    args.capture_source = CaptureSource::Auto;
    let resolved = args.validate().expect(
        "omitted --exact-capture-source + --capture-source=auto must validate \
             (v1 compat: strict-mode is opt-in)",
    );
    assert_eq!(resolved.host(), Some("127.0.0.1"));
}

#[test]
fn exact_capture_source_clap_parses_cleanly() {
    let cli = try_parse_from([
        "teehee",
        "send",
        "--host",
        "10.0.0.5",
        "--exact-capture-source",
    ])
    .expect("clap must accept --exact-capture-source without other adjustments");
    let Command::Send(args) = cli.command else {
        panic!("expected Send subcommand");
    };
    assert!(
        args.exact_capture_source,
        "clap must set exact_capture_source from --exact-capture-source"
    );
    assert_eq!(
        args.capture_source,
        CaptureSource::Default,
        "capture_source must remain the v1 default (Default) under strict-mode only"
    );
}

#[test]
fn exact_capture_source_clap_rejects_combination_at_parse_time() {
    let cli = try_parse_from([
        "teehee",
        "send",
        "--host",
        "10.0.0.5",
        "--exact-capture-source",
        "--capture-source",
        "auto",
    ])
    .expect("clap parses height OK; validate-step rejects the combination");
    let Command::Send(args) = cli.command else {
        panic!("expected Send subcommand");
    };
    let err = args.validate().expect_err(
        "validate must reject --exact-capture-source + auto (caught late, not at parse)",
    );
    assert!(err.contains("--exact-capture-source"), "err: {err}");
}

#[test]
fn mtu_default_is_default_lan_ethernet_1500() {
    assert_eq!(MTU_DEFAULT_BYTES, 1500);
    let cli = try_parse_from(["teehee", "send", "--host", "10.0.0.5"])
        .expect("clap must accept default send args");
    let Command::Send(args) = cli.command else {
        panic!("expected Send subcommand");
    };
    assert_eq!(
        args.mtu, 1500,
        "--mtu default must be MTU_DEFAULT_BYTES (1500)"
    );
}

#[test]
fn mtu_explicit_ipv6_min_1280_passes_validation() {
    let cli = try_parse_from(["teehee", "send", "--host", "10.0.0.5", "--mtu", "1280"])
        .expect("clap must accept --mtu 1280");
    let Command::Send(args) = cli.command else {
        panic!("expected Send subcommand");
    };
    assert_eq!(args.mtu, 1280);
}

#[test]
fn mtu_jumbo_9000_passes_validation() {
    let cli = try_parse_from(["teehee", "send", "--host", "10.0.0.5", "--mtu", "9000"])
        .expect("clap must accept --mtu 9000 (jumbo)");
    let Command::Send(args) = cli.command else {
        panic!("expected Send subcommand");
    };
    assert_eq!(args.mtu, 9000);
}

#[test]
fn mtu_boundary_576_rfc_min_passes_validation() {
    let cli = try_parse_from(["teehee", "send", "--host", "10.0.0.5", "--mtu", "576"])
        .expect("clap must accept --mtu 576 (IPv6 RFC-min)");
    let Command::Send(args) = cli.command else {
        panic!("expected Send subcommand");
    };
    assert_eq!(args.mtu, 576);
}

#[test]
fn mtu_below_min_575_rejected_at_parse_time() {
    let cli = try_parse_from(["teehee", "send", "--host", "10.0.0.5", "--mtu", "575"]);
    assert!(
        cli.is_err(),
        "clap must reject --mtu 575 (below IPv6 RFC-min 576)"
    );
}

#[test]
fn mtu_above_max_9001_rejected_at_parse_time() {
    let cli = try_parse_from(["teehee", "send", "--host", "10.0.0.5", "--mtu", "9001"]);
    assert!(
        cli.is_err(),
        "clap must reject --mtu 9001 (above jumbo max 9000)"
    );
}

#[test]
fn mtu_non_integer_rejected_at_parse_time() {
    let cli = try_parse_from([
        "teehee",
        "send",
        "--host",
        "10.0.0.5",
        "--mtu",
        "fivethousand",
    ]);
    assert!(cli.is_err(), "clap must reject non-integer --mtu");
}

#[test]
fn rx_buffer_default_is_2_seconds() {
    assert_eq!(RX_BUFFER_DEFAULT_MS, 2_000);
}

#[test]
fn clap_parses_rx_buffer_default_value() {
    let cli =
        try_parse_from(["teehee", "recv"]).expect("clap must accept default recv args");
    let Command::Recv(args) = cli.command else {
        panic!("expected Recv subcommand");
    };
    assert_eq!(
        args.rx_buffer_ms, 2_000,
        "--rx-buffer-ms default must be RX_BUFFER_DEFAULT_MS (2000)"
    );
    assert_eq!(args.prebuffer_ms, 200);
}

#[test]
fn clap_parses_rx_buffer_explicit_5000() {
    let cli = try_parse_from(["teehee", "recv", "--rx-buffer-ms", "5000"])
        .expect("clap must accept --rx-buffer-ms 5000");
    let Command::Recv(args) = cli.command else {
        panic!("expected Recv subcommand");
    };
    assert_eq!(args.rx_buffer_ms, 5_000);
}

#[test]
fn clap_rejects_rx_buffer_below_min_99() {
    let cli = try_parse_from(["teehee", "recv", "--rx-buffer-ms", "99"]);
    assert!(
        cli.is_err(),
        "clap must reject --rx-buffer-ms 99 (below min 100)"
    );
}

#[test]
fn clap_rejects_rx_buffer_above_max_30001() {
    let cli = try_parse_from(["teehee", "recv", "--rx-buffer-ms", "30001"]);
    assert!(
        cli.is_err(),
        "clap must reject --rx-buffer-ms 30001 (above max 30000)"
    );
}

#[test]
fn clap_accepts_rx_buffer_at_min_boundary_100() {
    let cli = try_parse_from(["teehee", "recv", "--rx-buffer-ms", "100"])
        .expect("clap must accept --rx-buffer-ms 100 (boundary)");
    let Command::Recv(args) = cli.command else {
        panic!("expected Recv subcommand");
    };
    assert_eq!(args.rx_buffer_ms, 100);
}

#[test]
fn clap_accepts_rx_buffer_at_max_boundary_30000() {
    let cli = try_parse_from(["teehee", "recv", "--rx-buffer-ms", "30000"])
        .expect("clap must accept --rx-buffer-ms 30000 (boundary)");
    let Command::Recv(args) = cli.command else {
        panic!("expected Recv subcommand");
    };
    assert_eq!(args.rx_buffer_ms, 30_000);
}

#[test]
fn validate_rejects_rx_buffer_smaller_than_prebuffer() {
    let res = make_recv_args(500, 200).validate();
    let err = res.unwrap_err();
    assert!(err.contains("rx-buffer-ms"), "err: {err}");
    assert!(err.contains("prebuffer-ms"), "err: {err}");
    assert!(err.contains("500"), "err: {err}");
    assert!(err.contains("200"), "err: {err}");
}

#[test]
fn validate_accepts_rx_buffer_at_prebuffer_equality() {
    let res = make_recv_args(500, 500).validate();
    assert!(res.is_ok(), "rx_buffer == prebuffer must be valid");
}

#[test]
fn validate_accepts_rx_buffer_strictly_greater_than_prebuffer() {
    let res = make_recv_args(200, 2_000).validate();
    assert!(res.is_ok());
}

fn make_recv_args(prebuffer_ms: usize, rx_buffer_ms: usize) -> RecvArgs {
    RecvArgs {
        port: 5000,
        prebuffer_ms,
        rx_buffer_ms,
        stats: false,
        mdns: false,
        log_file: None,
    }
}

fn parse(args: &[&str]) -> Result<Cli, clap::Error> {
    let iter = std::iter::once("teehee").chain(args.iter().copied());
    try_parse_from(iter)
}

#[test]
fn teehee_flag_parses() {
    let args = parse(&["--help"]);
    assert!(args.is_err(), "`--help` should signal an error");
    let err = args.err().unwrap();
    assert!(
        err.kind() == ErrorKind::DisplayHelp || err.kind() == ErrorKind::DisplayVersion,
        "expected help/version kind, got {:?}",
        err.kind()
    );
}

#[test]
fn devices_subcommand_parses_with_no_flags() {
    let cli = parse(&["devices"]).expect("`teehee devices` with no args is valid");
    assert!(matches!(cli.command, Command::Devices));
}

#[test]
fn send_defaults_are_pinned() {
    let cli = parse(&["send", "192.168.0.10"]).expect("`send` with host only is valid");
    let Command::Send(args) = cli.command else {
        panic!("expected Send variant");
    };
    assert_eq!(args.host.as_deref(), Some("192.168.0.10"));
    assert!(args.host_flag.is_none());
    assert_eq!(args.port, 5000);
    assert_eq!(args.chunk_ms, 20);
    assert!(!args.sine);
    assert!(!args.stats);
}

#[test]
fn send_with_explicit_port_sine_and_stats() {
    let cli = parse(&["send", "10.0.0.5", "--port", "6000", "--sine", "--stats"])
        .expect("send with flags is valid");
    let Command::Send(args) = cli.command else {
        panic!("expected Send variant");
    };
    assert_eq!(args.port, 6000);
    assert!(args.sine);
    assert!(args.stats);
    let t = args.validate().expect("validate ok");
    assert_eq!(t.host(), Some("10.0.0.5"));
    assert_eq!(t.port(), Some(6000));
}

#[test]
fn send_without_host_is_rejected() {
    let cli = parse(&["send"]).expect("parse ok (validate is the prebuffer gate)");
    let Command::Send(args) = cli.command else {
        panic!("expected Send variant");
    };
    let err = args
        .validate()
        .expect_err("send without positional HOST or --host must error at validate()");
    assert!(
        err.contains("destination host required") || err.contains("--mdns"),
        "expected required-host message (mentions --mdns too), got {err:?}"
    );
}

#[test]
fn send_with_ambiguous_port_is_rejected() {
    let cli = parse(&["send", "10.0.0.5:6000", "--port", "6001"])
        .expect("clap parses (validate is the prebuffer gate)");
    let Command::Send(args) = cli.command else {
        panic!("expected Send variant");
    };
    let err = args
        .validate()
        .expect_err("ambiguous port must error at validate()");
    assert!(
        err.contains("ambiguous port"),
        "expected ambiguous-port message, got {err:?}"
    );
}

#[test]
fn send_with_host_flag_parses() {
    let cli = parse(&["send", "--host", "10.0.0.5", "--sine"]).expect("`--host` flag must parse");
    let Command::Send(args) = cli.command else {
        panic!("expected Send variant");
    };
    assert!(args.host.is_none());
    assert_eq!(args.host_flag.as_deref(), Some("10.0.0.5"));
    let t = args.validate().expect("validate ok");
    assert_eq!(t.host(), Some("10.0.0.5"));
    assert_eq!(t.port(), Some(5000));
}

#[test]
fn send_with_host_flag_and_embedded_port() {
    let cli = parse(&["send", "--host", "10.0.0.5:6000", "--sine"])
        .expect("clap parses --host <ip:port>");
    let Command::Send(args) = cli.command else {
        panic!("expected Send variant");
    };
    let t = args.validate().expect("validate ok");
    assert_eq!(t.host(), Some("10.0.0.5"));
    assert_eq!(t.port(), Some(6000));
}

#[test]
fn send_with_both_positional_and_host_flag_is_rejected() {
    let result = parse(&["send", "127.0.0.1", "--host", "10.0.0.5"]);
    assert!(
        result.is_err(),
        "positional HOST + --host must be rejected (clap conflicts_with)"
    );
}

#[test]
fn send_with_zero_chunk_ms_is_rejected() {
    let result = parse(&["send", "192.168.0.10", "--chunk-ms", "0"]);
    let err = result.expect_err("--chunk-ms 0 must error");
    assert_eq!(
        err.kind(),
        ErrorKind::ValueValidation,
        "expected ValueValidation, got {:?}",
        err.kind()
    );
}

#[test]
fn send_with_out_of_range_port_is_rejected() {
    let result = parse(&["send", "192.168.0.10", "--port", "70000"]);
    let err = result.expect_err("--port 70000 must error (above u16 max)");
    assert_eq!(
        err.kind(),
        ErrorKind::ValueValidation,
        "expected ValueValidation, got {:?}",
        err.kind()
    );
}

#[test]
fn recv_defaults_are_pinned() {
    let cli = parse(&["recv"]).expect("`recv` with no args is valid");
    let Command::Recv(args) = cli.command else {
        panic!("expected Recv variant");
    };
    assert_eq!(args.port, 5000);
    assert_eq!(args.prebuffer_ms, 200);
    assert!(!args.stats);
}

#[test]
fn recv_with_zero_prebuffer_ms_is_rejected() {
    let result = parse(&["recv", "--prebuffer-ms", "0"]);
    let err = result.expect_err("--prebuffer-ms 0 must error");
    assert_eq!(
        err.kind(),
        ErrorKind::ValueValidation,
        "expected ValueValidation, got {:?}",
        err.kind()
    );
}

#[test]
fn recv_with_custom_buffer_and_stats_flag() {
    let cli =
        parse(&["recv", "--prebuffer-ms", "500", "--stats"]).expect("recv with flags is valid");
    let Command::Recv(args) = cli.command else {
        panic!("expected Recv variant");
    };
    assert_eq!(args.prebuffer_ms, 500);
    assert!(args.stats);
}

#[test]
fn help_message_lists_all_three_subcommands() {
    let result = parse(&["--help"]).expect_err("`--help` errors");
    let help_text = result.to_string();
    assert!(help_text.contains("send"), "help should list `send`");
    assert!(help_text.contains("recv"), "help should list `recv`");
    assert!(help_text.contains("devices"), "help should list `devices`");
}

#[test]
fn send_help_describes_required_host_argument() {
    let result = parse(&["send", "--help"]).expect_err("`send --help` errors");
    let help_text = result.to_string();
    assert!(
        help_text.contains("--host") || help_text.contains("<HOST>") || help_text.contains("host"),
        "send help should reference host argument, got: {help_text}"
    );
}

#[test]
fn send_mdns_parses_without_host() {
    let cli = parse(&["send", "--mdns"]).expect("send --mdns parses");
    let Command::Send(args) = cli.command else { panic!("send"); };
    assert!(args.mdns);
    assert!(args.host.is_none() && args.host_flag.is_none());
    let target = args.validate().expect("validate accepts mdns");
    assert!(matches!(target, ResolvedTarget::Mdns { .. }));
}

#[test]
fn send_mdns_rejects_with_host_at_validate() {
    let cli = parse(&["send", "--mdns", "--host", "1.2.3.4"]).expect("clap allows (conflicts not on mdns)");
    let Command::Send(args) = cli.command else { panic!(); };
    let err = args.validate().expect_err("mdns+host rejected in validate");
    assert!(err.contains("--mdns"));
}

#[test]
fn recv_mdns_parses() {
    let cli = parse(&["recv", "--mdns", "--port", "6000"]).expect("recv --mdns ok");
    let Command::Recv(args) = cli.command else { panic!(); };
    assert!(args.mdns);
    assert_eq!(args.port, 6000);
}

#[test]
fn socket_strings_read_back() {
    for (host, port) in [("10.0.0.5", 6000u16), ("[fe80::1]", 1), ("[a[b:c]", 7), ("", 9), ("studio.local", 65_535)] {
        let text = ResolvedTarget::Explicit { host: host.to_string(), port }.to_socket_string();
        assert_eq!(parse_host_port(&text).unwrap(), (host.to_string(), Some(port)));
    }
}

#[test]
fn ranges_are_named_in_the_errors() {
    assert_eq!(parse_chunk_ms("0").unwrap_err(), "chunk-ms must be in 1..=200 (got 0)");
    assert_eq!(parse_chunk_ms("201").unwrap_err(), "chunk-ms must be in 1..=200 (got 201)");
    assert_eq!(parse_prebuffer_ms("19").unwrap_err(), "prebuffer-ms must be in 20..=10000 (got 19)");
    assert_eq!(parse_rx_buffer_ms("99").unwrap_err(), "rx-buffer-ms must be in 100..=30000 (got 99)");
    assert_eq!(parse_mtu("9001").unwrap_err(), "mtu must be in 576..=9000 (got 9001)");
    assert_eq!(parse_port("65536").unwrap_err(), "port must be in 1..=65535 (got 65536)");
    assert_eq!(parse_mtu("").unwrap_err(), "cannot parse integer from empty string");
    assert_eq!(parse_mtu("1x").unwrap_err(), "invalid digit found in string");
    assert_eq!(
        parse_mtu("99999999999999999999999").unwrap_err(),
        "number too large to fit in target type"
    );
    assert_eq!(parse_mtu("+1500").unwrap(), 1500);
}
