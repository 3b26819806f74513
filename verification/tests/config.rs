use std::time::Duration;

use suho::addr::IpAddr;
use suho::config::{flowlog_from_vars, resync_from, Config, FlowLog, FlowLogMode, SinkKind, SocketAddr};

fn vars(list: &[(&str, &str)]) -> Vec<(String, String)> {
    list.iter()
        .map(|(k, v)| (k.to_string(), v.to_string()))
        .collect()
}

fn parse_flowlog_with(list: &[(&str, &str)]) -> FlowLog {
    flowlog_from_vars(&vars(list))
}

#[test]
fn resync_never_zero() {
    assert_eq!(Duration::from_secs(resync_from(0)), Duration::from_secs(1));
    assert_eq!(Duration::from_secs(resync_from(30)), Duration::from_secs(30));
}

#[test]
fn flowlog_defaults_to_off() {
    let cfg = FlowLog::default();
    assert_eq!(cfg.mode, FlowLogMode::Off);
    assert_eq!(cfg.group, 100);
    assert_eq!(cfg.sink, SinkKind::Stdout);
    assert_eq!(cfg.rate, 200);
}

#[test]
fn flowlog_parses_drops() {
    let cfg = parse_flowlog_with(&[("SUHO_FLOWLOG", "drops")]);
    assert_eq!(cfg.mode, FlowLogMode::Drops);
    assert_eq!(cfg.group, 100);
    assert_eq!(cfg.rate, 200);
}

#[test]
fn flowlog_parses_group_sink_rate() {
    let cfg = parse_flowlog_with(&[
        ("SUHO_FLOWLOG", "drops"),
        ("SUHO_FLOWLOG_GROUP", "42"),
        ("SUHO_FLOWLOG_SINK", "stdout"),
        ("SUHO_FLOWLOG_RATE", "0"),
    ]);
    assert_eq!(cfg.mode, FlowLogMode::Drops);
    assert_eq!(cfg.group, 42);
    assert_eq!(cfg.sink, SinkKind::Stdout);
    assert_eq!(cfg.rate, 0);
}

#[test]
fn flowlog_invalid_mode_ignored() {
    let cfg = parse_flowlog_with(&[("SUHO_FLOWLOG", "everything")]);
    assert_eq!(cfg.mode, FlowLogMode::Off);
}

#[test]
fn flowlog_invalid_group_ignored() {
    let cfg = parse_flowlog_with(&[("SUHO_FLOWLOG_GROUP", "not-a-number")]);
    assert_eq!(cfg.group, 100);
}

#[test]
fn flowlog_invalid_rate_ignored() {
    let cfg = parse_flowlog_with(&[("SUHO_FLOWLOG_RATE", "-1")]);
    assert_eq!(cfg.rate, 200);
}

#[test]
fn flowlog_bounds_and_blanks() {
    assert_eq!(
        parse_flowlog_with(&[("SUHO_FLOWLOG_GROUP", "65535")]).group,
        65535
    );
    assert_eq!(
        parse_flowlog_with(&[("SUHO_FLOWLOG_GROUP", "65536")]).group,
        100
    );
    assert_eq!(parse_flowlog_with(&[("SUHO_FLOWLOG_RATE", "")]).rate, 200);
    let twice = [("SUHO_FLOWLOG", "off"), ("SUHO_FLOWLOG", "drops")];
    assert_eq!(parse_flowlog_with(&twice).mode, FlowLogMode::Drops);
}

#[test]
fn settings_have_defaults() {
    let cfg = Config::from_env(&[], None);
    assert_eq!(cfg.label_prefix, "suho");
    assert_eq!(cfg.policies_path, "/etc/suho/policies");
    assert_eq!(cfg.resync_secs, 30);
    assert_eq!(cfg.debounce_ms, 500);
    assert_eq!(cfg.metrics_addr, None);
    assert_eq!(cfg.flowlog, FlowLog::default());
}

#[test]
fn settings_come_from_variables() {
    let given = vars(&[
        ("SUHO_LABEL_PREFIX", "x"),
        ("SUHO_POLICIES_PATH", "/p"),
        ("SUHO_RESYNC_INTERVAL", "0"),
        ("SUHO_DEBOUNCE_MS", "soon"),
        ("SUHO_METRICS_ADDR", "127.0.0.1:9090"),
        ("SUHO_LABEL_PREFIX", "y"),
    ]);
    let cfg = Config::from_env(&given, Some(LOCAL));
    assert_eq!(cfg.label_prefix, "x");
    assert_eq!(cfg.policies_path, "/p");
    assert_eq!(cfg.resync_secs, 1);
    assert_eq!(cfg.debounce_ms, 500);
    assert_eq!(cfg.metrics_addr, Some(LOCAL));
    assert_eq!(
        Config::metrics_text(&given).as_deref(),
        Some("127.0.0.1:9090")
    );
}

const LOCAL: SocketAddr = SocketAddr {
    ip: IpAddr::V4(0x7f00_0001),
    port: 9090,
    scope: 0,
};

#[test]
fn metrics_need_a_valid_address() {
    let bad = vars(&[("SUHO_METRICS_ADDR", "nowhere")]);
    assert_eq!(Config::metrics_text(&bad).as_deref(), Some("nowhere"));
    assert_eq!(Config::from_env(&bad, None).metrics_addr, None);
    assert_eq!(Config::metrics_text(&[]), None);
    assert_eq!(Config::from_env(&[], Some(LOCAL)).metrics_addr, None);
}
