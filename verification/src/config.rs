//! The settings, which come from environment variables.
use crate::addr::IpAddr;
use crate::api::v1alpha1::opt_text;
use crate::text::{parse_unsigned, parsed_unsigned, same};
use vstd::prelude::*;

verus! {

/// Which flows are logged.
#[derive(Debug, Clone, Copy, PartialEq, Eq, Structural)]
pub enum FlowLogMode {
    /// None.
    Off,
    /// Those that are dropped.
    Drops,
}

/// Where flow events go.
#[derive(Debug, Clone, Copy, PartialEq, Eq, Structural)]
pub enum SinkKind {
    /// To standard output, one JSON object on a line.
    Stdout,
}

/// The settings of the flow log.
#[derive(Debug, Clone, Copy, PartialEq, Eq, Structural)]
pub struct FlowLog {
    pub mode: FlowLogMode,
    /// The group of the kernel's packet log.
    pub group: u16,
    pub sink: SinkKind,
    /// The number of events per second that are let through; zero stands for all.
    pub rate: u32,
}

/// The settings of the flow log where nothing is said.
pub open spec fn default_flowlog() -> FlowLog {
    FlowLog { mode: FlowLogMode::Off, group: 100, sink: SinkKind::Stdout, rate: 200 }
}

impl Default for FlowLogMode {
    fn default() -> (r: FlowLogMode)
        ensures
            r == FlowLogMode::Off,
    {
        FlowLogMode::Off
    }
}

impl Default for SinkKind {
    fn default() -> (r: SinkKind)
        ensures
            r == SinkKind::Stdout,
    {
        SinkKind::Stdout
    }
}

impl Default for FlowLog {
    fn default() -> (r: FlowLog)
        ensures
            r == default_flowlog(),
    {
        FlowLog { mode: FlowLogMode::Off, group: 100, sink: SinkKind::Stdout, rate: 200 }
    }
}

/// The names and values of variables.
pub type Vars = Seq<(Seq<char>, Seq<char>)>;

/// The names and values of a list of variables.
pub open spec fn var_views(v: Seq<(String, String)>) -> Vars {
    Seq::new(v.len(), |i: int| (v[i].0@, v[i].1@))
}

/// The value of the first variable with a name.
pub open spec fn first_value(vars: Vars, key: Seq<char>) -> Option<Seq<char>>
    decreases vars.len(),
{
    if vars.len() == 0 {
        None
    } else if vars.first().0 == key {
        Some(vars.first().1)
    } else {
        first_value(vars.drop_first(), key)
    }
}

/// The value of the last variable with a name.
pub open spec fn last_value(vars: Vars, key: Seq<char>) -> Option<Seq<char>>
    decreases vars.len(),
{
    if vars.len() == 0 {
        None
    } else if vars.last().0 == key {
        Some(vars.last().1)
    } else {
        last_value(vars.drop_last(), key)
    }
}

/// The value of a variable, or what stands in for it.
pub open spec fn value_or(value: Option<Seq<char>>, fallback: Seq<char>) -> Seq<char> {
    match value {
        Some(v) => v,
        None => fallback,
    }
}

/// The number that a variable holds, or what stands in for it where there is no variable or it is
/// not a number up to a bound.
pub open spec fn number_or(value: Option<Seq<char>>, max: nat, fallback: nat) -> nat {
    match value {
        Some(v) => match parsed_unsigned(v, max) {
            Some(n) => n,
            None => fallback,
        },
        None => fallback,
    }
}

/// A resync period in seconds, at least one.
pub open spec fn resync_period(secs: nat) -> nat {
    if secs == 0 {
        1
    } else {
        secs
    }
}

/// The settings of the flow log that variables give; a variable that is empty or holds no valid value
/// leaves the default.
pub open spec fn flowlog_of(vars: Vars) -> FlowLog {
    let d = default_flowlog();
    FlowLog {
        mode: if last_value(vars, "SUHO_FLOWLOG"@) == Some("drops"@) {
            FlowLogMode::Drops
        } else {
            d.mode
        },
        group: number_or(
            last_value(vars, "SUHO_FLOWLOG_GROUP"@),
            0xffff,
            d.group as nat,
        ) as u16,
        sink: d.sink,
        rate: number_or(
            last_value(vars, "SUHO_FLOWLOG_RATE"@),
            0xffff_ffff,
            d.rate as nat,
        ) as u32,
    }
}

fn find_first<'a>(vars: &'a [(String, String)], key: &str) -> (r: Option<&'a String>)
    ensures
        first_value(var_views(vars@), key@) == (match r {
            Some(v) => Some(v@),
            None => None,
        }),
{
    let ghost all = var_views(vars@);
    let mut i: usize = 0;
    assert(all.skip(0) =~= all);
    while i < vars.len()
        invariant
            i <= vars@.len() == all.len(),
            all == var_views(vars@),
            first_value(all, key@) == first_value(all.skip(i as int), key@),
        decreases vars.len() - i,
    {
        assert(all.skip(i as int).first() == (vars@[i as int].0@, vars@[i as int].1@));
        assert(all.skip(i as int).drop_first() =~= all.skip(i + 1));
        if same(vars[i].0.as_str(), key) {
            return Some(&vars[i].1);
        }
        i = i + 1;
    }
    None
}

fn find_last<'a>(vars: &'a [(String, String)], key: &str) -> (r: Option<&'a String>)
    ensures
        last_value(var_views(vars@), key@) == (match r {
            Some(v) => Some(v@),
            None => None,
        }),
{
    let ghost all = var_views(vars@);
    let mut i: usize = vars.len();
    assert(all.take(i as int) =~= all);
    while i > 0
        invariant
            i <= vars@.len() == all.len(),
            all == var_views(vars@),
            last_value(all, key@) == last_value(all.take(i as int), key@),
        decreases i,
    {
        assert(all.take(i as int).last() == (vars@[i - 1].0@, vars@[i - 1].1@));
        assert(all.take(i as int).drop_last() =~= all.take(i - 1));
        if same(vars[i - 1].0.as_str(), key) {
            return Some(&vars[i - 1].1);
        }
        i = i - 1;
    }
    None
}

fn text_or(value: Option<&String>, fallback: &str) -> (r: String)
    ensures
        r@ == value_or(
            match value {
                Some(v) => Some(v@),
                None => None,
            },
            fallback@,
        ),
{
    match value {
        Some(v) => v.clone(),
        None => fallback.to_owned(),
    }
}

fn parse_or(value: Option<&String>, max: u64, fallback: u64) -> (r: u64)
    requires
        fallback <= max,
    ensures
        r == number_or(
            match value {
                Some(v) => Some(v@),
                None => None,
            },
            max as nat,
            fallback as nat,
        ),
        r <= max,
{
    match value {
        Some(v) => match parse_unsigned(v.as_str(), max) {
            Some(n) => n,
            None => fallback,
        },
        None => fallback,
    }
}

/// The resync period in seconds: at least one, since a period of zero cannot be waited for.
pub fn resync_from(secs: u64) -> (r: u64)
    ensures
        r == resync_period(secs as nat),
        r > 0,
{
    if secs == 0 {
        1
    } else {
        secs
    }
}

/// Reads the settings of the flow log from variables, of which the last of a name counts.
pub fn flowlog_from_vars(vars: &[(String, String)]) -> (r: FlowLog)
    ensures
        r == flowlog_of(var_views(vars@)),
{
    let mut flowlog = FlowLog::default();
    if let Some(raw) = find_last(vars, "SUHO_FLOWLOG") {
        if same(raw.as_str(), "drops") {
            flowlog.mode = FlowLogMode::Drops;
        }
    }
    flowlog.group = parse_or(find_last(vars, "SUHO_FLOWLOG_GROUP"), 0xffff, 100) as u16;
    flowlog.rate = parse_or(find_last(vars, "SUHO_FLOWLOG_RATE"), 0xffff_ffff, 200) as u32;
    flowlog
}

/// Where a server listens: an address, a port and, for an IPv6 address, the number of its scope.
#[derive(Debug, Clone, Copy, PartialEq, Eq, Structural)]
pub struct SocketAddr {
    pub ip: IpAddr,
    pub port: u16,
    pub scope: u32,
}

/// All settings.
#[derive(Debug)]
pub struct Config {
    /// The namespace of the container labels.
    pub label_prefix: String,
    /// The file or the directory of the host-wide policies.
    pub policies_path: String,
    /// The period of the full reconcile, in seconds.
    pub resync_secs: u64,
    /// The quiet time after an event before a reconcile, in milliseconds.
    pub debounce_ms: u64,
    /// Where metrics are served, if anywhere.
    pub metrics_addr: Option<SocketAddr>,
    pub flowlog: FlowLog,
}

/// What the settings are.
pub struct ConfigView {
    pub label_prefix: Seq<char>,
    pub policies_path: Seq<char>,
    pub resync_secs: nat,
    pub debounce_ms: nat,
    pub metrics_addr: Option<SocketAddr>,
    pub flowlog: FlowLog,
}

impl View for Config {
    type V = ConfigView;

    open spec fn view(&self) -> ConfigView {
        ConfigView {
            label_prefix: self.label_prefix@,
            policies_path: self.policies_path@,
            resync_secs: self.resync_secs as nat,
            debounce_ms: self.debounce_ms as nat,
            metrics_addr: self.metrics_addr,
            flowlog: self.flowlog,
        }
    }
}

/// The value of the variable that says where metrics are served.
pub open spec fn metrics_value(vars: Vars) -> Option<Seq<char>> {
    first_value(vars, "SUHO_METRICS_ADDR"@)
}

/// The settings that variables give, where `parsed` is the socket address that the value of
/// `SUHO_METRICS_ADDR` parses to, if it does.
pub open spec fn config_of(vars: Vars, parsed: Option<SocketAddr>) -> ConfigView {
    ConfigView {
        label_prefix: value_or(first_value(vars, "SUHO_LABEL_PREFIX"@), "suho"@),
        policies_path: value_or(
            first_value(vars, "SUHO_POLICIES_PATH"@),
            "/etc/suho/policies"@,
        ),
        resync_secs: resync_period(
            number_or(first_value(vars, "SUHO_RESYNC_INTERVAL"@), u64::MAX as nat, 30),
        ),
        debounce_ms: number_or(first_value(vars, "SUHO_DEBOUNCE_MS"@), u64::MAX as nat, 500),
        metrics_addr: match metrics_value(vars) {
            Some(_) => parsed,
            None => None,
        },
        flowlog: flowlog_of(vars),
    }
}

impl Config {
    /// The value of the variable that says where metrics are served, as it was given.
    pub fn metrics_text(vars: &[(String, String)]) -> (r: Option<String>)
        ensures
            opt_text(r) == metrics_value(var_views(vars@)),
    {
        match find_first(vars, "SUHO_METRICS_ADDR") {
            Some(v) => Some(v.clone()),
            None => None,
        }
    }

    /// Reads all settings from environment variables; what they do not say has a default. Of two
    /// variables of a name the first counts, but for those of the flow log. `parsed` is the socket
    /// address that the text of [`Config::metrics_text`] parses to; a text that is none is ignored.
    pub fn from_env(vars: &[(String, String)], parsed: Option<SocketAddr>) -> (r: Config)
        ensures
            r@ == config_of(var_views(vars@), parsed),
    {
        Config {
            label_prefix: text_or(find_first(vars, "SUHO_LABEL_PREFIX"), "suho"),
            policies_path: text_or(find_first(vars, "SUHO_POLICIES_PATH"), "/etc/suho/policies"),
            resync_secs: resync_from(
                parse_or(find_first(vars, "SUHO_RESYNC_INTERVAL"), u64::MAX, 30),
            ),
            debounce_ms: parse_or(find_first(vars, "SUHO_DEBOUNCE_MS"), u64::MAX, 500),
            metrics_addr: match find_first(vars, "SUHO_METRICS_ADDR") {
                Some(_) => parsed,
                None => None,
            },
            flowlog: flowlog_from_vars(vars),
        }
    }
}

/// The resync period is never zero, whatever the variables say.
pub proof fn resync_never_zero(vars: Vars, parsed: Option<SocketAddr>)
    ensures
        config_of(vars, parsed).resync_secs > 0,
{
}

} // verus!
