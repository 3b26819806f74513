//! Which variable decides which setting.
use crate::config::{config_of, first_value, flowlog_of, last_value, var_views, FlowLogMode,
    SinkKind, SocketAddr, Vars};
use crate::text::parsed_unsigned;
use vstd::prelude::*;

verus! {

/// The first variable with a name gives its value, however many follow; without one there is none.
pub proof fn first_of_a_name(vars: Vars, i: int)
    requires
        0 <= i < vars.len(),
        forall|j: int| 0 <= j < i ==> (#[trigger] vars[j]).0 != vars[i].0,
    ensures
        first_value(vars, vars[i].0) == Some(vars[i].1),
    decreases i,
{
    if i > 0 {
        let rest = vars.drop_first();
        assert(vars[0].0 != vars[i].0);
        assert forall|j: int| 0 <= j < i - 1 implies (#[trigger] rest[j]).0 != rest[i - 1].0 by {
            assert(rest[j] == vars[j + 1]);
        }
        first_of_a_name(rest, i - 1);
    }
}

/// The last variable with a name gives its value, however many come before it.
pub proof fn last_of_a_name(vars: Vars, i: int)
    requires
        0 <= i < vars.len(),
        forall|j: int| i < j < vars.len() ==> (#[trigger] vars[j]).0 != vars[i].0,
    ensures
        last_value(vars, vars[i].0) == Some(vars[i].1),
    decreases vars.len(),
{
    let n = vars.len() - 1;
    if i < n {
        let init = vars.drop_last();
        assert(vars[n].0 != vars[i].0);
        assert forall|j: int| i < j < init.len() implies (#[trigger] init[j]).0 != init[i].0 by {
            assert(init[j] == vars[j]);
        }
        last_of_a_name(init, i);
    }
}

/// A name that no variable has gives no value.
pub proof fn none_of_a_name(vars: Vars, key: Seq<char>)
    requires
        forall|j: int| 0 <= j < vars.len() ==> (#[trigger] vars[j]).0 != key,
    ensures
        first_value(vars, key) is None,
        last_value(vars, key) is None,
    decreases vars.len(),
{
    if vars.len() > 0 {
        let rest = vars.drop_first();
        let init = vars.drop_last();
        assert(vars[0].0 != key);
        assert(vars[vars.len() - 1].0 != key);
        assert forall|j: int| 0 <= j < rest.len() implies (#[trigger] rest[j]).0 != key by {
            assert(rest[j] == vars[j + 1]);
        }
        assert forall|j: int| 0 <= j < init.len() implies (#[trigger] init[j]).0 != key by {
            assert(init[j] == vars[j]);
        }
        none_of_a_name(rest, key);
        none_of_a_name(init, key);
    }
}

proof fn lemma_other_name(vars: Vars, name: Seq<char>, value: Seq<char>, key: Seq<char>)
    requires
        name != key,
    ensures
        first_value(vars.push((name, value)), key) == first_value(vars, key),
        last_value(vars.push((name, value)), key) == last_value(vars, key),
    decreases vars.len(),
{
    let more = vars.push((name, value));
    assert(more.drop_last() =~= vars);
    if vars.len() == 0 {
        assert(more.drop_first() =~= vars);
    } else {
        assert(more.drop_first() =~= vars.drop_first().push((name, value)));
        assert(more[0] == vars[0]);
        lemma_other_name(vars.drop_first(), name, value, key);
    }
}

/// A variable with any other name changes no setting.
pub proof fn other_variables_change_nothing(
    vars: Vars,
    name: Seq<char>,
    value: Seq<char>,
    parsed: Option<SocketAddr>,
)
    requires
        name != "SUHO_LABEL_PREFIX"@ && name != "SUHO_POLICIES_PATH"@ && name
            != "SUHO_RESYNC_INTERVAL"@ && name != "SUHO_DEBOUNCE_MS"@ && name
            != "SUHO_METRICS_ADDR"@ && name != "SUHO_FLOWLOG"@ && name != "SUHO_FLOWLOG_GROUP"@
            && name != "SUHO_FLOWLOG_RATE"@,
    ensures
        config_of(vars.push((name, value)), parsed) == config_of(vars, parsed),
{
    lemma_other_name(vars, name, value, "SUHO_LABEL_PREFIX"@);
    lemma_other_name(vars, name, value, "SUHO_POLICIES_PATH"@);
    lemma_other_name(vars, name, value, "SUHO_RESYNC_INTERVAL"@);
    lemma_other_name(vars, name, value, "SUHO_DEBOUNCE_MS"@);
    lemma_other_name(vars, name, value, "SUHO_METRICS_ADDR"@);
    lemma_other_name(vars, name, value, "SUHO_FLOWLOG"@);
    lemma_other_name(vars, name, value, "SUHO_FLOWLOG_GROUP"@);
    lemma_other_name(vars, name, value, "SUHO_FLOWLOG_RATE"@);
}

/// The label prefix and the path are the values of their variables, empty ones too, and have a
/// default without them; metrics are served only where their variable is there and parses.
pub proof fn texts_from_their_variables(vars: Vars, parsed: Option<SocketAddr>)
    ensures
        first_value(vars, "SUHO_LABEL_PREFIX"@) is None ==> config_of(vars, parsed).label_prefix
            == "suho"@,
        first_value(vars, "SUHO_LABEL_PREFIX"@) matches Some(v) ==> config_of(
            vars,
            parsed,
        ).label_prefix == v,
        first_value(vars, "SUHO_POLICIES_PATH"@) is None ==> config_of(vars, parsed).policies_path
            == "/etc/suho/policies"@,
        first_value(vars, "SUHO_POLICIES_PATH"@) matches Some(v) ==> config_of(
            vars,
            parsed,
        ).policies_path == v,
        first_value(vars, "SUHO_METRICS_ADDR"@) is None ==> config_of(vars, parsed).metrics_addr
            is None,
        first_value(vars, "SUHO_METRICS_ADDR"@) is Some ==> config_of(vars, parsed).metrics_addr
            == parsed,
{
}

/// The periods are the numbers of their variables; without a number that fits, there is a default. A
/// resync period of zero counts as one second.
pub proof fn periods_from_their_variables(vars: Vars, parsed: Option<SocketAddr>)
    ensures
        ({
            let c = config_of(vars, parsed);
            let resync = first_value(vars, "SUHO_RESYNC_INTERVAL"@);
            let debounce = first_value(vars, "SUHO_DEBOUNCE_MS"@);
            let max = 0xffff_ffff_ffff_ffff;
            &&& resync is None ==> c.resync_secs == 30
            &&& resync matches Some(v) ==> match parsed_unsigned(v, max) {
                None => c.resync_secs == 30,
                Some(n) => if n == 0 {
                    c.resync_secs == 1
                } else {
                    c.resync_secs == n
                },
            }
            &&& debounce is None ==> c.debounce_ms == 500
            &&& debounce matches Some(v) ==> match parsed_unsigned(v, max) {
                None => c.debounce_ms == 500,
                Some(n) => c.debounce_ms == n,
            }
        }),
{
}

/// The flow log is off unless its variable asks for drops; its group and its rate are the numbers of
/// their variables, and without a number that fits there is a default. It goes to the standard
/// output.
pub proof fn flow_log_from_its_variables(vars: Vars, parsed: Option<SocketAddr>)
    ensures
        ({
            let f = config_of(vars, parsed).flowlog;
            let group = last_value(vars, "SUHO_FLOWLOG_GROUP"@);
            let rate = last_value(vars, "SUHO_FLOWLOG_RATE"@);
            &&& f == flowlog_of(vars)
            &&& f.mode == FlowLogMode::Drops <==> last_value(vars, "SUHO_FLOWLOG"@) == Some(
                "drops"@,
            )
            &&& f.mode == FlowLogMode::Drops || f.mode == FlowLogMode::Off
            &&& f.sink == SinkKind::Stdout
            &&& group is None ==> f.group == 100
            &&& group matches Some(v) ==> match parsed_unsigned(v, 0xffff) {
                None => f.group == 100,
                Some(n) => f.group == n,
            }
            &&& rate is None ==> f.rate == 200
            &&& rate matches Some(v) ==> match parsed_unsigned(v, 0xffff_ffff) {
                None => f.rate == 200,
                Some(n) => f.rate == n,
            }
        }),
{
}

/// The variables are all those of the list, by name and value.
pub proof fn every_variable_counts(v: Seq<(String, String)>, i: int)
    requires
        0 <= i < v.len(),
    ensures
        var_views(v).len() == v.len(),
        var_views(v)[i].0 == v[i].0@,
        var_views(v)[i].1 == v[i].1@,
{
}

} // verus!
