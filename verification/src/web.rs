//! Kinds of dashboard query and the errors of the web channels.

use vstd::prelude::*;
use vstd::string::{StrSliceExecFns, StringExecFns};
use crate::text::{
    str_chars, find_chars, rfind_chars, trimmed_range, chars_slice, trim, first_occurrence,
    last_occurrence,
};

verus! {

broadcast use vstd::string::group_string_axioms;

/// Types of queries the web UI can make.
#[derive(Debug, Clone, Copy, PartialEq, Eq, Structural)]
pub enum QueryType {
    Dashboard,
}

/// Error when sending a user control update fails.
#[derive(Debug, Clone, Copy, PartialEq, Eq, Structural)]
pub enum UserControlUpdateError {
    ChannelClosed,
}

/// Errors of a dashboard query.
#[derive(Debug, Clone, Copy, PartialEq, Eq, Structural)]
pub enum QueryError {
    ChannelClosed,
    ResponseTimeout,
}

/// Error when sending a config update fails.
#[derive(Debug, Clone, Copy, PartialEq, Eq, Structural)]
pub enum ConfigUpdateError {
    ChannelClosed,
}

impl UserControlUpdateError {
    /// The human-readable description of the error.
    pub fn message(&self) -> (r: &'static str)
        ensures
            r@ == "user control update channel closed"@,
    {
        "user control update channel closed"
    }
}

impl QueryError {
    /// The human-readable description of the error.
    pub fn message(&self) -> (r: &'static str)
        ensures
            r@ == match *self {
                QueryError::ChannelClosed => "Query channel closed"@,
                QueryError::ResponseTimeout => "Response timeout"@,
            },
    {
        match self {
            QueryError::ChannelClosed => "Query channel closed",
            QueryError::ResponseTimeout => "Response timeout",
        }
    }
}

impl ConfigUpdateError {
    /// The human-readable description of the error.
    pub fn message(&self) -> (r: &'static str)
        ensures
            r@ == "Config update channel closed"@,
    {
        "Config update channel closed"
    }
}

/// The strategy named by a decision reason: the text before the first
/// " - " (all of it when there is none), without surrounding white space.
pub open spec fn reason_strategy(reason: Seq<char>) -> Seq<char> {
    trim(
        match first_occurrence(reason, " - "@) {
            Some(i) => reason.take(i),
            None => reason,
        },
    )
}

/// The profit figure of a decision reason, as text: what stands between
/// the last "expected profit: " and the first " CZK" after it, without
/// surrounding white space; none when either is missing.
pub open spec fn reason_profit_text(reason: Seq<char>) -> Option<Seq<char>> {
    match last_occurrence(reason, "expected profit: "@) {
        None => None,
        Some(start) => {
            let rest = reason.skip(start + "expected profit: "@.len());
            match first_occurrence(rest, " CZK"@) {
                None => None,
                Some(end) => Some(trim(rest.take(end))),
            }
        },
    }
}

/// The strategy part of a reason whose characters are `chars`.
fn strategy_of(reason: &str, chars: &Vec<char>) -> (r: String)
    requires
        chars@ == reason@,
    ensures
        r@ == reason_strategy(reason@),
{
    let sep = str_chars(" - ");
    let head_end = match find_chars(chars, &sep) {
        Some(i) => i,
        None => chars.len(),
    };
    proof {
        match first_occurrence(chars@, sep@) {
            Some(i) => {
                assert(chars@.subrange(0, i) =~= chars@.take(i));
            },
            None => {
                assert(chars@.subrange(0, chars@.len() as int) =~= chars@);
            },
        }
    }
    let (a, b) = trimmed_range(chars, 0, head_end);
    String::from_str(reason.substring_char(a, b))
}

/// The profit text of a reason whose characters are `chars`.
fn profit_text_of(reason: &str, chars: &Vec<char>) -> (r: Option<String>)
    requires
        chars@ == reason@,
    ensures
        match reason_profit_text(reason@) {
            Some(t) => r matches Some(p) && p@ == t,
            None => r is None,
        },
{
    let marker = str_chars("expected profit: ");
    match rfind_chars(chars, &marker) {
        None => None,
        Some(start) => {
            assert(crate::text::occurs_at(chars@, marker@, start as int));
            let n = chars.len();
            let m = marker.len();
            assert(start + m <= n);
            let rest_start = start + m;
            let rest = chars_slice(chars, rest_start, chars.len());
            assert(rest@ =~= chars@.skip(rest_start as int));
            let unit = str_chars(" CZK");
            match find_chars(&rest, &unit) {
                None => None,
                Some(end) => {
                    let (a, b) = trimmed_range(chars, rest_start, rest_start + end);
                    assert(chars@.subrange(rest_start as int, rest_start + end) =~= rest@.take(end as int));
                    Some(String::from_str(reason.substring_char(a, b)))
                },
            }
        },
    }
}

/// Splits a decision reason into the strategy that made it and the text of
/// the expected profit it states, if it states one (see `reason_strategy`
/// and `reason_profit_text`); the strategy is always there.
pub fn split_strategy_reason(reason: &str) -> (r: (Option<String>, Option<String>))
    ensures
        r.0 matches Some(name) && name@ == reason_strategy(reason@),
        match reason_profit_text(reason@) {
            Some(t) => r.1 matches Some(p) && p@ == t,
            None => r.1 is None,
        },
{
    let chars = str_chars(reason);
    let strategy = strategy_of(reason, &chars);
    let profit = profit_text_of(reason, &chars);
    (Some(strategy), profit)
}

/// The decimal digit character of `d` (below ten).
pub open spec fn digit_char(d: int) -> char {
    (d + 48) as char
}

/// The decimal text of a number, without leading zeros ("0" for zero).
pub open spec fn decimal_text(n: nat) -> Seq<char>
    decreases n,
{
    if n < 10 {
        seq![digit_char(n as int)]
    } else {
        decimal_text(n / 10).push(digit_char((n % 10) as int))
    }
}

/// The text of one decimal digit.
fn digit_str(d: usize) -> (r: &'static str)
    requires
        d < 10,
    ensures
        r@ == seq![digit_char(d as int)],
{
    match d {
        0 => {
            proof {
                reveal_strlit("0");
            }
            "0"
        },
        1 => {
            proof {
                reveal_strlit("1");
            }
            "1"
        },
        2 => {
            proof {
                reveal_strlit("2");
            }
            "2"
        },
        3 => {
            proof {
                reveal_strlit("3");
            }
            "3"
        },
        4 => {
            proof {
                reveal_strlit("4");
            }
            "4"
        },
        5 => {
            proof {
                reveal_strlit("5");
            }
            "5"
        },
        6 => {
            proof {
                reveal_strlit("6");
            }
            "6"
        },
        7 => {
            proof {
                reveal_strlit("7");
            }
            "7"
        },
        8 => {
            proof {
                reveal_strlit("8");
            }
            "8"
        },
        _ => {
            proof {
                reveal_strlit("9");
            }
            "9"
        },
    }
}

/// Appends the decimal text of `n` to `out`.
fn append_decimal(out: &mut String, n: usize)
    ensures
        final(out)@ == old(out)@ + decimal_text(n as nat),
    decreases n,
{
    if n >= 10 {
        append_decimal(out, n / 10);
        out.append(digit_str(n % 10));
        assert(out@ =~= old(out)@ + decimal_text(n as nat));
    } else {
        out.append(digit_str(n));
        assert(out@ =~= old(out)@ + decimal_text(n as nat));
    }
}

/// How an inverter works with the others.
#[derive(Debug, Clone)]
pub enum InverterTopology {
    /// Works on its own
    Independent,
    /// Controls the listed inverters
    Master { slave_ids: Vec<String> },
    /// Follows the named inverter
    Slave { master_id: String },
}

/// An inverter's configuration, as far as its topology goes.
#[derive(Debug, Clone)]
pub struct InverterConfig {
    pub id: String,
    pub topology: InverterTopology,
}

/// The label of an inverter's topology: "Independent", "Master (<n>
/// slaves)", "Slave of <master>", or "Unknown" for an inverter that is not
/// configured. The first inverter configured under the id counts.
pub open spec fn topology_label_of(inverter_id: Seq<char>, inverters: Seq<InverterConfig>) -> Seq<char>
    decreases inverters.len(),
{
    if inverters.len() == 0 {
        "Unknown"@
    } else if inverters[0].id@ == inverter_id {
        match inverters[0].topology {
            InverterTopology::Independent => "Independent"@,
            InverterTopology::Master { slave_ids } => "Master ("@ + decimal_text(slave_ids.len() as nat)
                + " slaves)"@,
            InverterTopology::Slave { master_id } => "Slave of "@ + master_id@,
        }
    } else {
        topology_label_of(inverter_id, inverters.drop_first())
    }
}

/// The label of the topology of the inverter `inverter_id` (see
/// `topology_label_of`).
pub fn get_topology_string(inverter_id: &str, inverters: &[InverterConfig]) -> (r: String)
    ensures
        r@ == topology_label_of(inverter_id@, inverters@),
{
    let target = String::from_str(inverter_id);
    let mut i: usize = 0;
    assert(inverters@.skip(0) =~= inverters@);
    while i < inverters.len()
        invariant
            i <= inverters@.len(),
            target@ == inverter_id@,
            topology_label_of(inverter_id@, inverters@) == topology_label_of(inverter_id@, inverters@.skip(i as int)),
        decreases inverters.len() - i,
    {
        let inv = &inverters[i];
        proof {
            assert(inverters@.skip(i as int)[0] == inverters@[i as int]);
            assert(inverters@.skip(i as int).drop_first() =~= inverters@.skip(i + 1));
        }
        if inv.id == target {
            match &inv.topology {
                InverterTopology::Independent => {
                    return String::from_str("Independent");
                },
                InverterTopology::Master { slave_ids } => {
                    let mut label = String::from_str("Master (");
                    append_decimal(&mut label, slave_ids.len());
                    label.append(" slaves)");
                    return label;
                },
                InverterTopology::Slave { master_id } => {
                    let mut label = String::from_str("Slave of ");
                    label.append(master_id.as_str());
                    return label;
                },
            }
        }
        i = i + 1;
    }
    String::from_str("Unknown")
}

} // verus!
