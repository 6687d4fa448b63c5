use fluxion::defaults::{default_hdo_cache_ttl, default_winter_adaptive_v2_priority};
use fluxion::web::{ConfigUpdateError, QueryError, UserControlUpdateError};

#[test]
fn defaults() {
    assert_eq!(default_winter_adaptive_v2_priority(), 100);
    assert_eq!(default_hdo_cache_ttl(), 3600);
}

#[test]
fn error_texts() {
    assert_eq!(UserControlUpdateError::ChannelClosed.message(), "user control update channel closed");
    assert_eq!(QueryError::ChannelClosed.message(), "Query channel closed");
    assert_eq!(QueryError::ResponseTimeout.message(), "Response timeout");
    assert_eq!(ConfigUpdateError::ChannelClosed.message(), "Config update channel closed");
}

use fluxion::web::split_strategy_reason;

#[test]
fn strategy_reason_parts() {
    let (name, profit) =
        split_strategy_reason("Winter-Adaptive - Charging at cheap block (expected profit: 1.25 CZK)");
    assert_eq!(name.as_deref(), Some("Winter-Adaptive"));
    assert_eq!(profit.as_deref(), Some("1.25"));

    let (name, profit) = split_strategy_reason("  Self-Use  ");
    assert_eq!(name.as_deref(), Some("Self-Use"));
    assert_eq!(profit, None);

    // The last "expected profit: " counts; without " CZK" after it there is no figure.
    let (_, profit) = split_strategy_reason("A - expected profit: 1 CZK, expected profit:  2.5  CZK");
    assert_eq!(profit.as_deref(), Some("2.5"));
    let (_, profit) = split_strategy_reason("A - expected profit: 3");
    assert_eq!(profit, None);
    let (name, _) = split_strategy_reason("");
    assert_eq!(name.as_deref(), Some(""));
}

use fluxion::web::{get_topology_string, InverterConfig, InverterTopology};

#[test]
fn topology_labels() {
    let inverters = vec![
        InverterConfig { id: "a".to_string(), topology: InverterTopology::Independent },
        InverterConfig {
            id: "m".to_string(),
            topology: InverterTopology::Master {
                slave_ids: (0..12).map(|i| format!("s{i}")).collect(),
            },
        },
        InverterConfig { id: "s".to_string(), topology: InverterTopology::Slave { master_id: "m".to_string() } },
        InverterConfig { id: "a".to_string(), topology: InverterTopology::Slave { master_id: "x".to_string() } },
    ];
    assert_eq!(get_topology_string("a", &inverters), "Independent");
    assert_eq!(get_topology_string("m", &inverters), "Master (12 slaves)");
    assert_eq!(get_topology_string("s", &inverters), "Slave of m");
    assert_eq!(get_topology_string("zz", &inverters), "Unknown");
    let no_slaves = vec![InverterConfig {
        id: "m".to_string(),
        topology: InverterTopology::Master { slave_ids: Vec::new() },
    }];
    assert_eq!(get_topology_string("m", &no_slaves), "Master (0 slaves)");
}
