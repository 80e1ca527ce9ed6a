//! The slot table, the stake formulas, the plugin model, and the rolling
//! histograms.

use completion_ring::load_histogram::{LoadAccountsHistogram, HOUR_INTERVAL_NS, MINUTE_INTERVAL_NS};
use completion_ring::plugin::{AccountInfoVersion, Plugin};
use completion_ring::slot_table::SlotTable;
use completion_ring::stake::{
    get_minimum_delegation, get_minimum_delegation_for_new_stakes,
    get_minimum_delegation_for_rewards, FeatureSet, LAMPORTS_PER_SOL,
};

#[test]
fn slot_table_reuses_freed_keys() {
    let mut t: SlotTable<&'static str> = SlotTable::new();
    let a = t.insert("a");
    let b = t.insert("b");
    assert_ne!(a, b);
    assert_eq!(t.len(), 2);
    assert!(t.contains_key(a));
    assert_eq!(t.remove(a), "a");
    assert!(!t.contains_key(a));
    assert_eq!(t.len(), 1);
    // the freed slot is recycled before the table grows
    let c = t.insert("c");
    assert_eq!(c, a);
    assert_eq!(t.remove(b), "b");
    assert_eq!(t.remove(c), "c");
    assert!(t.is_empty());
}

#[test]
fn minimum_delegation_follows_the_feature_switches() {
    let of = |raise: bool, rewards: bool| FeatureSet {
        raise_minimum_delegation_to_1_sol: raise,
        rewards_minimum_delegation_1_sol: rewards,
    };
    assert_eq!(get_minimum_delegation_for_new_stakes(&of(false, false)), 1);
    assert_eq!(
        get_minimum_delegation_for_new_stakes(&of(true, false)),
        LAMPORTS_PER_SOL
    );
    assert_eq!(get_minimum_delegation_for_rewards(&of(false, false)), 0);
    assert_eq!(
        get_minimum_delegation_for_rewards(&of(false, true)),
        LAMPORTS_PER_SOL
    );
    // the overall minimum is the larger of the two
    assert_eq!(get_minimum_delegation(&of(false, false)), 1);
    assert_eq!(get_minimum_delegation(&of(true, false)), LAMPORTS_PER_SOL);
    assert_eq!(get_minimum_delegation(&of(false, true)), LAMPORTS_PER_SOL);
    assert_eq!(get_minimum_delegation(&of(true, true)), LAMPORTS_PER_SOL);
}

#[test]
fn plugin_counts_account_notifications() {
    let mut plugin = Plugin::new();
    assert_eq!(plugin.name(), "brooks-geyser-plugin");
    plugin.on_load(false).unwrap();
    plugin.update_account(AccountInfoVersion::Current, 1, true).unwrap();
    plugin.update_account(AccountInfoVersion::Current, 2, true).unwrap();
    assert_eq!(plugin.notify_end_of_startup(), Ok(2));
    // a reload starts the count over
    plugin.on_load(true).unwrap();
    assert_eq!(plugin.notify_end_of_startup(), Ok(0));
}

#[test]
fn plugin_notification_switches() {
    let plugin = Plugin::new();
    assert!(plugin.account_data_notifications_enabled());
    assert!(plugin.account_data_snapshot_notifications_enabled());
    assert!(!plugin.transaction_notifications_enabled());
    assert!(!plugin.entry_notifications_enabled());
}

#[test]
fn histogram_reports_come_due_by_interval() {
    let t0 = 1_000u64;
    let mut h = LoadAccountsHistogram::new(t0).unwrap();
    assert!(h.record(12_345));
    // nothing is due immediately, nor on a clock that went backwards
    assert_eq!(h.submissions_due(t0), (false, false));
    assert_eq!(h.submissions_due(0), (false, false));
    // exactly at the minute boundary the minute report is due
    assert_eq!(h.submissions_due(t0 + MINUTE_INTERVAL_NS), (true, false));
    // at the hour boundary both are due
    assert_eq!(h.submissions_due(t0 + HOUR_INTERVAL_NS), (true, true));
    // after a minute rollover, the minute interval restarts
    let t1 = t0 + MINUTE_INTERVAL_NS;
    h.finish_submit_1_minute(t1);
    assert_eq!(h.submissions_due(t1), (false, false));
    assert_eq!(h.submissions_due(t1 + MINUTE_INTERVAL_NS), (true, false));
    // the hour histogram is untouched by the minute rollover
    assert_eq!(h.submissions_due(t0 + HOUR_INTERVAL_NS), (true, true));
    h.finish_submit_1_hour(t0 + HOUR_INTERVAL_NS);
    assert_eq!(h.submissions_due(t0 + HOUR_INTERVAL_NS), (true, false));
}

#[test]
fn histogram_names_and_accessors() {
    let h = LoadAccountsHistogram::new(0).unwrap();
    assert_eq!(h.minute_datapoint_name(), "load_accounts_histogram-1_minute");
    assert_eq!(h.hour_datapoint_name(), "load_accounts_histogram-1_hour");
    // the reporter reads quantiles straight from the outside histogram;
    // an empty histogram reports no samples
    let p = h.minute_histogram().quantile_bucket(0.5).unwrap();
    assert!(p.is_none());
}
