//! The host-plugin shim, as plain state: which notifications it answers for,
//! and the account counter it keeps during startup. The host-facing adapter
//! (trait plumbing, logging) is unverified glue around this type.

use vstd::prelude::*;

verus! {

/// The account-notification payload versions a host can hand the plugin.
/// Only the newest is understood; the plugin must not be handed an older one.
#[derive(Clone, Copy, Debug, PartialEq, Eq, Structural)]
pub enum AccountInfoVersion {
    /// The newest payload version, the one the plugin reads.
    Current,
    /// Any older payload version.
    Legacy,
}

/// State the plugin carries once loaded.
#[derive(Debug)]
struct PluginInner {
    startup_num_accounts: u64,
}

/// The plugin: unloaded until `on_load`, then counting account
/// notifications.
#[derive(Debug)]
pub struct Plugin {
    inner: Option<PluginInner>,
}

impl Plugin {
    /// Whether `on_load` has run.
    pub closed spec fn loaded(&self) -> bool {
        self.inner is Some
    }

    /// How many account notifications have been counted (wrapping).
    pub closed spec fn num_accounts(&self) -> u64 {
        self.inner->0.startup_num_accounts
    }

    /// A plugin that has not been loaded yet.
    pub fn new() -> (r: Self)
        ensures
            !r.loaded(),
    {
        Plugin { inner: None }
    }

    /// The plugin's name, as reported to the host.
    pub fn name(&self) -> (r: &'static str)
        ensures
            r@ == "brooks-geyser-plugin"@,
    {
        "brooks-geyser-plugin"
    }

    /// Loads (or reloads) the plugin: its counter starts at zero.
    pub fn on_load(&mut self, is_reload: bool) -> (r: Result<(), ()>)
        ensures
            r is Ok,
            final(self).loaded(),
            final(self).num_accounts() == 0,
    {
        self.inner = Some(PluginInner { startup_num_accounts: 0 });
        Ok(())
    }

    /// Counts one account notification. The plugin must be loaded and the
    /// payload must be the version it understands.
    pub fn update_account(&mut self, account: AccountInfoVersion, slot: u64, is_startup: bool) -> (r:
        Result<(), ()>)
        requires
            old(self).loaded(),
            account == AccountInfoVersion::Current,
        ensures
            r is Ok,
            final(self).loaded(),
            final(self).num_accounts() == (if old(self).num_accounts() == u64::MAX {
                0u64
            } else {
                (old(self).num_accounts() + 1) as u64
            }),
    {
        match &mut self.inner {
            Some(inner) => {
                if inner.startup_num_accounts == u64::MAX {
                    inner.startup_num_accounts = 0;
                } else {
                    inner.startup_num_accounts = inner.startup_num_accounts + 1;
                }
                Ok(())
            },
            None => Err(()),
        }
    }

    /// Reports the startup account count at the end of startup. The plugin
    /// must be loaded.
    pub fn notify_end_of_startup(&self) -> (r: Result<u64, ()>)
        requires
            self.loaded(),
        ensures
            r == Result::<u64, ()>::Ok(self.num_accounts()),
    {
        match &self.inner {
            Some(inner) => Ok(inner.startup_num_accounts),
            None => Err(()),
        }
    }

    /// Account-data notifications must be on to receive account snapshot
    /// notifications.
    pub fn account_data_notifications_enabled(&self) -> (r: bool)
        ensures
            r == true,
    {
        true
    }

    /// Account-data snapshot notifications are on.
    pub fn account_data_snapshot_notifications_enabled(&self) -> (r: bool)
        ensures
            r == true,
    {
        true
    }

    /// Transaction notifications are off.
    pub fn transaction_notifications_enabled(&self) -> (r: bool)
        ensures
            r == false,
    {
        false
    }

    /// Entry notifications are off.
    pub fn entry_notifications_enabled(&self) -> (r: bool)
        ensures
            r == false,
    {
        false
    }
}

} // verus!
