//! Plans (free, pro, team) and what each one allows.

use vstd::prelude::*;
use crate::text::{has_prefix, starts_with, str_eq};

verus! {

/// The license of this installation: the name of its plan.
pub struct License {
    /// `"free"`, `"pro"` or `"team"`, as stored; any other name counts as a paid plan
    /// that is not the team plan.
    pub tier: String,
}

/// The plan name is the free plan's.
pub open spec fn is_free_tier(tier: Seq<char>) -> bool {
    tier == "free"@
}

/// The plan name is the team plan's.
pub open spec fn is_team_tier(tier: Seq<char>) -> bool {
    tier == "team"@
}

/// Storage past which the free plan warns that its limit is near (800 MiB).
pub const FREE_WARN_BYTES: u64 = 800 * 1024 * 1024;

/// The closing note of the statistics view.
#[derive(Clone, Copy, Debug, PartialEq, Eq, Structural)]
pub enum StatsNotice {
    /// A paid plan: show the premium statistics.
    Premium,
    /// The free plan, with more than 800 MiB stored.
    NearFreeLimit,
    /// The free plan otherwise.
    UpgradeHint,
}

impl License {
    /// The license of an installation that has not authenticated: the free plan.
    pub fn free() -> (l: License)
        ensures
            is_free_tier(l.tier@),
    {
        License { tier: "free".to_owned() }
    }

    /// Whether this is the free plan.
    pub fn is_free(&self) -> (b: bool)
        ensures
            b == is_free_tier(self.tier@),
    {
        str_eq(self.tier.as_str(), "free")
    }

    /// Whether this is the team plan.
    pub fn is_team(&self) -> (b: bool)
        ensures
            b == is_team_tier(self.tier@),
    {
        str_eq(self.tier.as_str(), "team")
    }

    /// Authenticates a license key: a key starting with `TEAM-` makes this
    /// the team plan, one starting with `PRO-` the pro plan; any other key is
    /// refused and leaves the license as it was.
    pub fn authenticate(&mut self, key: &str) -> (accepted: bool)
        ensures
            has_prefix(key@, "TEAM-"@) ==> accepted && is_team_tier(final(self).tier@),
            !has_prefix(key@, "TEAM-"@) && has_prefix(key@, "PRO-"@) ==> accepted
                && final(self).tier@ == "pro"@,
            !has_prefix(key@, "TEAM-"@) && !has_prefix(key@, "PRO-"@) ==> !accepted
                && final(self).tier@ == old(self).tier@,
    {
        if starts_with(key, "TEAM-") {
            self.tier = "team".to_owned();
            true
        } else if starts_with(key, "PRO-") {
            self.tier = "pro".to_owned();
            true
        } else {
            false
        }
    }

    /// Whether a repository of the project's own (a `path` in its
    /// configuration) may be used: only on the team plan.
    pub fn custom_repo_allowed(&self, has_custom_path: bool) -> (b: bool)
        ensures
            b == (!has_custom_path || is_team_tier(self.tier@)),
    {
        !has_custom_path || self.is_team()
    }

    /// Whether a backup may compress its chunks: not on the free plan.
    pub fn compression_allowed(&self, use_compress: bool) -> (b: bool)
        ensures
            b == (!use_compress || !is_free_tier(self.tier@)),
    {
        !use_compress || !self.is_free()
    }

    /// Whether a file may be watched and backed up on change: not on the free plan.
    pub fn watch_allowed(&self) -> (b: bool)
        ensures
            b == !is_free_tier(self.tier@),
    {
        !self.is_free()
    }

    /// Whether the backup history may be viewed: on the team plan only.
    pub fn history_allowed(&self) -> (b: bool)
        ensures
            b == is_team_tier(self.tier@),
    {
        self.is_team()
    }

    /// The closing note of the statistics view for a repository storing
    /// `stored_bytes` bytes.
    pub fn stats_notice(&self, stored_bytes: u64) -> (n: StatsNotice)
        ensures
            !is_free_tier(self.tier@) ==> n == StatsNotice::Premium,
            is_free_tier(self.tier@) && stored_bytes > FREE_WARN_BYTES ==> n
                == StatsNotice::NearFreeLimit,
            is_free_tier(self.tier@) && stored_bytes <= FREE_WARN_BYTES ==> n
                == StatsNotice::UpgradeHint,
    {
        if !self.is_free() {
            StatsNotice::Premium
        } else if stored_bytes > FREE_WARN_BYTES {
            StatsNotice::NearFreeLimit
        } else {
            StatsNotice::UpgradeHint
        }
    }
}

/// The least time between two backups of a watched file: two seconds, in nanoseconds.
pub const WATCH_DEBOUNCE_NANOS: u128 = 2_000_000_000;

/// Whether a file-system event on a watched file starts a backup: only a
/// modification, and only more than two seconds after the last backup.
pub fn watch_triggers_backup(is_modify: bool, nanos_since_last: u128) -> (b: bool)
    ensures
        b == (is_modify && nanos_since_last > WATCH_DEBOUNCE_NANOS),
{
    is_modify && nanos_since_last > WATCH_DEBOUNCE_NANOS
}

} // verus!
