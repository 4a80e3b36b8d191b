use dedup_engine::backup::{check_backup_allowed, BackupRefusal, RepoMetrics, FREE_MAX_FILE_SIZE, FREE_MAX_REPO_SIZE};
use dedup_engine::config::{has_custom_repo, repo_dir, resolve_target, use_compression, ProjectConfig};
use dedup_engine::policy::{watch_triggers_backup, License, StatsNotice};

fn license(tier: &str) -> License {
    License { tier: tier.to_string() }
}

#[test]
fn default_license_is_free() {
    let l = License::free();
    assert_eq!(l.tier, "free");
    assert!(l.is_free());
    assert!(!l.is_team());
}

#[test]
fn keys_select_the_plan() {
    let mut l = License::free();
    assert!(l.authenticate("PRO-1234"));
    assert_eq!(l.tier, "pro");
    assert!(l.authenticate("TEAM-abcd"));
    assert_eq!(l.tier, "team");
    assert!(!l.authenticate("pro-1234"));
    assert_eq!(l.tier, "team");
    let mut f = License::free();
    assert!(!f.authenticate("ENTERPRISE-1"));
    assert_eq!(f.tier, "free");
    assert!(!f.authenticate("TEAM"));
}

#[test]
fn plan_gates() {
    let free = license("free");
    let pro = license("pro");
    let team = license("team");
    assert!(!free.compression_allowed(true));
    assert!(free.compression_allowed(false));
    assert!(pro.compression_allowed(true));
    assert!(!free.watch_allowed());
    assert!(pro.watch_allowed());
    assert!(!pro.history_allowed());
    assert!(team.history_allowed());
    assert!(free.custom_repo_allowed(false));
    assert!(!pro.custom_repo_allowed(true));
    assert!(team.custom_repo_allowed(true));
    let other = license("gold");
    assert!(other.watch_allowed());
    assert!(!other.history_allowed());
}

#[test]
fn stats_notice() {
    assert_eq!(license("pro").stats_notice(0), StatsNotice::Premium);
    assert_eq!(license("free").stats_notice(800 * 1024 * 1024), StatsNotice::UpgradeHint);
    assert_eq!(license("free").stats_notice(800 * 1024 * 1024 + 1), StatsNotice::NearFreeLimit);
}

#[test]
fn free_plan_limits() {
    assert_eq!(check_backup_allowed(true, FREE_MAX_FILE_SIZE, 0), Ok(()));
    assert_eq!(
        check_backup_allowed(true, FREE_MAX_FILE_SIZE + 1, 0),
        Err(BackupRefusal::FileTooLarge { size_mb: 300 })
    );
    assert_eq!(
        check_backup_allowed(true, 500 * 1024 * 1024, 0),
        Err(BackupRefusal::FileTooLarge { size_mb: 500 })
    );
    assert_eq!(check_backup_allowed(true, 10, FREE_MAX_REPO_SIZE), Err(BackupRefusal::StorageFull));
    assert_eq!(check_backup_allowed(false, u64::MAX, u64::MAX), Ok(()));
}

#[test]
fn saved_bytes_saturates() {
    assert_eq!(RepoMetrics { logical_bytes: 10, stored_bytes: 4 }.saved_bytes(), 6);
    assert_eq!(RepoMetrics { logical_bytes: 4, stored_bytes: 10 }.saved_bytes(), 0);
    let e = RepoMetrics::empty();
    assert_eq!((e.logical_bytes, e.stored_bytes), (0, 0));
}

#[test]
fn watch_debounce() {
    assert!(!watch_triggers_backup(true, 2_000_000_000));
    assert!(watch_triggers_backup(true, 2_000_000_001));
    assert!(!watch_triggers_backup(false, 9_000_000_000));
}

#[test]
fn configuration_defaults() {
    let cfg = Some(ProjectConfig {
        compression: Some(true),
        watch: None,
        path: Some("/tmp/repo".to_string()),
        target: Some("data.db".to_string()),
    });
    assert!(use_compression(false, &cfg));
    assert!(use_compression(true, &None));
    assert!(!use_compression(false, &None));
    assert_eq!(resolve_target(None, &cfg), Some("data.db".to_string()));
    assert_eq!(resolve_target(Some("x".to_string()), &cfg), Some("x".to_string()));
    assert_eq!(resolve_target(None, &None), None);
    assert!(has_custom_repo(&cfg));
    assert!(!has_custom_repo(&None));
    assert_eq!(repo_dir(&cfg, "/home/u/.dedup".to_string()), "/tmp/repo");
    assert_eq!(repo_dir(&None, "/home/u/.dedup".to_string()), "/home/u/.dedup");
}
