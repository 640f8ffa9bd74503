use xdev::document::HostsFileStructure;
use xdev::operations::{summarize_updates, update_single_subscription};
use xdev::transaction::{FailedStep, HostsMutation, HostsTransaction, TxAction, TxOutcome, TxPhase};

const URL: &str = "https://example.com/hosts";

/// Runs a transaction against an in-memory file: each action succeeds or fails as
/// `results` says; successful writes replace the file. Returns the outcome, the
/// actions' kinds, and the backups taken.
fn drive(
    mut tx: HostsTransaction,
    mut action: TxAction,
    file: &mut String,
    results: &[bool],
) -> (TxOutcome, Vec<&'static str>, Vec<String>) {
    let mut kinds = Vec::new();
    let mut backups = Vec::new();
    let mut i = 0;
    loop {
        let ok = match &action {
            TxAction::Finish(o) => return (*o, kinds, backups),
            TxAction::WriteBackup(c) => {
                kinds.push("backup");
                let ok = results[i];
                if ok {
                    backups.push(c.clone());
                }
                ok
            }
            TxAction::WriteFile(c) | TxAction::RestoreFile(c) => {
                kinds.push(if matches!(action, TxAction::WriteFile(_)) { "write" } else { "restore" });
                let ok = results[i];
                if ok {
                    *file = c.clone();
                }
                ok
            }
            TxAction::UpdateRegistry => {
                kinds.push("registry");
                results[i]
            }
        };
        i += 1;
        action = tx.step(ok);
    }
}

fn subscribe(original: &str, url: &str, content: &str, now: u64) -> (HostsTransaction, TxAction) {
    HostsTransaction::new(
        original.to_string(),
        HostsMutation::AddOrUpdate { url: url.to_string(), content: content.to_string(), now },
    )
}

#[test]
fn end_to_end_subscribe_then_unsubscribe() {
    let mut file = String::new();
    let (tx, a) = subscribe("", URL, "1.2.3.4 example.test\n# comment\n", 1000);
    let (outcome, kinds, backups) = drive(tx, a, &mut file, &[true, true, true]);
    assert_eq!(outcome, TxOutcome::Succeeded);
    assert_eq!(kinds, vec!["backup", "write", "registry"]);
    assert_eq!(backups, vec![String::new()]);
    let doc = HostsFileStructure::parse(&file);
    assert_eq!(doc.get_all_subscriptions(), vec![URL.to_string()]);
    let lines = doc.subscription_block(URL).unwrap();
    let entries: Vec<&String> = lines.iter().filter(|l| !l.is_empty() && !l.starts_with('#')).collect();
    assert_eq!(entries, vec!["1.2.3.4 example.test"]);

    let (tx, a) = HostsTransaction::new(file.clone(), HostsMutation::Remove { url: URL.to_string() });
    let (outcome, kinds, backups) = drive(tx, a, &mut file, &[true, true, true]);
    assert_eq!(outcome, TxOutcome::Succeeded);
    assert_eq!(kinds, vec!["backup", "write", "registry"]);
    assert_eq!(backups.len(), 1);
    assert_eq!(file, "");
    assert!(HostsFileStructure::parse(&file).get_all_subscriptions().is_empty());
}

#[test]
fn registry_failure_rolls_back_file() {
    let original = "127.0.0.1 localhost\n";
    let mut file = original.to_string();
    let (tx, a) = subscribe(original, URL, "1.2.3.4 a.test\n", 5);
    let (outcome, kinds, backups) = drive(tx, a, &mut file, &[true, true, false, true]);
    assert_eq!(outcome, TxOutcome::RolledBack(FailedStep::Registry));
    assert_eq!(kinds, vec!["backup", "write", "registry", "restore"]);
    assert_eq!(file, original);
    assert_eq!(backups, vec![original.to_string()]);
}

#[test]
fn failed_rollback_after_registry_failure_is_desync() {
    let original = "127.0.0.1 localhost\n";
    let mut file = original.to_string();
    let (tx, a) = subscribe(original, URL, "1.2.3.4 a.test\n", 5);
    let (outcome, _, _) = drive(tx, a, &mut file, &[true, true, false, false]);
    assert_eq!(outcome, TxOutcome::RollbackFailed(FailedStep::Registry));
    assert_ne!(file, original);
}

#[test]
fn failed_write_leaves_file_and_restores() {
    let original = "10.0.0.1 box\n";
    let mut file = original.to_string();
    let (tx, a) = subscribe(original, URL, "1.2.3.4 a.test\n", 5);
    let (outcome, kinds, _) = drive(tx, a, &mut file, &[true, false, true]);
    assert_eq!(outcome, TxOutcome::RolledBack(FailedStep::Write));
    assert_eq!(kinds, vec!["backup", "write", "restore"]);
    assert_eq!(file, original);
}

#[test]
fn failed_backup_touches_nothing() {
    let original = "10.0.0.1 box\n";
    let mut file = original.to_string();
    let (tx, a) = subscribe(original, URL, "1.2.3.4 a.test\n", 5);
    let (outcome, kinds, backups) = drive(tx, a, &mut file, &[false]);
    assert_eq!(outcome, TxOutcome::BackupFailed);
    assert_eq!(kinds, vec!["backup"]);
    assert!(backups.is_empty());
    assert_eq!(file, original);
}

#[test]
fn removing_absent_block_skips_write() {
    let original = "10.0.0.1 box\n";
    let mut file = original.to_string();
    let (tx, a) = HostsTransaction::new(original.to_string(), HostsMutation::Remove { url: URL.to_string() });
    let (outcome, kinds, _) = drive(tx, a, &mut file, &[true, true]);
    assert_eq!(outcome, TxOutcome::Succeeded);
    assert_eq!(kinds, vec!["backup", "registry"]);
    assert_eq!(file, original);
}

#[test]
fn finished_transaction_stays_finished() {
    let (mut tx, _) = subscribe("", URL, "1.1.1.1 a\n", 1);
    tx.step(false);
    assert_eq!(tx.phase, TxPhase::Finished(TxOutcome::BackupFailed));
    assert!(matches!(tx.step(true), TxAction::Finish(TxOutcome::BackupFailed)));
}

#[test]
fn partial_batch_failure() {
    let urls = vec![
        "https://one.test/hosts".to_string(),
        "https://two.test/hosts".to_string(),
        "https://three.test/hosts".to_string(),
    ];
    let mut file = String::new();
    for (i, u) in urls.iter().enumerate() {
        let (tx, a) = subscribe(&file.clone(), u, &format!("1.1.1.{i} old{i}.test\n"), 1);
        drive(tx, a, &mut file, &[true, true, true]);
    }
    let downloads = [Some("2.2.2.1 new1.test\n"), None, Some("2.2.2.3 new3.test\n")];
    let mut results = Vec::new();
    for (u, d) in urls.iter().zip(downloads.iter()) {
        match d {
            None => results.push(false),
            Some(content) => {
                let (tx, a) = update_single_subscription(u, content, 2, file.clone()).unwrap();
                let (outcome, _, _) = drive(tx, a, &mut file, &[true, true, true]);
                results.push(outcome == TxOutcome::Succeeded);
            }
        }
    }
    let summary = summarize_updates(&urls, &results);
    assert_eq!(summary.success_count, 2);
    assert_eq!(summary.failed_urls, vec!["https://two.test/hosts".to_string()]);
    assert_eq!(summary.total_count, 3);
    let doc = HostsFileStructure::parse(&file);
    assert_eq!(doc.get_all_subscriptions(), urls);
    assert!(doc.subscription_block(&urls[0]).unwrap().contains(&"2.2.2.1 new1.test".to_string()));
    assert!(doc.subscription_block(&urls[1]).unwrap().contains(&"1.1.1.1 old1.test".to_string()));
    assert!(doc.subscription_block(&urls[2]).unwrap().contains(&"2.2.2.3 new3.test".to_string()));
}

#[test]
fn update_single_subscription_rejects_bad_url() {
    assert!(update_single_subscription("ftp://x.test", "1.1.1.1 a\n", 1, String::new()).is_err());
}

#[test]
fn summary_of_no_urls() {
    let s = summarize_updates(&Vec::new(), &Vec::new());
    assert_eq!(s.success_count, 0);
    assert!(s.failed_urls.is_empty());
}
