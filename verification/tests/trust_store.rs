use trust_store::dialog::{apply_choice, needs_prompt, TrustChoice};
use trust_store::fingerprint::hash_file;
use trust_store::store::{after_read, next_action, Access, LoadStep, StoreAction, StoreRead};
use trust_store::trust_db::{
    is_file_trusted, is_workspace_trusted, trust_file, trust_workspace, untrust_file,
    untrust_workspace, Trust, TrustDb,
};

fn hex(bytes: &[u8]) -> String {
    let mut out = String::new();
    for b in bytes {
        out.push_str(&format!("{:02x}", b));
    }
    out
}

#[test]
fn fingerprint_is_sha256_of_path_then_content() {
    let hash = hash_file("a", b"bc");
    assert_eq!(hash.len(), 32);
    assert_eq!(
        hex(&hash),
        "ba7816bf8f01cfea414140de5dae2223b00361a396177a9cb410ff61f20015ad"
    );
}

#[test]
fn fingerprint_of_empty_path_and_content() {
    assert_eq!(
        hex(&hash_file("", b"")),
        "e3b0c44298fc1c149afbf4c8996fb92427ae41e4649b934ca495991b7852b855"
    );
}

#[test]
fn fingerprint_binds_path_and_content() {
    assert_ne!(hash_file("/a/x.toml", b"k = 1"), hash_file("/b/x.toml", b"k = 1"));
    assert_ne!(hash_file("/a/x.toml", b"k = 1"), hash_file("/a/x.toml", b"k = 2"));
    assert_eq!(hash_file("/a/x.toml", b"k = 1"), hash_file("/a/x.toml", b"k = 1"));
}

#[test]
fn file_trust_follows_content() {
    let mut db = TrustDb::new();
    let path = Some("/ws/.helix/languages.toml");
    let content = b"[[language]]\nname = \"rust\"\n";
    assert!(!is_file_trusted(&db, path, content));
    assert!(trust_file(&mut db, path, content));
    assert!(is_file_trusted(&db, path, content));
    let mut changed = content.to_vec();
    changed[0] = b'(';
    assert!(!is_file_trusted(&db, path, &changed));
    let mut longer = content.to_vec();
    longer.push(b'\n');
    assert!(!is_file_trusted(&db, path, &longer));
}

#[test]
fn file_trust_does_not_carry_to_another_path() {
    let mut db = TrustDb::new();
    assert!(trust_file(&mut db, Some("/ws/a.toml"), b"same"));
    assert!(!is_file_trusted(&db, Some("/ws/b.toml"), b"same"));
}

#[test]
fn trust_file_reports_whether_newly_granted() {
    let mut db = TrustDb::new();
    assert!(trust_file(&mut db, Some("/ws/a.toml"), b"one"));
    assert!(!trust_file(&mut db, Some("/ws/a.toml"), b"two"));
    assert!(is_file_trusted(&db, Some("/ws/a.toml"), b"two"));
    assert!(!is_file_trusted(&db, Some("/ws/a.toml"), b"one"));
    assert_eq!(db.len(), 1);
}

#[test]
fn complete_workspace_trust_covers_nested_files() {
    let mut db = TrustDb::new();
    assert_eq!(trust_workspace(&mut db, Some("/ws"), true), None);
    assert!(is_file_trusted(&db, Some("/ws/.helix/languages.toml"), b"anything"));
    assert!(is_file_trusted(&db, Some("/ws/a/b/c/d.toml"), b""));
    assert!(is_file_trusted(&db, Some("/ws/file"), b"x"));
    assert!(!is_file_trusted(&db, Some("/other/file"), b"x"));
}

#[test]
fn plain_workspace_trust_does_not_cover_files() {
    let mut db = TrustDb::new();
    trust_workspace(&mut db, Some("/ws"), false);
    assert!(!is_file_trusted(&db, Some("/ws/.helix/languages.toml"), b"anything"));
    assert_eq!(is_workspace_trusted(&db, Some("/ws/src/main.rs")), Some(true));
}

#[test]
fn nearer_denial_shadows_complete_grant() {
    let mut db = TrustDb::new();
    trust_workspace(&mut db, Some("/ws"), true);
    untrust_workspace(&mut db, Some("/ws/vendor"));
    assert!(!is_file_trusted(&db, Some("/ws/vendor/x/languages.toml"), b"c"));
    assert!(is_file_trusted(&db, Some("/ws/src/languages.toml"), b"c"));
    assert_eq!(is_workspace_trusted(&db, Some("/ws/vendor/x")), Some(false));
    assert_eq!(is_workspace_trusted(&db, Some("/ws/src")), Some(true));
}

#[test]
fn stale_file_grant_in_completely_trusted_workspace() {
    let mut db = TrustDb::new();
    trust_file(&mut db, Some("/ws/.helix/languages.toml"), b"old");
    trust_workspace(&mut db, Some("/ws"), true);
    assert!(is_file_trusted(&db, Some("/ws/.helix/languages.toml"), b"new"));
}

#[test]
fn denial_after_grant_is_not_unknown() {
    let mut db = TrustDb::new();
    assert_eq!(is_workspace_trusted(&db, Some("/ws")), None);
    assert_eq!(trust_workspace(&mut db, Some("/ws"), false), None);
    assert_eq!(is_workspace_trusted(&db, Some("/ws")), Some(true));
    assert_eq!(
        untrust_workspace(&mut db, Some("/ws")),
        Some(Trust::Workspace { completely: false })
    );
    assert_eq!(is_workspace_trusted(&db, Some("/ws")), Some(false));
    assert_eq!(db.len(), 1);
}

#[test]
fn grant_returns_replaced_record() {
    let mut db = TrustDb::new();
    untrust_workspace(&mut db, Some("/ws"));
    assert_eq!(trust_workspace(&mut db, Some("/ws"), true), Some(Trust::Untrusted));
    assert_eq!(
        trust_workspace(&mut db, Some("/ws"), false),
        Some(Trust::Workspace { completely: true })
    );
    assert_eq!(db.get(&"/ws".to_string()), Some(&Trust::Workspace { completely: false }));
}

#[test]
fn both_file_grants_persist() {
    let mut db = TrustDb::new();
    assert!(trust_file(&mut db, Some("/ws/a.toml"), b"A"));
    assert!(trust_file(&mut db, Some("/ws/b.toml"), b"B"));
    assert!(is_file_trusted(&db, Some("/ws/a.toml"), b"A"));
    assert!(is_file_trusted(&db, Some("/ws/b.toml"), b"B"));
    let mut other = TrustDb::new();
    assert!(trust_file(&mut other, Some("/ws/b.toml"), b"B"));
    assert!(trust_file(&mut other, Some("/ws/a.toml"), b"A"));
    assert!(is_file_trusted(&other, Some("/ws/a.toml"), b"A"));
    assert!(is_file_trusted(&other, Some("/ws/b.toml"), b"B"));
    assert_eq!(db.len(), 2);
    assert_eq!(other.len(), 2);
}

#[test]
fn decision_comes_from_two_levels_up() {
    let mut db = TrustDb::new();
    trust_workspace(&mut db, Some("/ws"), false);
    assert_eq!(is_workspace_trusted(&db, Some("/ws/src/main.rs")), Some(true));
    let mut denied = TrustDb::new();
    untrust_workspace(&mut denied, Some("/ws"));
    assert_eq!(is_workspace_trusted(&denied, Some("/ws/src/main.rs")), Some(false));
    assert_eq!(is_workspace_trusted(&denied, Some("/elsewhere/src/main.rs")), None);
}

#[test]
fn nearest_record_wins() {
    let mut db = TrustDb::new();
    untrust_workspace(&mut db, Some("/"));
    trust_workspace(&mut db, Some("/ws/inner"), false);
    assert_eq!(is_workspace_trusted(&db, Some("/ws/inner/a/b")), Some(true));
    assert_eq!(is_workspace_trusted(&db, Some("/ws/outer/a/b")), Some(false));
    assert_eq!(
        db.nearest(&"/ws/inner/a".to_string()),
        Some(&Trust::Workspace { completely: false })
    );
    assert_eq!(db.nearest(&"/ws".to_string()), Some(&Trust::Untrusted));
}

#[test]
fn file_record_counts_as_not_granted_for_workspace() {
    let mut db = TrustDb::new();
    trust_file(&mut db, Some("/ws/a.toml"), b"A");
    assert_eq!(is_workspace_trusted(&db, Some("/ws/a.toml")), Some(false));
    assert_eq!(is_workspace_trusted(&db, Some("/ws")), None);
}

#[test]
fn unresolved_path_is_soft_failure() {
    let mut db = TrustDb::new();
    assert_eq!(trust_workspace(&mut db, None, true), None);
    assert_eq!(untrust_workspace(&mut db, None), None);
    assert!(!trust_file(&mut db, None, b"c"));
    assert!(!untrust_file(&mut db, None));
    assert!(!is_file_trusted(&db, None, b"c"));
    assert_eq!(is_workspace_trusted(&db, None), Some(false));
    assert_eq!(db.len(), 0);
}

#[test]
fn untrust_file_removes_only_file_grants() {
    let mut db = TrustDb::new();
    assert!(!untrust_file(&mut db, Some("/ws/a.toml")));
    trust_file(&mut db, Some("/ws/a.toml"), b"A");
    assert!(untrust_file(&mut db, Some("/ws/a.toml")));
    assert!(!is_file_trusted(&db, Some("/ws/a.toml"), b"A"));
    assert!(!untrust_file(&mut db, Some("/ws/a.toml")));
    trust_workspace(&mut db, Some("/ws"), false);
    assert!(!untrust_file(&mut db, Some("/ws")));
    assert_eq!(is_workspace_trusted(&db, Some("/ws")), Some(true));
}

#[test]
fn store_lists_its_records() {
    let mut db = TrustDb::new();
    trust_workspace(&mut db, Some("/a"), true);
    untrust_workspace(&mut db, Some("/b"));
    trust_workspace(&mut db, Some("/a"), false);
    assert_eq!(db.len(), 2);
    let mut seen = Vec::new();
    for i in 0..db.len() {
        let (path, trust) = db.entry(i);
        seen.push((path.clone(), trust.clone()));
    }
    seen.sort_by(|x, y| x.0.cmp(&y.0));
    assert_eq!(
        seen,
        vec![
            ("/a".to_string(), Trust::Workspace { completely: false }),
            ("/b".to_string(), Trust::Untrusted),
        ]
    );
    assert_eq!(db.remove(&"/a".to_string()), Some(Trust::Workspace { completely: false }));
    assert_eq!(db.remove(&"/a".to_string()), None);
    assert_eq!(db.len(), 1);
}

#[test]
fn db_methods_answer_for_given_fingerprint() {
    let mut db = TrustDb::new();
    let path = "/ws/x.toml".to_string();
    db.insert(path.clone(), Trust::File { hash: vec![1, 2, 3] });
    assert!(db.is_file_trusted(&path, &[1, 2, 3]));
    assert!(!db.is_file_trusted(&path, &[1, 2, 4]));
    assert!(!db.is_file_trusted(&path, &[1, 2]));
    assert!(!db.is_file_in_completely_trusted(&path));
    db.insert("/ws".to_string(), Trust::Workspace { completely: true });
    assert!(db.is_file_in_completely_trusted(&path));
    assert!(!db.is_file_in_completely_trusted(&"/ws".to_string()));
    assert_eq!(db.is_workspace_trusted(&path), Some(false));
}

#[test]
fn read_outcomes_decide_the_next_step() {
    assert_eq!(after_read(StoreRead::Missing), LoadStep::StartEmpty);
    assert_eq!(after_read(StoreRead::Failed), LoadStep::Fail);
    assert_eq!(
        after_read(StoreRead::Text("[trust]\n".to_string())),
        LoadStep::Parse("[trust]\n".to_string())
    );
}

#[test]
fn prompt_only_when_undecided() {
    assert!(needs_prompt(None));
    assert!(!needs_prompt(Some(true)));
    assert!(!needs_prompt(Some(false)));
}

#[test]
fn choices_write_their_records() {
    let mut db = TrustDb::new();
    assert_eq!(apply_choice(&mut db, Some("/ws"), TrustChoice::Trust), None);
    assert_eq!(db.get(&"/ws".to_string()), Some(&Trust::Workspace { completely: false }));
    apply_choice(&mut db, Some("/ws"), TrustChoice::TrustCompletely);
    assert_eq!(db.get(&"/ws".to_string()), Some(&Trust::Workspace { completely: true }));
    assert_eq!(
        apply_choice(&mut db, Some("/ws"), TrustChoice::DoNotTrust),
        Some(Trust::Workspace { completely: true })
    );
    assert_eq!(db.get(&"/ws".to_string()), Some(&Trust::Untrusted));
    assert_eq!(apply_choice(&mut db, None, TrustChoice::Trust), None);
    assert_eq!(db.len(), 1);
}

fn run(access: Access, outcomes: &[bool]) -> Vec<StoreAction> {
    let mut actions = vec![StoreAction::AcquireLock];
    let mut i = 0;
    loop {
        let done = *actions.last().unwrap();
        if done == StoreAction::Finish {
            return actions;
        }
        let ok = outcomes.get(i).copied().unwrap_or(true);
        actions.push(next_action(access, done, ok));
        i += 1;
    }
}

#[test]
fn inspect_reads_under_the_lock_and_releases() {
    assert_eq!(
        run(Access::Inspect, &[true, true]),
        vec![
            StoreAction::AcquireLock,
            StoreAction::ReadFile,
            StoreAction::ReleaseLock,
            StoreAction::Finish,
        ]
    );
}

#[test]
fn modify_reads_writes_and_releases() {
    assert_eq!(
        run(Access::Modify, &[true, true, true]),
        vec![
            StoreAction::AcquireLock,
            StoreAction::ReadFile,
            StoreAction::WriteFile,
            StoreAction::ReleaseLock,
            StoreAction::Finish,
        ]
    );
}

#[test]
fn failures_release_the_lock_and_touch_nothing_more() {
    assert_eq!(
        run(Access::Modify, &[false]),
        vec![StoreAction::AcquireLock, StoreAction::Finish]
    );
    assert_eq!(
        run(Access::Modify, &[true, false]),
        vec![
            StoreAction::AcquireLock,
            StoreAction::ReadFile,
            StoreAction::ReleaseLock,
            StoreAction::Finish,
        ]
    );
    assert_eq!(
        run(Access::Modify, &[true, true, false]),
        vec![
            StoreAction::AcquireLock,
            StoreAction::ReadFile,
            StoreAction::WriteFile,
            StoreAction::ReleaseLock,
            StoreAction::Finish,
        ]
    );
    assert_eq!(
        run(Access::Inspect, &[true, false]),
        vec![
            StoreAction::AcquireLock,
            StoreAction::ReadFile,
            StoreAction::ReleaseLock,
            StoreAction::Finish,
        ]
    );
    assert_eq!(next_action(Access::Inspect, StoreAction::Finish, true), StoreAction::Finish);
}
