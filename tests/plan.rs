use filepwn::identity::IdentityError;
use filepwn::number::NumberError;
use filepwn::run::{prepare, ModeError, Plan, RunError};

const USERS: &str = "root:x:0:0::/root:/bin/sh\nalice:x:1000:1000::/home/alice:/bin/sh\n";
const GROUPS: &str = "root:x:0:\nstaff:x:50:alice\n";

#[test]
fn plan_for_644_and_755() {
    let plan = prepare(USERS, GROUPS, "alice", "staff", "644", "755").unwrap();
    assert_eq!(plan, Plan { uid: 1000, gid: 50, file_mode: 0o644, directory_mode: 0o755 });
    let files = vec!["/t/root/a.txt".to_string(), "/t/root/sub/b.txt".to_string()];
    let dirs = vec!["/t/root/sub".to_string()];
    let changes = plan.changes(&files, &dirs);
    assert_eq!(changes.len(), 3);
    assert_eq!(changes[0].path, "/t/root/a.txt");
    assert_eq!(changes[0].mode, 0o644);
    assert_eq!(changes[1].path, "/t/root/sub/b.txt");
    assert_eq!(changes[1].mode, 0o644);
    assert_eq!(changes[2].path, "/t/root/sub");
    assert_eq!(changes[2].mode, 0o755);
    for c in &changes {
        assert_eq!((c.uid, c.gid), (1000, 50));
    }
}

#[test]
fn no_entries_no_changes() {
    let plan = prepare(USERS, GROUPS, "root", "root", "600", "700").unwrap();
    assert_eq!(plan, Plan { uid: 0, gid: 0, file_mode: 0o600, directory_mode: 0o700 });
    assert!(plan.changes(&vec![], &vec![]).is_empty());
}

#[test]
fn mode_999_stops_the_run() {
    assert_eq!(
        prepare(USERS, GROUPS, "alice", "staff", "999", "755"),
        Err(RunError::FileMode(ModeError::NotOctal(NumberError::InvalidDigit)))
    );
}

#[test]
fn directory_mode_too_large() {
    assert_eq!(
        prepare(USERS, GROUPS, "alice", "staff", "644", "1000"),
        Err(RunError::DirectoryMode(ModeError::TooLarge(512)))
    );
}

#[test]
fn unknown_user_stops_the_run() {
    assert_eq!(prepare(USERS, GROUPS, "mallory", "staff", "644", "755"), Err(RunError::UnknownUser));
}

#[test]
fn unknown_group_stops_the_run() {
    assert_eq!(prepare(USERS, GROUPS, "alice", "wheel", "644", "755"), Err(RunError::UnknownGroup));
}

#[test]
fn user_checked_before_modes() {
    assert_eq!(prepare(USERS, GROUPS, "mallory", "staff", "999", "999"), Err(RunError::UnknownUser));
}

#[test]
fn bad_account_database() {
    assert_eq!(
        prepare("root:x:zero\n", GROUPS, "root", "root", "644", "755"),
        Err(RunError::Users(IdentityError::MalformedIdentityField(b"root".to_vec(), NumberError::InvalidDigit)))
    );
}

#[test]
fn bad_group_database() {
    assert_eq!(
        prepare(USERS, "staff:x\n", "root", "staff", "644", "755"),
        Err(RunError::Groups(IdentityError::MissingIdentityField(b"staff".to_vec())))
    );
}
