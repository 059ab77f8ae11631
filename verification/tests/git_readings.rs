use git2::{Oid, Status};
use wat::git::{count_statuses, GitReading, HeadCommit};
use wat::state::{RepoReading, WatState};

const HOUR: u64 = 3_600_000_000_000;

fn commit(id: [u8; 20], message: Option<&str>) -> HeadCommit {
    HeadCommit { id, message: message.map(|m| m.to_string()), files: vec![] }
}

fn reading(statuses: Option<Vec<u32>>) -> GitReading {
    GitReading { statuses, staged: Some((100, 7)), unstaged: Some((23, 38)) }
}

fn in_repo() -> WatState {
    let repo = RepoReading { workdir: Some(b"/w/".to_vec()), head: None };
    WatState::new(b"/w".to_vec(), Some(repo), HOUR)
}

fn outside_repo() -> WatState {
    WatState::new(b"/w".to_vec(), None, 0)
}

#[test]
fn statuses_are_counted_by_heading() {
    let statuses: Vec<u32> = vec![
        Status::WT_MODIFIED.bits(),
        Status::WT_DELETED.bits(),
        (Status::WT_MODIFIED | Status::INDEX_MODIFIED).bits(),
        Status::INDEX_NEW.bits(),
        Status::INDEX_DELETED.bits(),
        Status::WT_NEW.bits(),
        (Status::WT_NEW | Status::INDEX_NEW).bits(),
        Status::WT_RENAMED.bits(),
        Status::IGNORED.bits(),
        Status::CURRENT.bits(),
    ];
    assert_eq!(count_statuses(&statuses), (3, 4, 1));
    assert_eq!(count_statuses(&Vec::new()), (0, 0, 0));
}

#[test]
fn each_flag_counts_as_git_means_it() {
    for shift in 0..32 {
        let bits: u32 = 1 << shift;
        let status = Status::from_bits_truncate(bits);
        let dirty = status.is_wt_modified() || status.is_wt_deleted();
        let staged = status.is_index_modified() || status.is_index_new() || status.is_index_deleted();
        let untracked = status.is_wt_new() && !status.is_index_new();
        let expected = (dirty as i32, staged as i32, untracked as i32);
        assert_eq!(count_statuses(&vec![bits]), expected, "{bits:#x}");
    }
}

#[test]
fn status_adds_up_staged_and_unstaged_lines() {
    let statuses = vec![Status::WT_MODIFIED.bits(), Status::WT_NEW.bits()];
    assert_eq!(in_repo().get_git_status(&reading(Some(statuses))), (1, 0, 1, 123, 45));
    assert_eq!(in_repo().get_total_diff_stats(Some((1, 2)), Some((3, 4))), (4, 6));
}

#[test]
fn readings_that_failed_count_as_nothing() {
    assert_eq!(in_repo().get_git_status(&reading(None)), (0, 0, 0, 123, 45));
    assert_eq!(in_repo().get_total_diff_stats(None, Some((3, 4))), (3, 4));
    assert_eq!(in_repo().get_total_diff_stats(Some((1, 2)), None), (1, 2));
    assert_eq!(in_repo().get_total_diff_stats(None, None), (0, 0));
}

#[test]
fn no_repository_has_no_status() {
    let statuses = vec![Status::WT_MODIFIED.bits()];
    assert_eq!(outside_repo().get_git_status(&reading(Some(statuses))), (0, 0, 0, 0, 0));
    assert_eq!(outside_repo().get_total_diff_stats(Some((1, 2)), Some((3, 4))), (0, 0));
}

#[test]
fn counts_that_do_not_fit_are_found() {
    assert!(reading(None).can_be_counted());
    let many = GitReading { statuses: None, staged: Some((usize::MAX, 0)), unstaged: Some((1, 0)) };
    assert!(!many.can_be_counted());
    let many = GitReading { statuses: None, staged: Some((0, 1)), unstaged: Some((0, usize::MAX)) };
    assert!(!many.can_be_counted());
}

#[test]
fn short_hash_is_the_start_of_the_id() {
    let id: [u8; 20] = [
        0xa9, 0x4a, 0x6a, 0x6f, 0x01, 0, 0xff, 0x10, 0x9c, 3, 4, 5, 6, 7, 8, 9, 10, 11, 12, 13,
    ];
    let head = commit(id, Some("x"));
    assert_eq!(head.get_short_hash(), "a94a6a6");
    assert!(Oid::from_bytes(&id).unwrap().to_string().starts_with(&head.get_short_hash()));
}

#[test]
fn summary_is_the_first_line() {
    assert_eq!(commit([0; 20], Some("Add new feature\n\nLong text\n")).get_summary(), "Add new feature");
    assert_eq!(commit([0; 20], Some("")).get_summary(), "");
    assert_eq!(commit([0; 20], None).get_summary(), "");
}

#[test]
fn file_names_are_the_texts_of_the_paths() {
    let mut head = commit([0; 20], None);
    assert!(head.get_file_names().is_empty());
    head.files = vec!["src/\u{e9}.rs".as_bytes().to_vec(), b"a\xff".to_vec()];
    assert_eq!(head.get_file_names(), vec!["src/\u{e9}.rs", "a\u{fffd}"]);
}
