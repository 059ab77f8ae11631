use wat::events::Request;
use wat::git::{GitReading, HeadCommit};
use wat::model::{EventKind, Finding};
use wat::render::{bar_length_of, can_render, render, span_text_of, try_render, Frame};
use wat::state::{FileEvent, RepoReading, WatState};

const SECOND: u64 = 1_000_000_000;
const START: u64 = 3600 * SECOND;
const GIT: &str = "\x1b[1mGIT\x1b[0m  ";
const CHANGES: &str = "\x1b[1mCHANGES\x1b[0m\r\n";
const NOTHING: &str = "\x1b[1mCHANGES\x1b[0m\r\n\x1b[2mNothing\x1b[0m\r\n";
const FOOTER: &str = "\r\n\x1b[2mq to quit\x1b[0m";

/// What the world answers while an event is processed.
struct World {
    head: Option<[u8; 20]>,
    message: Option<String>,
    files: Vec<Vec<u8>>,
    ignored: Option<bool>,
    lines: Option<(usize, usize)>,
    clock: u64,
}

fn world(clock: u64) -> World {
    World { head: None, message: None, files: vec![], ignored: Some(false), lines: None, clock }
}

/// Processes an event, and gives back the requests that it came to.
fn process(state: &mut WatState, kind: EventKind, paths: &[&str], now: u64, w: &World) -> Vec<String> {
    let event = FileEvent { kind, paths: paths.iter().map(|p| p.as_bytes().to_vec()).collect() };
    let mut requests: Vec<String> = Vec::new();
    let mut run = state.process_event(event, now);
    loop {
        let finding = match run.request() {
            Request::Done => return requests,
            Request::Head => {
                requests.push("head".to_string());
                Finding::Head(w.head.map(|id| HeadCommit {
                    id,
                    message: w.message.clone(),
                    files: w.files.clone(),
                }))
            }
            Request::Ignored(path) => {
                requests.push(format!("ignored {}", String::from_utf8_lossy(path)));
                Finding::Ignored(w.ignored)
            }
            Request::Lines(path) => {
                requests.push(format!("lines {}", String::from_utf8_lossy(path)));
                Finding::Lines(w.lines)
            }
            Request::Clock => {
                requests.push("clock".to_string());
                Finding::Clock(w.clock)
            }
        };
        run = state.resume(run, finding);
    }
}

fn plain() -> WatState {
    WatState::new(b"/w".to_vec(), None, START)
}

fn in_repo() -> WatState {
    let repo = RepoReading { workdir: Some(b"/w/".to_vec()), head: None };
    WatState::new(b"/w/sub".to_vec(), Some(repo), START)
}

fn nothing_read() -> GitReading {
    GitReading { statuses: None, staged: None, unstaged: None }
}

fn frame(now: u64) -> Frame {
    Frame { now, clock: 14 * 3600 + 32 * 60 + 5, size: None, git: nothing_read() }
}

/// The screen, without its title and the rule.
fn below_header(state: &WatState, frame: &Frame) -> String {
    let text = render(state, frame);
    let end = text.match_indices("\r\n").nth(1).unwrap().0 + 2;
    text[end..].to_string()
}

/// The screen without its colors.
fn colorless(state: &WatState, frame: &Frame) -> String {
    let mut text = render(state, frame);
    while let Some(start) = text.find('\x1b') {
        let end = start + text[start..].find('m').unwrap();
        text.replace_range(start..=end, "");
    }
    text
}

/// The lines of the screen without its colors.
fn lines(state: &WatState, frame: &Frame) -> Vec<String> {
    colorless(state, frame).split("\r\n").map(|line| line.to_string()).collect()
}

#[test]
fn empty_screen_outside_a_repository() {
    let mut f = frame(START);
    f.size = Some((24, 24));
    let expected = " \x1b[1m\x1b[36mwat\x1b[0m \x1b[2m|\x1b[0m /w    \x1b[2m14:32:05\x1b[0m\r\n\
        \x1b[2m------------------------\x1b[0m\r\n\
        \x1b[1mGIT\x1b[0m  \x1b[2mnot a git repo\x1b[0m\r\n\
        \r\n\
        \x1b[1mCHANGES\x1b[0m\r\n\
        \x1b[2mNothing\x1b[0m\r\n\
        \r\n\x1b[2mq to quit\x1b[0m";
    assert_eq!(render(&plain(), &f), expected);
}

#[test]
fn a_whole_screen() {
    let mut commit = [0u8; 20];
    commit[..4].copy_from_slice(&[0xa9, 0x4a, 0x6a, 0x6f]);
    let repo = RepoReading { workdir: Some(b"/path/to/project".to_vec()), head: None };
    let mut state = WatState::new(b"/path/to/project".to_vec(), Some(repo), START);
    let mut w = world(START);
    w.head = Some(commit);
    w.message = Some("Add new feature\n".to_string());
    w.files = vec![b"src/main.rs".to_vec(), b"src/lib.rs".to_vec()];
    process(&mut state, EventKind::Create, &["/path/to/project/.git/HEAD"], START, &w);
    let now = START + 300 * SECOND;
    w.clock = now;
    w.lines = Some((45, 12));
    process(&mut state, EventKind::Modify, &["/path/to/project/src/main.rs"], now, &w);
    w.lines = Some((120, 0));
    process(&mut state, EventKind::Create, &["/path/to/project/src/new_file.rs"], now - 4 * SECOND, &w);
    let mut f = frame(now);
    f.size = Some((66, 30));
    f.git = GitReading {
        statuses: Some(vec![0x100, 0x200, 0x100, 0x1]),
        staged: Some((100, 40)),
        unstaged: Some((23, 5)),
    };
    let dashes = "-".repeat(66);
    let expected: Vec<&str> = vec![
        " wat | /path/to/project                                14:32:05",
        dashes.as_str(),
        "GIT  +123   -45     *3 +1",
        "",
        "COMMIT",
        "  a94a6a6    5m",
        "  Add new feature",
        "  src/main.rs, src/lib.rs",
        "",
        "CHANGES",
        "  ~ src/main.rs                              +45  -12  ++++++----",
        "  + src/new_file.rs                          +120 -0   ++++++++",
        "",
        "q to quit",
    ];
    assert_eq!(lines(&state, &f), expected);
}

#[test]
fn the_time_ends_the_title() {
    for width in [22, 40, 80, 200] {
        let mut f = frame(START);
        f.size = Some((width, 24));
        let shown = lines(&plain(), &f);
        assert!(shown[0].starts_with(" wat | /w  "));
        assert!(shown[0].ends_with("  14:32:05"));
        assert_eq!(shown[0].len() + 3, width as usize);
        assert_eq!(shown[1], "-".repeat(width as usize));
    }
    let mut f = frame(START);
    f.size = Some((3, 24));
    assert_eq!(lines(&plain(), &f)[0], " wat | /w  14:32:05");
    assert_eq!(lines(&plain(), &f)[1], "---");
    let state = WatState::new("/\u{e9}".as_bytes().to_vec(), None, START);
    f.size = Some((24, 24));
    assert_eq!(lines(&state, &f)[0], " wat | /\u{e9}    14:32:05");
}

#[test]
fn bars_grow_with_the_lines() {
    assert_eq!(bar_length_of(0), 0);
    assert_eq!(bar_length_of(1), 2);
    assert_eq!(bar_length_of(3), 2);
    assert_eq!(bar_length_of(4), 4);
    assert_eq!(bar_length_of(12), 4);
    assert_eq!(bar_length_of(15), 4);
    assert_eq!(bar_length_of(16), 6);
    assert_eq!(bar_length_of(45), 6);
    assert_eq!(bar_length_of(64), 8);
    assert_eq!(bar_length_of(120), 8);
    for n in 0..300 {
        assert!(bar_length_of(n) <= bar_length_of(n + 1));
    }
}

#[test]
fn time_spans_are_in_their_largest_unit() {
    for (seconds, text) in [
        (0, "0s"),
        (59, "59s"),
        (60, "1m"),
        (300, "5m"),
        (3599, "59m"),
        (3600, "1h"),
        (86399, "23h"),
        (86400, "1d"),
        (900000, "10d"),
    ] {
        assert_eq!(span_text_of(seconds), text);
    }
}

#[test]
fn clock_is_in_two_digits() {
    let mut early = frame(START);
    early.clock = 3600 + 2 * 60 + 3;
    assert!(render(&plain(), &early).contains("01:02:03"));
    early.clock = 86399;
    assert!(render(&plain(), &early).contains("23:59:59"));
    early.clock = 0;
    assert!(render(&plain(), &early).contains("00:00:00"));
}

#[test]
fn watched_directory_is_that_of_the_repository() {
    assert!(render(&in_repo(), &frame(START)).contains(" /w/  "));
    let bare = RepoReading { workdir: None, head: None };
    let state = WatState::new(b"/w/sub".to_vec(), Some(bare), START);
    assert!(render(&state, &frame(START)).contains(" /w/sub  "));
}

#[test]
fn directory_that_is_no_text_is_shown_with_replacements() {
    let state = WatState::new(b"/w\xff".to_vec(), None, START);
    assert!(render(&state, &frame(START)).contains(" /w\u{fffd}  "));
}

#[test]
fn clean_repository() {
    let mut f = frame(START);
    f.git = GitReading { statuses: Some(vec![]), staged: None, unstaged: Some((3, 4)) };
    assert_eq!(
        below_header(&in_repo(), &f),
        format!("{GIT}\x1b[2mclean\x1b[0m\r\n\r\n{NOTHING}{FOOTER}")
    );
}

#[test]
fn lines_then_counts_of_files() {
    let mut f = frame(START);
    f.git = GitReading {
        statuses: Some(vec![0x100, 0x200, 0x1, 0x80]),
        staged: Some((100, 40)),
        unstaged: Some((23, 5)),
    };
    assert_eq!(
        below_header(&in_repo(), &f),
        format!(
            "{GIT}\x1b[32m+123\x1b[0m   \x1b[31m-45\x1b[0m     \x1b[33m*2\x1b[0m \x1b[32m+1\x1b[0m \
             \x1b[2m?:1\x1b[0m\r\n\r\n{NOTHING}{FOOTER}"
        )
    );
    f.git = GitReading { statuses: Some(vec![0x80]), staged: None, unstaged: None };
    assert_eq!(
        below_header(&in_repo(), &f),
        format!("{GIT}\x1b[2m?:1\x1b[0m\r\n\r\n{NOTHING}{FOOTER}")
    );
    f.git = GitReading {
        statuses: Some(vec![0x1]),
        staged: Some((1234567, 12345678)),
        unstaged: None,
    };
    assert_eq!(lines(&in_repo(), &f)[2], "GIT  +1234567 -12345678 +1");
}

#[test]
fn changes_are_listed_in_path_order() {
    let mut state = plain();
    let w = world(START);
    process(&mut state, EventKind::Modify, &["/w/src/main.rs"], START, &w);
    process(&mut state, EventKind::Create, &["/w/a.txt", "/w/src-old/x"], START + 5 * SECOND, &w);
    process(&mut state, EventKind::Remove, &["/other/z"], START + 12 * SECOND, &world(START + 12 * SECOND));
    let status = format!("{GIT}\x1b[2mnot a git repo\x1b[0m\r\n\r\n");
    let expected = "  \x1b[31m-\x1b[0m /other/z\r\n\
        \x20 \x1b[32m+\x1b[0m a.txt\r\n\
        \x20 \x1b[33m~\x1b[0m src/main.rs\r\n\
        \x20 \x1b[32m+\x1b[0m src-old/x\r\n";
    assert_eq!(
        below_header(&state, &frame(START + 12 * SECOND)),
        format!("{status}{CHANGES}{expected}{FOOTER}")
    );
}

#[test]
fn a_file_has_one_row_with_its_latest_change() {
    let mut state = plain();
    let w = world(START);
    process(&mut state, EventKind::Create, &["/w//a"], START, &w);
    process(&mut state, EventKind::Modify, &["/w/a"], START + SECOND, &w);
    process(&mut state, EventKind::Remove, &["/w/./a"], START + SECOND, &w);
    let shown = lines(&state, &frame(START + SECOND));
    // Of two changes at the same time the first one stands.
    assert_eq!(shown[4..], ["CHANGES", "  ~ a", "", "q to quit"]);
}

#[test]
fn first_path_names_the_file() {
    let mut state = plain();
    process(&mut state, EventKind::Create, &["/w/a//b"], START, &world(START));
    process(&mut state, EventKind::Modify, &["/w/a/b"], START + SECOND, &world(START));
    let text = render(&state, &frame(START + SECOND));
    assert!(text.contains("\x1b[33m~\x1b[0m a//b\r\n"));
}

#[test]
fn order_does_not_follow_the_changes() {
    let w = world(START);
    let mut one = plain();
    process(&mut one, EventKind::Modify, &["/w/b", "/w/a"], START, &w);
    let mut two = plain();
    process(&mut two, EventKind::Modify, &["/w/a"], START, &w);
    process(&mut two, EventKind::Modify, &["/w/b", "/w/a", "/w/b"], START, &w);
    assert_eq!(render(&one, &frame(START)), render(&two, &frame(START)));
}

#[test]
fn at_most_twenty_files_are_listed() {
    let mut state = plain();
    let names: Vec<String> = (10..40).map(|i| format!("/w/f{i}")).collect();
    let paths: Vec<&str> = names.iter().map(|n| n.as_str()).collect();
    process(&mut state, EventKind::Create, &paths, START, &world(START));
    let mut f = frame(START);
    let text = render(&state, &f);
    assert!(text.contains(" f25\r\n  \x1b[2m... and 14 more\x1b[0m\r\n"));
    assert!(!text.contains("f26"));
    f.size = Some((80, 100));
    let text = render(&state, &f);
    assert!(text.contains(" f29\r\n  \x1b[2m... and 10 more\x1b[0m\r\n"));
    assert!(!text.contains("f30"));
    f.size = Some((80, 5));
    let text = render(&state, &f);
    assert!(!text.contains("f10"));
    assert!(text.contains("... and 30 more"));
}

#[test]
fn lines_of_files_are_shown() {
    let mut state = in_repo();
    let mut w = world(START);
    w.lines = Some((45, 12));
    let requests = process(&mut state, EventKind::Modify, &["/w/src//main.rs"], START, &w);
    assert_eq!(requests, vec!["ignored src//main.rs", "lines src//main.rs", "clock"]);
    w.lines = Some((0, 0));
    process(&mut state, EventKind::Modify, &["/w/none"], START, &w);
    w.lines = None;
    process(&mut state, EventKind::Modify, &["/w/failed"], START, &w);
    let mut f = frame(START);
    f.size = Some((39, 24));
    let text = render(&state, &f);
    assert!(text.contains(
        " src//main.rs  \x1b[32m+45\x1b[0m  \x1b[31m-12\x1b[0m  \x1b[32m++++++\x1b[0m\x1b[31m----\x1b[0m\r\n"
    ));
    assert!(text.contains(" none\r\n"));
    assert!(text.contains(" failed\r\n"));
}

#[test]
fn counts_that_fill_their_columns_keep_a_space() {
    let mut state = in_repo();
    let mut w = world(START);
    w.lines = Some((12345, 6789));
    process(&mut state, EventKind::Modify, &["/w/abcdefghij"], START, &w);
    let mut f = frame(START);
    f.size = Some((35, 24));
    assert_eq!(lines(&state, &f)[5], "  ~ abcdefghij +12345 -6789 ++++++++++++++--------------");
    assert_eq!(
        lines(&state, &frame(START))[5],
        format!("  ~ abcdefghij{}+12345 -6789 ++++++++++++++--------------", " ".repeat(45))
    );
}

#[test]
fn lines_are_kept_by_file() {
    let mut state = in_repo();
    let mut w = world(START);
    w.lines = Some((1, 2));
    process(&mut state, EventKind::Modify, &["/w/a//b"], START, &w);
    w.lines = Some((3, 0));
    process(&mut state, EventKind::Modify, &["/w/a/b/"], START, &w);
    let mut f = frame(START);
    f.size = Some((30, 24));
    assert_eq!(lines(&state, &f)[5], "  ~ a//b +3   -0   ++");
    w.lines = None;
    process(&mut state, EventKind::Modify, &["/w/a/b"], START, &w);
    assert_eq!(lines(&state, &f)[5], "  ~ a//b +3   -0   ++");
}

#[test]
fn ignored_files_count_for_their_directory() {
    let mut state = in_repo();
    let mut w = world(START);
    w.ignored = Some(true);
    let requests = process(&mut state, EventKind::Modify, &["/w/target/debug/x"], START, &w);
    assert_eq!(requests, vec!["ignored target/debug/x", "clock"]);
    process(&mut state, EventKind::Create, &["/w/node_modules/y"], START + SECOND, &w);
    process(&mut state, EventKind::Create, &["/w/out.log"], START, &w);
    process(&mut state, EventKind::Create, &["/w/"], START, &w);
    assert_eq!(
        below_header(&state, &frame(START + SECOND)),
        format!(
            "{GIT}\x1b[2mclean\x1b[0m\r\n\r\n{NOTHING}\
             \r\n\x1b[2mignored: node_modules/ target/ out.log/\x1b[0m\r\n{FOOTER}"
        )
    );
    process(&mut state, EventKind::Create, &["/w/target/z"], START + 2 * SECOND, &w);
    assert!(render(&state, &frame(START)).contains("ignored: target/ node_modules/ out.log/\x1b"));
}

#[test]
fn ignored_root_and_relative_path() {
    let state = in_repo();
    assert_eq!(state.get_ignored_root(b"/w/target/debug/x"), Some("target".to_string()));
    assert_eq!(state.get_ignored_root(b"/elsewhere/x"), Some("/".to_string()));
    assert_eq!(state.get_ignored_root(b"/w"), None);
    assert_eq!(state.get_ignored_root(b"/w/\xff/x"), Some("\u{fffd}".to_string()));
    assert_eq!(state.relative_path(b"/w//src/main.rs"), "src/main.rs");
    assert_eq!(state.relative_path(b"/elsewhere/x"), "/elsewhere/x");
    assert_eq!(state.relative_path(b"/w/a\xffb"), "a\u{fffd}b");
}

#[test]
fn a_repository_that_cannot_tell_ignores_nothing() {
    let mut state = in_repo();
    let mut w = world(START);
    w.ignored = None;
    let requests = process(&mut state, EventKind::Modify, &["/w/a"], START, &w);
    assert_eq!(requests, vec!["ignored a", "lines a", "clock"]);
    assert!(colorless(&state, &frame(START)).contains("  ~ a\r\n"));
}

#[test]
fn a_bare_repository_counts_no_lines() {
    let bare = RepoReading { workdir: None, head: None };
    let mut state = WatState::new(b"/w".to_vec(), Some(bare), START);
    let mut w = world(START);
    w.lines = Some((1, 1));
    let requests = process(&mut state, EventKind::Modify, &["/w/a"], START, &w);
    assert_eq!(requests, vec!["ignored a", "clock"]);
    assert!(colorless(&state, &frame(START)).contains("  ~ a\r\n"));
}

#[test]
fn no_repository_is_asked_nothing() {
    let mut state = plain();
    let requests = process(
        &mut state,
        EventKind::Modify,
        &["/w/a", "/w/.git/HEAD", "/w/.git/objects/12/34"],
        START,
        &world(START),
    );
    assert_eq!(requests, vec!["clock"]);
}

#[test]
fn events_that_are_no_changes_are_skipped() {
    for kind in [EventKind::Any, EventKind::Access, EventKind::Other] {
        let mut state = in_repo();
        let requests = process(&mut state, kind, &["/w/a"], START, &world(START));
        assert_eq!(requests, vec!["clock"]);
        assert!(render(&state, &frame(START)).contains("Nothing"));
    }
}

#[test]
fn git_activity_is_told_by_the_path() {
    for (path, activity, asks) in [
        ("/w/.git/index.lock", "staging", false),
        ("/w/.git/refs/heads/index.lock", "staging", false),
        ("/w/.git/COMMIT_EDITMSG", "committing", false),
        ("/w/.git/HEAD", "branch change", true),
        ("/w/.git/refs/heads/main", "branch change", true),
    ] {
        let mut state = in_repo();
        let requests = process(&mut state, EventKind::Access, &[path], START, &world(START));
        assert_eq!(requests.contains(&"head".to_string()), asks, "{path}");
        let text = render(&state, &frame(START + 4 * SECOND));
        assert!(text.contains(&format!("  \x1b[35m{activity}\x1b[0m\r\n")), "{path}");
        assert!(text.contains("Nothing"));
        let text = render(&state, &frame(START + 5 * SECOND));
        assert!(!text.contains(activity), "{path}");
    }
}

#[test]
fn other_git_paths_tell_nothing() {
    for (path, asks) in [
        ("/w/.git/objects/ab/cdef", true),
        ("/w/.git/config", false),
        ("/w/.gitignore", false),
        ("/w/.git/HEAD.lock", false),
    ] {
        let mut state = in_repo();
        let before = render(&state, &frame(START));
        let requests = process(&mut state, EventKind::Modify, &[path], START, &world(START));
        assert_eq!(requests.contains(&"head".to_string()), asks, "{path}");
        assert_eq!(render(&state, &frame(START)), before, "{path}");
    }
}

fn id(first: u8) -> [u8; 20] {
    let mut id = [0u8; 20];
    id[0] = first;
    id
}

#[test]
fn a_new_commit_stands_out_for_a_minute() {
    let mut state = in_repo();
    let mut w = world(START);
    w.head = Some(id(0xab));
    w.message = Some("Fix it\n\nbody".to_string());
    w.files = vec![b"a".to_vec()];
    process(&mut state, EventKind::Create, &["/w/.git/objects/ab/cd"], START, &w);
    let block = "\r\n\r\n\x1b[1mCOMMIT\x1b[0m\r\n\
        \x20 \x1b[2mab00000\x1b[0m    \x1b[32m59s\x1b[0m\r\n\
        \x20 Fix it\r\n\
        \x20 \x1b[2ma\x1b[0m\r\n\
        \r\n\
        \x1b[1mCHANGES\x1b[0m\r\n";
    assert!(render(&state, &frame(START + 60 * SECOND - 1)).contains(block));
    let line = "  \x1b[2mab00000\x1b[0m    \x1b[2m1m\x1b[0m\r\n";
    assert!(render(&state, &frame(START + 60 * SECOND)).contains(line));
}

#[test]
fn a_commit_is_noted_once() {
    let mut state = in_repo();
    let mut w = world(START);
    w.head = Some(id(0xab));
    w.message = Some("Fix it".to_string());
    process(&mut state, EventKind::Create, &["/w/.git/HEAD"], START, &w);
    process(&mut state, EventKind::Create, &["/w/.git/HEAD"], START + 10 * SECOND, &w);
    assert!(colorless(&state, &frame(START + 10 * SECOND)).contains("  ab00000    10s\r\n"));
    w.head = Some(id(0xac));
    process(&mut state, EventKind::Create, &["/w/.git/HEAD"], START + 20 * SECOND, &w);
    assert!(colorless(&state, &frame(START + 21 * SECOND)).contains("  ac00000    1s\r\n  Fix it\r\n"));
    w.head = None;
    process(&mut state, EventKind::Create, &["/w/.git/HEAD"], START + 30 * SECOND, &w);
    assert!(colorless(&state, &frame(START + 30 * SECOND)).contains("  ac00000    10s\r\n"));
}

#[test]
fn the_first_commit_has_no_age() {
    let head = HeadCommit { id: id(0x12), message: Some("First".to_string()), files: vec![] };
    let repo = RepoReading { workdir: Some(b"/w/".to_vec()), head: Some(head) };
    let mut state = WatState::new(b"/w".to_vec(), Some(repo), START);
    let block = "COMMIT\x1b[0m\r\n  \x1b[2m1200000\x1b[0m\r\n  First\r\n\r\n";
    assert!(render(&state, &frame(START)).contains(block));
    assert!(render(&state, &frame(START + 3600 * SECOND)).contains(block));
    // Reading it again changes nothing, and a commit after it has an age.
    let mut w = world(START);
    w.head = Some(id(0x12));
    w.message = Some("First".to_string());
    process(&mut state, EventKind::Create, &["/w/.git/objects/12/00"], START + SECOND, &w);
    assert!(render(&state, &frame(START + SECOND)).contains(block));
    w.head = Some(id(0x13));
    process(&mut state, EventKind::Create, &["/w/.git/objects/13/00"], START + SECOND, &w);
    assert!(colorless(&state, &frame(START + SECOND)).contains("  1300000    0s\r\n"));
}

#[test]
fn a_commit_can_be_noted_directly() {
    let mut state = in_repo();
    let head = Some(HeadCommit { id: id(0x34), message: None, files: vec![] });
    state.update_last_commit(&head, START);
    assert!(colorless(&state, &frame(START)).contains("COMMIT\r\n  3400000    0s\r\n  \r\n\r\nCHANGES"));
    let mut outside = plain();
    outside.update_last_commit(&head, START);
    assert!(!render(&outside, &frame(START)).contains("COMMIT"));
}

#[test]
fn files_of_a_commit_are_shortened_between_characters() {
    let mut state = in_repo();
    let files = vec!["\u{e9}\u{e9}\u{e9}".as_bytes().to_vec(), b"b\xff".to_vec()];
    let head = Some(HeadCommit { id: id(1), message: None, files });
    state.update_last_commit(&head, START);
    let mut f = frame(START);
    assert!(colorless(&state, &f).contains("\r\n  \u{e9}\u{e9}\u{e9}, b\u{fffd}\r\n"));
    f.size = Some((37, 24));
    assert!(colorless(&state, &f).contains("\r\n  \u{e9}\u{e9}\u{e9}, b\u{fffd}\r\n"));
    f.size = Some((34, 24));
    assert!(colorless(&state, &f).contains("\r\n  \u{e9}\u{e9}\u{e9}...\r\n"));
    f.size = Some((33, 24));
    assert!(colorless(&state, &f).contains("\r\n  \u{e9}\u{e9}...\r\n"));
    f.size = Some((26, 24));
    assert!(colorless(&state, &f).contains("\r\n  ...\r\n"));
}

#[test]
fn long_texts_are_shortened() {
    let mut state = in_repo();
    let mut w = world(START);
    w.head = Some(id(1));
    w.message = Some("abcdefghijklmnopqrstuvwxyz".to_string());
    process(&mut state, EventKind::Modify, &["/w/.git/HEAD", "/w/src/abcdefghij.rs"], START, &w);
    let mut f = frame(START);
    f.size = Some((35, 24));
    let text = colorless(&state, &f);
    assert!(text.contains("\r\n  abcdefg...\r\n"));
    assert!(text.contains("\r\n  ~ ...ghij.rs\r\n"));
    f.size = Some((51, 24));
    let text = colorless(&state, &f);
    assert!(text.contains("\r\n  abcdefghijklmnopqrstuvwxyz\r\n"));
    assert!(text.contains("\r\n  ~ src/abcdefghij.rs\r\n"));
}

#[test]
fn a_screen_that_cannot_be_drawn_is_none() {
    let mut state = in_repo();
    process(&mut state, EventKind::Modify, &["/w/abcdef"], START, &world(START));
    let mut f = frame(START);
    assert!(can_render(&state, &f));
    assert_eq!(try_render(&state, &f), Some(render(&state, &f)));
    f.size = Some((27, 24));
    assert_eq!(try_render(&state, &f), None);
    f.size = Some((28, 24));
    assert!(try_render(&state, &f).unwrap().contains(" ...\r\n"));
    f.size = Some((27, 8));
    assert!(try_render(&state, &f).is_some());
    f.size = None;
    f.clock = 86400;
    assert_eq!(try_render(&state, &f), None);
    f.clock = 0;
    f.git = GitReading { statuses: None, staged: Some((usize::MAX, 0)), unstaged: Some((1, 0)) };
    assert_eq!(try_render(&state, &f), None);
    assert!(try_render(&plain(), &f).is_some());
}

#[test]
fn a_message_is_not_cut_inside_a_character() {
    let mut state = in_repo();
    let head = Some(HeadCommit { id: id(1), message: Some("aéaaa".to_string()), files: vec![] });
    state.update_last_commit(&head, START);
    let mut f = frame(START);
    f.size = Some((30, 24));
    assert_eq!(try_render(&state, &f), None);
    f.size = Some((29, 24));
    assert!(try_render(&state, &f).unwrap().contains(" a...\r\n"));
}

#[test]
fn old_things_are_forgotten() {
    let mut state = in_repo();
    let mut w = world(START);
    w.lines = Some((5, 6));
    process(&mut state, EventKind::Modify, &["/w/a"], START, &w);
    w.ignored = Some(true);
    process(&mut state, EventKind::Modify, &["/w/target/x"], START, &w);
    let text = colorless(&state, &frame(START));
    assert!(text.contains("+5   -6   ++++----"));
    assert!(text.contains("target/"));

    state.forget_old(START + 10 * SECOND - 1);
    assert!(render(&state, &frame(START)).contains("target/"));
    state.forget_old(START + 10 * SECOND);
    assert!(!render(&state, &frame(START)).contains("target/"));

    state.forget_old(START + 30 * SECOND - 1);
    assert!(render(&state, &frame(START)).contains("\x1b[32m+5"));
    state.forget_old(START + 30 * SECOND);
    assert!(render(&state, &frame(START)).contains("Nothing"));
}

#[test]
fn line_counts_outlive_the_list() {
    let mut w = world(START);
    w.lines = Some((5, 6));
    for (now, kept) in [(START + 60 * SECOND - 1, true), (START + 60 * SECOND, false)] {
        let mut state = in_repo();
        process(&mut state, EventKind::Modify, &["/w/a"], START, &w);
        state.forget_old(now);
        let mut later = world(now);
        later.lines = None;
        process(&mut state, EventKind::Modify, &["/w/a"], now, &later);
        assert_eq!(render(&state, &frame(now)).contains("\x1b[32m+5"), kept);
    }
}

#[test]
fn events_forget_old_things_at_their_end() {
    let mut state = plain();
    process(&mut state, EventKind::Modify, &["/w/a"], START, &world(START));
    process(&mut state, EventKind::Access, &[], START + 31 * SECOND, &world(START + 31 * SECOND));
    assert!(render(&state, &frame(START)).contains("Nothing"));
    // An event that took too long to process is forgotten at once.
    process(&mut state, EventKind::Modify, &["/w/a"], START, &world(START + 30 * SECOND));
    assert!(render(&state, &frame(START)).contains("Nothing"));
}

#[test]
fn a_clock_that_goes_back_makes_nothing_old() {
    let mut state = plain();
    process(&mut state, EventKind::Modify, &["/w/a"], START, &world(START));
    state.forget_old(0);
    assert!(render(&state, &frame(0)).contains(" a\r\n"));
}

#[test]
fn a_finding_that_answers_nothing_changes_nothing() {
    let mut state = in_repo();
    let event = FileEvent { kind: EventKind::Modify, paths: vec![b"/w/a".to_vec()] };
    let run = state.process_event(event, START);
    assert!(matches!(run.request(), Request::Ignored(_)));
    let run = state.resume(run, Finding::Clock(START));
    assert!(matches!(run.request(), Request::Ignored(_)));
    let run = state.resume(run, Finding::Lines(Some((1, 1))));
    assert!(matches!(run.request(), Request::Ignored(_)));
    let run = state.resume(run, Finding::Ignored(Some(false)));
    assert!(matches!(run.request(), Request::Lines(_)));
    let run = state.resume(run, Finding::Head(None));
    assert!(matches!(run.request(), Request::Lines(_)));
    let run = state.resume(run, Finding::Lines(None));
    assert!(matches!(run.request(), Request::Clock));
    let run = state.resume(run, Finding::Clock(START));
    assert!(matches!(run.request(), Request::Done));
    let run = state.resume(run, Finding::Clock(u64::MAX));
    assert!(matches!(run.request(), Request::Done));
    assert!(colorless(&state, &frame(START)).contains("  ~ a\r\n"));
}

#[test]
fn paths_of_one_event_are_taken_in_turn() {
    let mut state = in_repo();
    let mut w = world(START);
    w.lines = Some((1, 0));
    let requests = process(
        &mut state,
        EventKind::Create,
        &["/w/a", "/w/.git/index.lock", "/w/.git/HEAD", "/w/b"],
        START,
        &w,
    );
    assert_eq!(requests, vec!["ignored a", "lines a", "head", "ignored b", "lines b", "clock"]);
    let mut f = frame(START);
    f.size = Some((27, 24));
    let text = colorless(&state, &f);
    assert!(text.contains("branch change"));
    assert!(text.contains(" a +1   -0   ++\r\n"));
    assert!(text.contains(" b +1   -0   ++\r\n"));
}

#[test]
fn ordinary_files_are_no_git_activity() {
    let mut state = in_repo();
    let mut w = world(START);
    w.head = Some(id(1));
    process(&mut state, EventKind::Modify, &["/w/index.lock", "/w/refs/heads"], START, &w);
    let text = render(&state, &frame(START));
    assert!(text.contains(" index.lock\r\n"));
    assert!(!text.contains("staging"));
    assert!(!text.contains("branch change"));
    assert!(!text.contains("COMMIT"));
}

#[test]
fn forgetting_in_two_steps_is_forgetting_once() {
    let mut one = plain();
    let mut two = plain();
    for state in [&mut one, &mut two] {
        process(state, EventKind::Modify, &["/w/a"], START, &world(START));
        process(state, EventKind::Modify, &["/w/b"], START + 5 * SECOND, &world(START));
    }
    one.forget_old(START + 31 * SECOND);
    two.forget_old(START + 30 * SECOND);
    two.forget_old(START + 31 * SECOND);
    let text = render(&one, &frame(START + 31 * SECOND));
    assert_eq!(text, render(&two, &frame(START + 31 * SECOND)));
    assert!(text.contains(" b\r\n"));
    assert!(!text.contains(" a\r\n"));
}

#[test]
fn without_a_repository_readings_do_not_show() {
    let mut read = frame(START);
    read.git = GitReading { statuses: Some(vec![0x100]), staged: Some((1, 1)), unstaged: None };
    assert_eq!(render(&plain(), &read), render(&plain(), &frame(START)));
}

#[test]
fn joined_paths_are_asked_about_alike() {
    for path in ["src/main.rs", "a", "..", "a//b/./c/"] {
        let joined = format!("/w/{path}");
        let mut asked: Vec<Vec<String>> = Vec::new();
        for reported in [path, joined.as_str()] {
            let mut state = in_repo();
            let requests = process(&mut state, EventKind::Modify, &[reported], START, &world(START));
            assert_eq!(requests.len(), 3);
            asked.push(
                requests[..2]
                    .iter()
                    .map(|r| r.trim_end_matches('/').to_string())
                    .collect(),
            );
        }
        assert_eq!(asked[0], asked[1]);
        assert_eq!(asked[0][0], format!("ignored {}", path.trim_end_matches('/')));
        assert_eq!(asked[0][1], format!("lines {}", path.trim_end_matches('/')));
    }
    // A leading dot is dropped behind a directory, and kept alone.
    let mut state = in_repo();
    assert_eq!(
        process(&mut state, EventKind::Modify, &["./a", "/w/./a"], START, &world(START)),
        vec!["ignored ./a", "lines ./a", "ignored a", "lines a", "clock"]
    );
}
