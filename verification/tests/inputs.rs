use crossterm::event::KeyModifiers;
use wat::input::{is_quit, next_step, KeyPress, Outcome, Step};
use wat::model::EventKind;
use wat::state::FileEvent;

fn key(c: char, modifiers: KeyModifiers) -> KeyPress {
    KeyPress { character: Some(c), modifiers: modifiers.bits() }
}

#[test]
fn q_quits() {
    assert!(is_quit(key('q', KeyModifiers::NONE)));
    assert!(is_quit(key('q', KeyModifiers::CONTROL | KeyModifiers::ALT)));
    assert_eq!(next_step(Outcome::Key(key('q', KeyModifiers::NONE)), 500), Step::Quit);
}

#[test]
fn control_c_quits() {
    assert!(is_quit(key('c', KeyModifiers::CONTROL)));
    assert!(is_quit(key('c', KeyModifiers::CONTROL | KeyModifiers::SHIFT)));
    assert_eq!(next_step(Outcome::Key(key('c', KeyModifiers::CONTROL)), 500), Step::Quit);
}

#[test]
fn other_keys_do_not_quit() {
    assert!(!is_quit(key('c', KeyModifiers::NONE)));
    assert!(!is_quit(key('c', KeyModifiers::SHIFT | KeyModifiers::ALT)));
    assert!(!is_quit(key('Q', KeyModifiers::NONE)));
    assert!(!is_quit(key('x', KeyModifiers::CONTROL)));
    let escape = KeyPress { character: None, modifiers: KeyModifiers::CONTROL.bits() };
    assert!(!is_quit(escape));
    assert_eq!(next_step(Outcome::Key(escape), 500), Step::Receive);
}

fn event(path: &str) -> FileEvent {
    FileEvent { kind: EventKind::Modify, paths: vec![path.as_bytes().to_vec()] }
}

#[test]
fn the_loop_goes_round() {
    assert_eq!(next_step(Outcome::Event(event("a")), 500), Step::Process(event("a")));
    assert_eq!(next_step(Outcome::Processed, 500), Step::Receive);
    assert_eq!(next_step(Outcome::Failed, 500), Step::Receive);
    assert_eq!(next_step(Outcome::NoneLeft, 500), Step::Draw);
    assert_eq!(next_step(Outcome::Closed, 500), Step::Draw);
    assert_eq!(next_step(Outcome::Drawn, 500), Step::Wait(500));
    assert_eq!(next_step(Outcome::Drawn, 20), Step::Wait(20));
    assert_eq!(next_step(Outcome::Quiet, 500), Step::Receive);
    assert_eq!(next_step(Outcome::Ready, 500), Step::Read);
    assert_eq!(next_step(Outcome::OtherInput, 500), Step::Receive);
}

/// Runs the loop on what is reported before each screen and on the keys that are pressed
/// after it, and writes down what it does.
fn run(mut reports: Vec<Vec<Option<&str>>>, mut keys: Vec<Option<char>>) -> Vec<String> {
    let mut done: Vec<String> = Vec::new();
    let mut step = Step::Receive;
    loop {
        let outcome = match step {
            Step::Receive => match reports.first_mut() {
                None => Outcome::Closed,
                Some(items) if items.is_empty() => Outcome::NoneLeft,
                Some(items) => match items.remove(0) {
                    Some(path) => Outcome::Event(event(path)),
                    None => Outcome::Failed,
                },
            },
            Step::Process(event) => {
                done.push(String::from_utf8_lossy(&event.paths[0]).to_string());
                Outcome::Processed
            }
            Step::Draw => {
                done.push("draw".to_string());
                Outcome::Drawn
            }
            Step::Wait(millis) => {
                done.push(format!("wait {millis}"));
                if !reports.is_empty() {
                    reports.remove(0);
                }
                if keys[0].is_some() {
                    Outcome::Ready
                } else {
                    keys.remove(0);
                    Outcome::Quiet
                }
            }
            Step::Read => Outcome::Key(key(keys.remove(0).unwrap(), KeyModifiers::NONE)),
            Step::Quit => return done,
        };
        step = next_step(outcome, 250);
    }
}

#[test]
fn events_are_processed_before_the_screen() {
    assert_eq!(
        run(vec![vec![Some("a"), None, Some("b"), Some("a")], vec![], vec![Some("c")]], vec![
            None,
            Some('x'),
            Some('q'),
        ]),
        vec!["a", "b", "a", "draw", "wait 250", "draw", "wait 250", "c", "draw", "wait 250"]
    );
}

#[test]
fn a_closed_watcher_does_not_end_the_loop() {
    assert_eq!(
        run(vec![vec![None]], vec![None, None, Some('q')]),
        vec!["draw", "wait 250", "draw", "wait 250", "draw", "wait 250"]
    );
}
