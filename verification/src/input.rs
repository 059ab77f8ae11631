//! The main loop's decisions: what to do next after each outcome, and which keys quit.

use crate::state::FileEvent;
use vstd::prelude::*;

verus! {

/// The bit of the control key among the modifiers of a key press.
pub const CONTROL: u8 = 0x2;

/// A key press.
#[derive(Clone, Copy, Debug, PartialEq, Eq)]
pub struct KeyPress {
    /// The character of the key, `None` for a key without one.
    pub character: Option<char>,
    /// The bits of the modifiers that were held.
    pub modifiers: u8,
}

/// `crossterm::event::KeyModifiers::contains` of the control modifier: whether its bit is
/// among these.
#[verifier::external_body]
fn holds_control(modifiers: u8) -> (held: bool)
    ensures
        held == (modifiers & CONTROL == CONTROL),
{
    crossterm::event::KeyModifiers::from_bits_truncate(modifiers).contains(
        crossterm::event::KeyModifiers::CONTROL,
    )
}

/// Whether a key press quits: `q`, or `c` with control.
pub open spec fn quits(key: KeyPress) -> bool {
    ||| key.character == Some('q')
    ||| key.character == Some('c') && key.modifiers & CONTROL == CONTROL
}

/// Whether a key press quits.
pub fn is_quit(key: KeyPress) -> (r: bool)
    ensures
        r == quits(key),
{
    match key.character {
        Some(c) => c == 'q' || (c == 'c' && holds_control(key.modifiers)),
        None => false,
    }
}

/// What the main loop does next.
#[derive(Debug, PartialEq, Eq)]
pub enum Step {
    /// Look for something that the file watcher reported.
    Receive,
    /// Process an event.
    Process(FileEvent),
    /// Draw the screen.
    Draw,
    /// Wait for input, at most this many milliseconds.
    Wait(u64),
    /// Read the input that is there.
    Read,
    /// Leave the loop.
    Quit,
}

/// What came of a step.
#[derive(Debug, PartialEq, Eq)]
pub enum Outcome {
    /// The watcher had reported an event.
    Event(FileEvent),
    /// The watcher had reported an error.
    Failed,
    /// Nothing that was reported is left.
    NoneLeft,
    /// Nothing that was reported is left, and nothing will be reported any more.
    Closed,
    /// The event was processed.
    Processed,
    /// The screen was drawn.
    Drawn,
    /// No input came.
    Quiet,
    /// There is input.
    Ready,
    /// The input was a key press.
    Key(KeyPress),
    /// The input was something else.
    OtherInput,
}

/// The step after an outcome, with the refresh interval in milliseconds: all that was
/// reported is taken before the screen is drawn, each screen is followed by a wait, and
/// only a key that quits ends the loop.
pub open spec fn step_after(outcome: Outcome, interval: u64) -> Step {
    match outcome {
        Outcome::Event(event) => Step::Process(event),
        Outcome::Failed => Step::Receive,
        Outcome::NoneLeft => Step::Draw,
        Outcome::Closed => Step::Draw,
        Outcome::Processed => Step::Receive,
        Outcome::Drawn => Step::Wait(interval),
        Outcome::Quiet => Step::Receive,
        Outcome::Ready => Step::Read,
        Outcome::Key(key) => if quits(key) {
            Step::Quit
        } else {
            Step::Receive
        },
        Outcome::OtherInput => Step::Receive,
    }
}

/// Decides what to do after an outcome.
pub fn next_step(outcome: Outcome, interval: u64) -> (step: Step)
    ensures
        step == step_after(outcome, interval),
{
    match outcome {
        Outcome::Event(event) => Step::Process(event),
        Outcome::Failed => Step::Receive,
        Outcome::NoneLeft => Step::Draw,
        Outcome::Closed => Step::Draw,
        Outcome::Processed => Step::Receive,
        Outcome::Drawn => Step::Wait(interval),
        Outcome::Quiet => Step::Receive,
        Outcome::Ready => Step::Read,
        Outcome::Key(key) => if is_quit(key) {
            Step::Quit
        } else {
            Step::Receive
        },
        Outcome::OtherInput => Step::Receive,
    }
}

/// Whether a step can come to an outcome.
pub open spec fn can_come_to(step: Step, outcome: Outcome) -> bool {
    match step {
        Step::Receive => outcome is Event || outcome is Failed || outcome is NoneLeft || outcome
            is Closed,
        Step::Process(_) => outcome is Processed,
        Step::Draw => outcome is Drawn,
        Step::Wait(_) => outcome is Quiet || outcome is Ready,
        Step::Read => outcome is Key || outcome is OtherInput,
        Step::Quit => false,
    }
}

/// Step number `k` of the loop whose steps came to `outcomes`. The first one is to receive.
pub open spec fn step_at(outcomes: Seq<Outcome>, interval: u64, k: int) -> Step {
    if k <= 0 {
        Step::Receive
    } else {
        step_after(outcomes[k - 1], interval)
    }
}

/// Whether the steps of the loop can come to `outcomes`.
pub open spec fn is_run(outcomes: Seq<Outcome>, interval: u64) -> bool {
    forall|k: int|
        0 <= k < outcomes.len() ==> can_come_to(
            #[trigger] step_at(outcomes, interval, k),
            outcomes[k],
        )
}

/// The events among the first `n` outcomes, in order.
pub open spec fn events_received(outcomes: Seq<Outcome>, n: int) -> Seq<FileEvent>
    decreases n,
{
    if n <= 0 {
        Seq::empty()
    } else {
        let before = events_received(outcomes, n - 1);
        match outcomes[n - 1] {
            Outcome::Event(event) => before.push(event),
            _ => before,
        }
    }
}

/// The events that are processed in the first `n` steps, in order.
pub open spec fn events_processed(outcomes: Seq<Outcome>, interval: u64, n: int) -> Seq<FileEvent>
    decreases n,
{
    if n <= 0 {
        Seq::empty()
    } else {
        let before = events_processed(outcomes, interval, n - 1);
        match step_at(outcomes, interval, n - 1) {
            Step::Process(event) => before.push(event),
            _ => before,
        }
    }
}

/// Pressing `q` quits, whatever else is held, and nothing but a key press does.
pub proof fn law_q_quits(outcome: Outcome, modifiers: u8, interval: u64)
    ensures
        step_after(Outcome::Key(KeyPress { character: Some('q'), modifiers }), interval)
            == Step::Quit,
        step_after(outcome, interval) is Quit ==> outcome is Key,
{
}

proof fn lemma_processed_next(outcomes: Seq<Outcome>, interval: u64, n: int)
    requires
        0 <= n,
    ensures
        events_processed(outcomes, interval, n + 1) == events_received(outcomes, n),
    decreases n,
{
    if n == 0 {
        assert(events_processed(outcomes, interval, 0) =~= Seq::empty());
    } else {
        lemma_processed_next(outcomes, interval, n - 1);
    }
}

/// Whenever the screen is drawn, the events that were processed before it are exactly those
/// that were received before it, each once and in order, and the watcher had just been
/// found to have nothing left.
pub proof fn law_events_are_processed_before_the_screen(
    outcomes: Seq<Outcome>,
    interval: u64,
    draw: int,
)
    requires
        0 <= draw <= outcomes.len(),
        step_at(outcomes, interval, draw) is Draw,
    ensures
        events_processed(outcomes, interval, draw) == events_received(outcomes, draw),
        outcomes[draw - 1] is NoneLeft || outcomes[draw - 1] is Closed,
{
    lemma_processed_next(outcomes, interval, draw - 1);
}

/// What taking the reported items comes to, one after the other: a step for an error, two
/// for an event.
pub open spec fn taken(items: Seq<Option<FileEvent>>) -> Seq<Outcome>
    decreases items.len(),
{
    if items.len() == 0 {
        Seq::empty()
    } else {
        let before = taken(items.drop_last());
        match items.last() {
            Some(event) => before.push(Outcome::Event(event)).push(Outcome::Processed),
            None => before.push(Outcome::Failed),
        }
    }
}

/// The events among the reported items, in order.
pub open spec fn events_of(items: Seq<Option<FileEvent>>) -> Seq<FileEvent>
    decreases items.len(),
{
    if items.len() == 0 {
        Seq::empty()
    } else {
        let before = events_of(items.drop_last());
        match items.last() {
            Some(event) => before.push(event),
            None => before,
        }
    }
}

proof fn lemma_received_of_prefix(outcomes: Seq<Outcome>, whole: Seq<Outcome>, n: int)
    requires
        n <= outcomes.len() <= whole.len(),
        forall|k: int| 0 <= k < outcomes.len() ==> outcomes[k] == whole[k],
    ensures
        events_received(outcomes, n) == events_received(whole, n),
    decreases n,
{
    if n > 0 {
        lemma_received_of_prefix(outcomes, whole, n - 1);
    }
}

proof fn lemma_taken(items: Seq<Option<FileEvent>>, interval: u64)
    ensures
        is_run(taken(items), interval),
        step_at(taken(items), interval, taken(items).len() as int) is Receive,
        events_received(taken(items), taken(items).len() as int) == events_of(items),
        forall|k: int|
            0 <= k <= taken(items).len() ==> {
                let step = #[trigger] step_at(taken(items), interval, k);
                step is Receive || step is Process
            },
    decreases items.len(),
{
    if items.len() > 0 {
        let some = taken(items.drop_last());
        let all = taken(items);
        let n = some.len() as int;
        lemma_taken(items.drop_last(), interval);
        assert forall|k: int| 0 <= k <= n implies #[trigger] step_at(all, interval, k) == step_at(
            some,
            interval,
            k,
        ) by {}
        assert(step_at(all, interval, n) is Receive);
        assert forall|k: int| 0 <= k < all.len() implies can_come_to(
            #[trigger] step_at(all, interval, k),
            all[k],
        ) by {
            if k < n {
                assert(can_come_to(step_at(some, interval, k), some[k]));
            }
        }
        assert forall|k: int| 0 <= k <= all.len() implies {
            let step = #[trigger] step_at(all, interval, k);
            step is Receive || step is Process
        } by {
            if k <= n {
                let step = step_at(some, interval, k);
                assert(step is Receive || step is Process);
            }
        }
        lemma_received_of_prefix(some, all, n);
        reveal_with_fuel(events_received, 3);
    }
}

/// Whatever the watcher has reported, the loop takes it all and then draws the screen: the
/// events are processed, each once and in order, errors are dropped, and neither an error
/// nor the end of all reports ends the loop.
pub proof fn law_all_reports_are_taken(
    items: Seq<Option<FileEvent>>,
    last: Outcome,
    interval: u64,
)
    requires
        last is NoneLeft || last is Closed,
    ensures
        ({
            let outcomes = taken(items).push(last);
            let draw = outcomes.len() as int;
            &&& is_run(outcomes, interval)
            &&& step_at(outcomes, interval, draw) is Draw
            &&& events_processed(outcomes, interval, draw) == events_of(items)
            &&& forall|k: int|
                0 <= k < draw ==> {
                    let step = #[trigger] step_at(outcomes, interval, k);
                    step is Receive || step is Process
                }
        }),
{
    let some = taken(items);
    let outcomes = some.push(last);
    let n = some.len() as int;
    lemma_taken(items, interval);
    assert forall|k: int| 0 <= k <= n implies #[trigger] step_at(outcomes, interval, k) == step_at(
        some,
        interval,
        k,
    ) by {}
    assert forall|k: int| 0 <= k < outcomes.len() implies can_come_to(
        #[trigger] step_at(outcomes, interval, k),
        outcomes[k],
    ) by {
        if k < n {
            assert(can_come_to(step_at(some, interval, k), some[k]));
        }
    }
    lemma_received_of_prefix(some, outcomes, n);
    law_events_are_processed_before_the_screen(outcomes, interval, n + 1);
}

/// Each screen is followed by one wait, of the refresh interval, and there is no other wait
/// before the next screen.
pub proof fn law_one_wait_for_each_screen(
    outcomes: Seq<Outcome>,
    interval: u64,
    first: int,
    second: int,
)
    requires
        is_run(outcomes, interval),
        0 <= first < second <= outcomes.len(),
        step_at(outcomes, interval, first) is Draw,
        forall|k: int|
            first < k < second ==> !(#[trigger] step_at(outcomes, interval, k) is Draw),
    ensures
        step_at(outcomes, interval, first + 1) == Step::Wait(interval),
        forall|k: int|
            first + 1 < k <= second ==> !(#[trigger] step_at(outcomes, interval, k) is Wait),
{
    assert(can_come_to(step_at(outcomes, interval, first), outcomes[first]));
    assert forall|k: int| first + 1 < k <= second implies !(#[trigger] step_at(
        outcomes,
        interval,
        k,
    ) is Wait) by {
        let j = k - 1;
        assert(can_come_to(step_at(outcomes, interval, j), outcomes[j]));
        if j < second {
            assert(!(step_at(outcomes, interval, j) is Draw));
        }
    }
}

/// After a wait the loop goes on with the next reports, at once if no input came and after
/// reading it otherwise, unless the input is a key that quits. Nothing comes after that.
pub proof fn law_only_a_key_ends_the_loop(outcomes: Seq<Outcome>, interval: u64, wait: int)
    requires
        is_run(outcomes, interval),
        0 <= wait < outcomes.len(),
        step_at(outcomes, interval, wait) is Wait,
    ensures
        outcomes[wait] is Quiet ==> step_at(outcomes, interval, wait + 1) is Receive,
        outcomes[wait] is Ready ==> step_at(outcomes, interval, wait + 1) is Read,
        outcomes[wait] is Ready && wait + 1 < outcomes.len() ==> (match outcomes[wait + 1] {
            Outcome::Key(key) => if quits(key) {
                step_at(outcomes, interval, wait + 2) is Quit && wait + 2 == outcomes.len()
            } else {
                step_at(outcomes, interval, wait + 2) is Receive
            },
            _ => step_at(outcomes, interval, wait + 2) is Receive,
        }),
{
    assert(can_come_to(step_at(outcomes, interval, wait), outcomes[wait]));
    if wait + 1 < outcomes.len() {
        let next = wait + 1;
        assert(can_come_to(step_at(outcomes, interval, next), outcomes[next]));
        if next + 1 < outcomes.len() {
            let last = next + 1;
            assert(can_come_to(step_at(outcomes, interval, last), outcomes[last]));
        }
    }
}

/// A key press quits exactly where it is `q`, or `c` with the control bit among its
/// modifiers: the second lowest. No other key does, whatever is held with it.
pub proof fn law_quitting_keys(key: KeyPress, interval: u64)
    ensures
        step_after(Outcome::Key(key), interval) is Quit <==> quits(key),
        quits(key) <==> (match key.character {
            Some('q') => true,
            Some('c') => (key.modifiers as int / 2) % 2 == 1,
            _ => false,
        }),
        !(step_after(Outcome::Key(key), interval) is Quit) ==> step_after(
            Outcome::Key(key),
            interval,
        ) is Receive,
{
    let bits = key.modifiers;
    assert((bits & 0x2 == 0x2) == ((bits / 2) % 2 == 1)) by (bit_vector);
}

/// What was reported is taken item by item until nothing is left, and the screen is drawn
/// then; each screen is followed by a wait as long as the interval, and each wait by the next
/// reports, after the input is read if there is any.
pub proof fn law_round_of_the_loop(event: FileEvent, interval: u64)
    ensures
        step_after(Outcome::Event(event), interval) == Step::Process(event),
        step_after(Outcome::Processed, interval) is Receive,
        step_after(Outcome::Failed, interval) is Receive,
        step_after(Outcome::NoneLeft, interval) is Draw,
        step_after(Outcome::Closed, interval) is Draw,
        step_after(Outcome::Drawn, interval) == Step::Wait(interval),
        step_after(Outcome::Quiet, interval) is Receive,
        step_after(Outcome::Ready, interval) is Read,
        step_after(Outcome::OtherInput, interval) is Receive,
{
}

} // verus!
