//! Processing a reported event.
//!
//! Some of what an event means has to be asked of the repository or of the clock.
//! Processing therefore goes in turns: it stops with a request, and goes on with what
//! was found out.

use crate::model::{ChangeType, EventKind, Finding, Query, Run};
use crate::path::relative;
use crate::state::{FileEvent, WatState};
use crate::text::{contains, path_text};
use vstd::prelude::*;

verus! {

/// What has to be found out before an event can be processed further.
pub enum Request {
    /// The commit at the head of the repository.
    Head,
    /// Whether the repository ignores the path.
    Ignored(Vec<u8>),
    /// The lines added and deleted in the path, between the index and the working tree.
    Lines(Vec<u8>),
    /// The time.
    Clock,
    /// Nothing: the event is processed.
    Done,
}

impl View for Request {
    type V = Query;

    open spec fn view(&self) -> Query {
        match *self {
            Request::Head => Query::Head,
            Request::Ignored(path) => Query::Ignored(path@),
            Request::Lines(path) => Query::Lines(path@),
            Request::Clock => Query::Clock,
            Request::Done => Query::Done,
        }
    }
}

/// A request asks what it is called, and about the path that it holds.
pub proof fn law_requests(path: Vec<u8>)
    ensures
        Request::Head@ is Head,
        Request::Ignored(path)@ == Query::Ignored(path@),
        Request::Lines(path)@ == Query::Lines(path@),
        Request::Clock@ is Clock,
        Request::Done@ is Done,
{
}

/// The bytes of each path.
pub open spec fn paths_of(paths: Seq<Vec<u8>>) -> Seq<Seq<u8>> {
    paths.map_values(|p: Vec<u8>| p@)
}

/// An event that is being processed.
pub struct EventRun {
    kind: EventKind,
    paths: Vec<Vec<u8>>,
    now: u64,
    next: usize,
    request: Request,
}

impl View for EventRun {
    type V = Run;

    closed spec fn view(&self) -> Run {
        Run {
            kind: self.kind,
            paths: paths_of(self.paths@),
            now: self.now,
            next: self.next as int,
            query: self.request@,
        }
    }
}

/// The run that a received event starts.
pub open spec fn run_of(event: FileEvent, now: u64) -> Run {
    Run { kind: event.kind, paths: paths_of(event.paths@), now, next: 0, query: Query::Done }
}

impl EventRun {
    /// What has to be found out next.
    pub fn request(&self) -> (request: &Request)
        ensures
            request@ == self@.query,
    {
        &self.request
    }
}

/// What an event of the given kind did to its files.
pub fn change_type(kind: EventKind) -> (change: Option<ChangeType>)
    ensures
        change == crate::model::change_of(kind),
{
    match kind {
        EventKind::Create => Some(ChangeType::Created),
        EventKind::Modify => Some(ChangeType::Modified),
        EventKind::Remove => Some(ChangeType::Deleted),
        _ => None,
    }
}

impl WatState {
    /// Starts to process an event received at the time `now`.
    pub fn process_event(&mut self, event: FileEvent, now: u64) -> (run: EventRun)
        requires
            old(self).wf(),
        ensures
            final(self).wf(),
            run@.wf(),
            (final(self)@, run@) == crate::model::walked(old(self)@, run_of(event, now), 0),
    {
        let run = EventRun {
            kind: event.kind,
            paths: event.paths,
            now,
            next: 0,
            request: Request::Done,
        };
        self.walk(run, 0)
    }

    /// Goes through the paths of `run` from number `from` on, up to the next request.
    fn walk(&mut self, run: EventRun, from: usize) -> (next: EventRun)
        requires
            old(self).wf(),
            from <= run@.paths.len(),
        ensures
            final(self).wf(),
            next@.wf(),
            (final(self)@, next@) == crate::model::walked(old(self)@, run@, from as int),
    {
        let mut current = run;
        let mut i: usize = from;
        while i < current.paths.len()
            invariant
                self.wf(),
                current@ == run@,
                i <= current.paths@.len(),
                crate::model::walked(self@, run@, i as int) == crate::model::walked(
                    old(self)@,
                    run@,
                    from as int,
                ),
            decreases current.paths@.len() - i,
        {
            assert(run@.paths[i as int] == current.paths@[i as int]@);
            let text: String = path_text(current.paths[i].as_slice());
            if contains(text.as_str(), ".git") {
                let may_commit: bool = self.note_git(text.as_str(), current.now);
                if may_commit && self.repo.is_some() {
                    current.next = i;
                    current.request = Request::Head;
                    return current;
                }
            } else {
                if let Some(change) = change_type(current.kind) {
                    if self.repo.is_some() {
                        let rest: Vec<u8> = relative(
                            current.paths[i].as_slice(),
                            self.workdir.as_slice(),
                        );
                        current.next = i;
                        current.request = Request::Ignored(rest);
                        return current;
                    }
                    self.note_change(current.paths[i].as_slice(), change, current.now);
                }
            }
            i += 1;
        }
        current.next = current.paths.len();
        current.request = Request::Clock;
        current
    }

    /// Goes on with `run` after something was found out. A finding that does not answer
    /// the run's request changes nothing.
    pub fn resume(&mut self, run: EventRun, finding: Finding) -> (next: EventRun)
        requires
            old(self).wf(),
            run@.wf(),
        ensures
            final(self).wf(),
            next@.wf(),
            (final(self)@, next@) == crate::model::resumed(old(self)@, run@, finding),
    {
        let i: usize = run.next;
        let now: u64 = run.now;
        let mut run = run;
        assert(run@.query is Head || run@.query is Ignored || run@.query is Lines ==> i
            < run.paths.len());
        match (&run.request, finding) {
            (Request::Head, Finding::Head(head)) => {
                self.update_last_commit(&head, now);
                self.walk(run, i + 1)
            },
            (Request::Ignored(_), Finding::Ignored(ignored)) => {
                assert(run@.paths[i as int] == run.paths@[i as int]@);
                let is_ignored: bool = match ignored {
                    Some(is_ignored) => is_ignored,
                    None => false,
                };
                if is_ignored {
                    self.note_ignored(run.paths[i].as_slice(), now);
                    return self.walk(run, i + 1);
                }
                if let Some(Some(workdir)) = &self.repo {
                    let rest: Vec<u8> = relative(run.paths[i].as_slice(), workdir.as_slice());
                    run.request = Request::Lines(rest);
                    return run;
                }
                if let Some(change) = change_type(run.kind) {
                    self.note_change(run.paths[i].as_slice(), change, now);
                }
                self.walk(run, i + 1)
            },
            (Request::Lines(_), Finding::Lines(lines)) => {
                assert(run@.paths[i as int] == run.paths@[i as int]@);
                self.note_lines(run.paths[i].as_slice(), lines, now);
                if let Some(change) = change_type(run.kind) {
                    self.note_change(run.paths[i].as_slice(), change, now);
                }
                self.walk(run, i + 1)
            },
            (Request::Clock, Finding::Clock(later)) => {
                self.forget_old(later);
                run.request = Request::Done;
                run
            },
            _ => run,
        }
    }
}

} // verus!
