//! The mathematical model of a watch: what is remembered, and how one reported event
//! changes it.

use crate::git::HeadCommit;
use vstd::prelude::*;

verus! {

/// One second in nanoseconds, the unit of every timestamp.
pub const SECOND: u64 = 1_000_000_000;

/// How long a change stays on the list.
pub const CHANGE_LIFE: u64 = 30_000_000_000;

/// How long the line counts of a file are kept.
pub const STATS_LIFE: u64 = 60_000_000_000;

/// How long activity in an ignored directory is remembered.
pub const IGNORED_LIFE: u64 = 10_000_000_000;

/// How long ago a commit that was there from the start is taken to have been made.
pub const OLD_COMMIT_AGE: u64 = 3_600_000_000_000;

/// What happened to a file.
#[derive(Clone, Copy, Debug, PartialEq, Eq, Structural)]
pub enum ChangeType {
    Created,
    Modified,
    Deleted,
}

/// The kinds of events that a file watcher reports.
#[derive(Clone, Copy, Debug, PartialEq, Eq, Structural)]
pub enum EventKind {
    Any,
    Access,
    Create,
    Modify,
    Remove,
    Other,
}

/// The line counts of a file, and when they were taken.
#[derive(Clone, Copy, Debug, PartialEq, Eq)]
pub struct FileStats {
    pub additions: usize,
    pub deletions: usize,
    pub last_modified: Option<u64>,
}

/// A change to a file.
pub struct Change {
    pub path: Seq<u8>,
    pub timestamp: u64,
    pub change_type: ChangeType,
}

/// The last commit.
#[verifier::ext_equal]
pub struct Commit {
    /// The name that it is shown by.
    pub hash: Seq<char>,
    /// The first line of its message.
    pub summary: Seq<char>,
    /// The files that it changed.
    pub files: Seq<Seq<char>>,
    /// When it was seen, or taken to have been made if it was there from the start.
    pub time: u64,
    /// Whether it was there when the watch started.
    pub from_start: bool,
}

/// Everything that is remembered between two events.
#[verifier::ext_equal]
pub struct Watch {
    /// The repository, if there is one, and its working directory, if it has one.
    pub repo: Option<Option<Seq<u8>>>,
    /// The changes on the list, in the order they were reported.
    pub recent: Seq<Change>,
    /// The line counts of files, by the components of their paths.
    pub stats: Map<Seq<Seq<u8>>, FileStats>,
    /// What git was last seen doing, and when.
    pub activity: Option<(Seq<char>, u64)>,
    /// The directory that paths are shown relative to.
    pub workdir: Seq<u8>,
    /// The ignored directories with activity, and when that was last seen.
    pub ignored: Seq<(Seq<char>, u64)>,
    /// The last commit.
    pub last_commit: Option<Commit>,
}

/// How long before `now` the time `t` was; zero if it was not before it.
pub open spec fn age(now: u64, t: u64) -> nat {
    crate::text::less(now as nat, t as nat)
}

/// What an event of the given kind did to its files, if it counts as a change.
pub open spec fn change_of(kind: EventKind) -> Option<ChangeType> {
    match kind {
        EventKind::Create => Some(ChangeType::Created),
        EventKind::Modify => Some(ChangeType::Modified),
        EventKind::Remove => Some(ChangeType::Deleted),
        _ => None,
    }
}

/// Whether a path is taken to lie inside a git directory.
pub open spec fn is_git_path(path: Seq<u8>) -> bool {
    crate::text::occurs_in(crate::text::lossy_text(path), ".git"@)
}

/// What git is doing when it touches the path with this text.
pub open spec fn git_activity(text: Seq<char>) -> Option<Seq<char>> {
    if crate::text::occurs_in(text, "index.lock"@) {
        Some("staging"@)
    } else if crate::text::occurs_in(text, "COMMIT_EDITMSG"@) {
        Some("committing"@)
    } else if ".git/HEAD"@.is_suffix_of(text) || crate::text::occurs_in(text, "refs/heads"@) {
        Some("branch change"@)
    } else {
        None
    }
}

/// Whether there may be a new commit when git touches the path with this text.
pub open spec fn may_commit(text: Seq<char>) -> bool {
    &&& !crate::text::occurs_in(text, "index.lock"@)
    &&& !crate::text::occurs_in(text, "COMMIT_EDITMSG"@)
    &&& ".git/HEAD"@.is_suffix_of(text) || crate::text::occurs_in(text, "refs/heads"@)
        || crate::text::occurs_in(text, "/objects/"@)
}

/// Whether entry number `i` is the one of `name`.
pub open spec fn names_entry(entries: Seq<(Seq<char>, u64)>, name: Seq<char>, i: int) -> bool {
    0 <= i < entries.len() && entries[i].0 == name
}

/// The entries with the time of `name` set: in its place if it has one, else at the end.
pub open spec fn with_entry(
    entries: Seq<(Seq<char>, u64)>,
    name: Seq<char>,
    time: u64,
) -> Seq<(Seq<char>, u64)> {
    if exists|i: int| names_entry(entries, name, i) {
        entries.update(choose|i: int| names_entry(entries, name, i), (name, time))
    } else {
        entries.push((name, time))
    }
}

impl Commit {
    /// The commit at the head of the repository, as of the time `time`.
    pub open spec fn seen(head: HeadCommit, time: u64, from_start: bool) -> Commit {
        Commit {
            hash: head.short_hash(),
            summary: head.summary(),
            files: head.file_names(),
            time,
            from_start,
        }
    }
}

impl Watch {
    /// What is remembered at the start of a watch of `path`.
    pub open spec fn started(
        path: Seq<u8>,
        repo: Option<Option<Seq<u8>>>,
        head: Option<HeadCommit>,
        now: u64,
    ) -> Watch {
        Watch {
            repo,
            recent: Seq::empty(),
            stats: Map::empty(),
            activity: None,
            workdir: match repo {
                Some(Some(workdir)) => workdir,
                _ => path,
            },
            ignored: Seq::empty(),
            last_commit: match (repo, head) {
                (Some(_), Some(commit)) => Some(
                    Commit::seen(commit, (now - OLD_COMMIT_AGE) as u64, true),
                ),
                _ => None,
            },
        }
    }

    /// After git was seen at work on the path with this text.
    pub open spec fn with_activity(self, text: Seq<char>, now: u64) -> Watch {
        match git_activity(text) {
            Some(activity) => Watch { activity: Some((activity, now)), ..self },
            None => self,
        }
    }

    /// Whether the last commit is the one with this name.
    pub open spec fn shows_commit(self, hash: Seq<char>) -> bool {
        match self.last_commit {
            Some(last) => last.hash == hash,
            None => false,
        }
    }

    /// After the commit at the head of the repository was read.
    pub open spec fn with_head(self, head: Option<HeadCommit>, now: u64) -> Watch {
        match head {
            Some(commit) => if self.repo is None || self.shows_commit(commit.short_hash()) {
                self
            } else {
                Watch { last_commit: Some(Commit::seen(commit, now, false)), ..self }
            },
            None => self,
        }
    }

    /// The path relative to the directory that is watched.
    pub open spec fn relative(self, path: Seq<u8>) -> Seq<u8> {
        crate::path::relative_to(path, self.workdir)
    }

    /// The directory that activity in the ignored file `path` is put down to.
    pub open spec fn ignored_root(self, path: Seq<u8>) -> Option<Seq<char>> {
        let parts = crate::path::components(self.relative(path));
        if parts.len() == 0 {
            None
        } else {
            Some(crate::text::lossy_text(parts[0]))
        }
    }

    /// After a change to the ignored file `path`.
    pub open spec fn with_ignored(self, path: Seq<u8>, now: u64) -> Watch {
        match self.ignored_root(path) {
            Some(root) => Watch { ignored: with_entry(self.ignored, root, now), ..self },
            None => self,
        }
    }

    /// After the lines of `path` were counted; a count that failed changes nothing.
    pub open spec fn with_lines(
        self,
        path: Seq<u8>,
        lines: Option<(usize, usize)>,
        now: u64,
    ) -> Watch {
        match lines {
            Some((additions, deletions)) => Watch {
                stats: self.stats.insert(
                    crate::path::components(path),
                    FileStats { additions, deletions, last_modified: Some(now) },
                ),
                ..self
            },
            None => self,
        }
    }

    /// After a change to `path`.
    pub open spec fn with_change(self, path: Seq<u8>, change_type: ChangeType, now: u64) -> Watch {
        Watch { recent: self.recent.push(Change { path, timestamp: now, change_type }), ..self }
    }

    /// Whether the line counts are fresh enough to be kept.
    pub open spec fn is_fresh(stats: FileStats, now: u64) -> bool {
        stats.last_modified is Some && age(now, stats.last_modified->0) < STATS_LIFE
    }

    /// After everything too old was forgotten.
    pub open spec fn pruned(self, now: u64) -> Watch {
        Watch {
            recent: self.recent.filter(|c: Change| age(now, c.timestamp) < CHANGE_LIFE),
            stats: Map::new(
                |k: Seq<Seq<u8>>| self.stats.contains_key(k) && Self::is_fresh(self.stats[k], now),
                |k: Seq<Seq<u8>>| self.stats[k],
            ),
            ignored: self.ignored.filter(|d: (Seq<char>, u64)| age(now, d.1) < IGNORED_LIFE),
            ..self
        }
    }
}

/// What has to be found out before an event can be processed further.
pub enum Query {
    /// The commit at the head of the repository.
    Head,
    /// Whether the repository ignores the path.
    Ignored(Seq<u8>),
    /// The lines added and deleted in the path.
    Lines(Seq<u8>),
    /// The time.
    Clock,
    /// Nothing: the event is processed.
    Done,
}

/// An event that is being processed.
pub struct Run {
    pub kind: EventKind,
    pub paths: Seq<Seq<u8>>,
    /// When the event was received.
    pub now: u64,
    /// The path that the query is about.
    pub next: int,
    pub query: Query,
}

impl Run {
    /// Whether a query about a path has one, and a query about a changed file comes from
    /// an event that counts as a change.
    pub open spec fn wf(self) -> bool {
        &&& self.query is Head || self.query is Ignored || self.query is Lines ==> 0 <= self.next
            < self.paths.len()
        &&& self.query is Ignored || self.query is Lines ==> change_of(self.kind) is Some
    }

    /// The run with a query about its path number `next`.
    pub open spec fn asking(self, next: int, query: Query) -> Run {
        Run { next, query, ..self }
    }
}

/// Goes through the paths of `run` from number `i` on, as far as that goes without
/// finding anything out.
pub open spec fn walked(m: Watch, run: Run, i: int) -> (Watch, Run)
    decreases run.paths.len() - i,
{
    if i < 0 || i >= run.paths.len() {
        (m, run.asking(run.paths.len() as int, Query::Clock))
    } else {
        let path = run.paths[i];
        if is_git_path(path) {
            let text = crate::text::lossy_text(path);
            let noted = m.with_activity(text, run.now);
            if may_commit(text) && m.repo is Some {
                (noted, run.asking(i, Query::Head))
            } else {
                walked(noted, run, i + 1)
            }
        } else {
            match change_of(run.kind) {
                None => walked(m, run, i + 1),
                Some(change_type) => if m.repo is Some {
                    (m, run.asking(i, Query::Ignored(m.relative(path))))
                } else {
                    walked(m.with_change(path, change_type, run.now), run, i + 1)
                },
            }
        }
    }
}

/// What was found out.
pub enum Finding {
    Head(Option<HeadCommit>),
    /// `None` where the repository could not tell.
    Ignored(Option<bool>),
    /// `None` where the lines could not be counted.
    Lines(Option<(usize, usize)>),
    Clock(u64),
}

/// Goes on with `run` after a finding. One that does not answer the run's query
/// changes nothing.
pub open spec fn resumed(m: Watch, run: Run, finding: Finding) -> (Watch, Run) {
    let path = run.paths[run.next];
    let change_type = change_of(run.kind)->0;
    match (run.query, finding) {
        (Query::Head, Finding::Head(head)) => walked(
            m.with_head(head, run.now),
            run,
            run.next + 1,
        ),
        (Query::Ignored(_), Finding::Ignored(ignored)) => if ignored == Some(true) {
            walked(m.with_ignored(path, run.now), run, run.next + 1)
        } else {
            match m.repo {
                Some(Some(workdir)) => (
                    m,
                    run.asking(run.next, Query::Lines(crate::path::relative_to(path, workdir))),
                ),
                _ => walked(m.with_change(path, change_type, run.now), run, run.next + 1),
            }
        },
        (Query::Lines(_), Finding::Lines(lines)) => walked(
            m.with_lines(path, lines, run.now).with_change(path, change_type, run.now),
            run,
            run.next + 1,
        ),
        (Query::Clock, Finding::Clock(later)) => (
            m.pruned(later),
            run.asking(run.next, Query::Done),
        ),
        _ => (m, run),
    }
}

} // verus!
