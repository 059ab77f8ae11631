//! The state of a watch, and how reported events change it.

use crate::git::{count_statuses, lines_or_none, GitReading, HeadCommit};
use crate::model::{
    Change, ChangeType, Commit, EventKind, FileStats, Watch, CHANGE_LIFE, IGNORED_LIFE, OLD_COMMIT_AGE,
    STATS_LIFE,
};
use crate::path::{first_component, is_same_path, relative};
use crate::text::{contains, ends_with, path_text};
use vstd::prelude::*;
use vstd::slice::slice_to_vec;

verus! {

/// An event that a file watcher reported.
#[derive(Debug, PartialEq, Eq)]
pub struct FileEvent {
    pub kind: EventKind,
    /// The raw bytes of the paths that it is about.
    pub paths: Vec<Vec<u8>>,
}

/// A change to a file.
pub struct FileChange {
    pub(crate) path: Vec<u8>,
    pub(crate) timestamp: u64,
    pub(crate) change_type: ChangeType,
}

impl View for FileChange {
    type V = Change;

    open(crate) spec fn view(&self) -> Change {
        Change { path: self.path@, timestamp: self.timestamp, change_type: self.change_type }
    }
}

/// The line counts of one file.
pub(crate) struct StatsEntry {
    pub(crate) path: Vec<u8>,
    pub(crate) stats: FileStats,
}

/// An ignored directory and when activity was last seen in it.
pub(crate) struct IgnoredDir {
    pub(crate) name: String,
    pub(crate) time: u64,
}

/// The last commit.
pub(crate) struct LastCommit {
    pub(crate) hash: String,
    pub(crate) summary: String,
    pub(crate) files: Vec<String>,
    pub(crate) time: u64,
    pub(crate) from_start: bool,
}

impl View for LastCommit {
    type V = Commit;

    open(crate) spec fn view(&self) -> Commit {
        Commit {
            hash: self.hash@,
            summary: self.summary@,
            files: crate::text::texts_of(self.files@),
            time: self.time,
            from_start: self.from_start,
        }
    }
}

impl LastCommit {
    /// The commit at the head of the repository, as of the time `time`.
    fn seen(head: &HeadCommit, time: u64, from_start: bool) -> (commit: Self)
        ensures
            commit@ == Commit::seen(*head, time, from_start),
    {
        LastCommit {
            hash: head.get_short_hash(),
            summary: head.get_summary(),
            files: head.get_file_names(),
            time,
            from_start,
        }
    }
}

/// What was read of a repository when the watch started.
pub struct RepoReading {
    /// Its working directory, `None` for a bare repository.
    pub workdir: Option<Vec<u8>>,
    /// The commit at its head, `None` where that could not be read.
    pub head: Option<HeadCommit>,
}

/// The state of a watch.
pub struct WatState {
    pub(crate) repo: Option<Option<Vec<u8>>>,
    pub(crate) recent_changes: Vec<FileChange>,
    pub(crate) file_stats: Vec<StatsEntry>,
    pub(crate) last_git_activity: Option<(String, u64)>,
    pub(crate) workdir: Vec<u8>,
    pub(crate) ignored_dirs: Vec<IgnoredDir>,
    pub(crate) last_commit: Option<LastCommit>,
}

/// Whether entry number `i` is the one of the path with components `k`.
pub(crate) open(crate) spec fn stats_at(entries: Seq<StatsEntry>, k: Seq<Seq<u8>>, i: int) -> bool {
    0 <= i < entries.len() && crate::path::components(entries[i].path@) == k
}

/// The line counts by the components of the path.
pub(crate) open(crate) spec fn stats_map(entries: Seq<StatsEntry>) -> Map<Seq<Seq<u8>>, FileStats> {
    Map::new(
        |k: Seq<Seq<u8>>| exists|i: int| stats_at(entries, k, i),
        |k: Seq<Seq<u8>>| entries[choose|i: int| stats_at(entries, k, i)].stats,
    )
}

/// The changes of a list.
pub(crate) open(crate) spec fn changes_of(changes: Seq<FileChange>) -> Seq<Change> {
    changes.map_values(|c: FileChange| c@)
}

/// The names and times of a list of ignored directories.
pub(crate) open(crate) spec fn entries_of(dirs: Seq<IgnoredDir>) -> Seq<(Seq<char>, u64)> {
    dirs.map_values(|d: IgnoredDir| (d.name@, d.time))
}

/// The repository and its working directory, as bytes.
pub(crate) open(crate) spec fn repo_of(repo: Option<Option<Vec<u8>>>) -> Option<Option<Seq<u8>>> {
    match repo {
        None => None,
        Some(None) => Some(None),
        Some(Some(workdir)) => Some(Some(workdir@)),
    }
}

impl View for WatState {
    type V = Watch;

    open(crate) spec fn view(&self) -> Watch {
        Watch {
            repo: repo_of(self.repo),
            recent: changes_of(self.recent_changes@),
            stats: stats_map(self.file_stats@),
            activity: match self.last_git_activity {
                Some((activity, time)) => Some((activity@, time)),
                None => None,
            },
            workdir: self.workdir@,
            ignored: entries_of(self.ignored_dirs@),
            last_commit: match self.last_commit {
                Some(commit) => Some(commit@),
                None => None,
            },
        }
    }
}

impl WatState {
    /// Whether no path and no ignored directory is entered twice.
    pub open(crate) spec fn wf(&self) -> bool {
        &&& stats_distinct(self.file_stats@)
        &&& names_distinct(self.ignored_dirs@)
    }

    /// The state at the start of a watch of `path`.
    pub fn new(path: Vec<u8>, repo: Option<RepoReading>, now: u64) -> (state: Self)
        requires
            repo is Some && repo->0.head is Some ==> now >= OLD_COMMIT_AGE,
        ensures
            state.wf(),
            state@ == Watch::started(
                path@,
                match repo {
                    Some(reading) => Some(
                        match reading.workdir {
                            Some(workdir) => Some(workdir@),
                            None => None,
                        },
                    ),
                    None => None,
                },
                match repo {
                    Some(reading) => reading.head,
                    None => None,
                },
                now,
            ),
    {
        let mut repo_dir: Option<Option<Vec<u8>>> = None;
        let mut workdir: Vec<u8> = path;
        let mut last_commit: Option<LastCommit> = None;
        if let Some(reading) = repo {
            if let Some(commit) = &reading.head {
                last_commit = Some(LastCommit::seen(commit, now - OLD_COMMIT_AGE, true));
            }
            if let Some(dir) = &reading.workdir {
                workdir = slice_to_vec(dir.as_slice());
            }
            repo_dir = Some(reading.workdir);
        }
        let state = WatState {
            repo: repo_dir,
            recent_changes: Vec::new(),
            file_stats: Vec::new(),
            last_git_activity: None,
            workdir,
            ignored_dirs: Vec::new(),
            last_commit,
        };
        proof {
            assert(state@.recent =~= Seq::empty());
            assert(state@.stats =~= Map::empty());
            assert(state@.ignored =~= Seq::empty());
        }
        state
    }

    /// The counts of dirty, staged and untracked files, and of all lines added and
    /// deleted; all zero where there is no repository.
    pub fn get_git_status(&self, reading: &GitReading) -> (status: (i32, i32, i32, usize, usize))
        requires
            self@.repo is Some ==> reading.is_countable(),
        ensures
            self@.repo is None ==> status == (0i32, 0i32, 0i32, 0usize, 0usize),
            self@.repo is Some ==> {
                &&& status.0 == crate::git::dirty_count(reading.entries())
                &&& status.1 == crate::git::staged_count(reading.entries())
                &&& status.2 == crate::git::untracked_count(reading.entries())
                &&& status.3 == reading.additions()
                &&& status.4 == reading.deletions()
            },
    {
        if self.repo.is_none() {
            return (0, 0, 0, 0, 0);
        }
        let counts: (i32, i32, i32) = match &reading.statuses {
            Some(statuses) => count_statuses(statuses),
            None => {
                proof {
                    crate::git::law_counts(reading.entries());
                }
                (0, 0, 0)
            },
        };
        let lines: (usize, usize) = self.get_total_diff_stats(reading.staged, reading.unstaged);
        (counts.0, counts.1, counts.2, lines.0, lines.1)
    }

    /// All lines added and deleted: those in the index and those in the working tree.
    pub fn get_total_diff_stats(
        &self,
        staged: Option<(usize, usize)>,
        unstaged: Option<(usize, usize)>,
    ) -> (lines: (usize, usize))
        requires
            self@.repo is Some ==> {
                &&& crate::git::lines_of(staged).0 + crate::git::lines_of(unstaged).0 <= usize::MAX
                &&& crate::git::lines_of(staged).1 + crate::git::lines_of(unstaged).1 <= usize::MAX
            },
        ensures
            self@.repo is None ==> lines == (0usize, 0usize),
            self@.repo is Some ==> {
                &&& lines.0 == crate::git::lines_of(staged).0 + crate::git::lines_of(unstaged).0
                &&& lines.1 == crate::git::lines_of(staged).1 + crate::git::lines_of(unstaged).1
            },
    {
        if self.repo.is_none() {
            return (0, 0);
        }
        let staged: (usize, usize) = lines_or_none(staged);
        let unstaged: (usize, usize) = lines_or_none(unstaged);
        (staged.0 + unstaged.0, staged.1 + unstaged.1)
    }

    /// The line counts kept of `path`.
    pub(crate) fn stats_of(&self, path: &[u8]) -> (stats: Option<FileStats>)
        requires
            self.wf(),
        ensures
            match stats {
                Some(stats) => self@.stats.contains_key(crate::path::components(path@))
                    && self@.stats[crate::path::components(path@)] == stats,
                None => !self@.stats.contains_key(crate::path::components(path@)),
            },
    {
        let ghost key = crate::path::components(path@);
        let mut i: usize = 0;
        while i < self.file_stats.len()
            invariant
                self.wf(),
                key == crate::path::components(path@),
                i <= self.file_stats@.len(),
                forall|j: int| 0 <= j < i ==> !stats_at(self.file_stats@, key, j),
            decreases self.file_stats@.len() - i,
        {
            if is_same_path(self.file_stats[i].path.as_slice(), path) {
                proof {
                    lemma_stats_map(self.file_stats@, i as int);
                }
                return Some(self.file_stats[i].stats);
            }
            i += 1;
        }
        None
    }

    /// The path relative to the watched directory, as text. One that is UTF-8 comes out as
    /// itself.
    pub fn relative_path(&self, path: &[u8]) -> (text: String)
        ensures
            text@ == crate::text::lossy_text(self@.relative(path@)),
            vstd::utf8::valid_utf8(self@.relative(path@)) ==> text@ == vstd::utf8::decode_utf8(
                self@.relative(path@),
            ),
    {
        path_text(relative(path, self.workdir.as_slice()).as_slice())
    }

    /// The directory that activity in the ignored file `path` is put down to: its first
    /// component below the watched directory. One that is UTF-8 comes out as itself.
    pub fn get_ignored_root(&self, path: &[u8]) -> (root: Option<String>)
        ensures
            match root {
                Some(root) => {
                    let first = crate::path::components(self@.relative(path@))[0];
                    &&& self@.ignored_root(path@) == Some(root@)
                    &&& vstd::utf8::valid_utf8(first) ==> root@ == vstd::utf8::decode_utf8(first)
                },
                None => self@.ignored_root(path@) is None,
            },
    {
        let rest: Vec<u8> = relative(path, self.workdir.as_slice());
        match first_component(rest.as_slice()) {
            Some(first) => Some(path_text(first.as_slice())),
            None => None,
        }
    }

    /// Takes note of the commit at the head of the repository, unless it is the one
    /// already known.
    pub fn update_last_commit(&mut self, head: &Option<HeadCommit>, now: u64)
        requires
            old(self).wf(),
        ensures
            final(self).wf(),
            final(self)@ == old(self)@.with_head(*head, now),
    {
        if self.repo.is_none() {
            return ;
        }
        if let Some(commit) = head {
            if let Some(known) = &self.last_commit {
                if known.hash == commit.get_short_hash() {
                    return ;
                }
            }
            self.last_commit = Some(LastCommit::seen(commit, now, false));
        }
    }

    /// Takes note of what git is doing when it touches the path with this text. The
    /// result says whether there may be a new commit.
    pub(crate) fn note_git(&mut self, text: &str, now: u64) -> (may_commit: bool)
        requires
            old(self).wf(),
        ensures
            final(self).wf(),
            final(self)@ == old(self)@.with_activity(text@, now),
            may_commit == crate::model::may_commit(text@),
    {
        if contains(text, "index.lock") {
            self.last_git_activity = Some(("staging".to_owned(), now));
            false
        } else if contains(text, "COMMIT_EDITMSG") {
            self.last_git_activity = Some(("committing".to_owned(), now));
            false
        } else if ends_with(text, ".git/HEAD") || contains(text, "refs/heads") {
            self.last_git_activity = Some(("branch change".to_owned(), now));
            true
        } else {
            contains(text, "/objects/")
        }
    }

    /// Takes note of a change to the ignored file `path`.
    pub(crate) fn note_ignored(&mut self, path: &[u8], now: u64)
        requires
            old(self).wf(),
        ensures
            final(self).wf(),
            final(self)@ == old(self)@.with_ignored(path@, now),
    {
        if let Some(root) = self.get_ignored_root(path) {
            let ghost before = entries_of(self.ignored_dirs@);
            let mut i: usize = 0;
            while i < self.ignored_dirs.len()
                invariant
                    *self == *old(self),
                    old(self).wf(),
                    old(self)@.ignored_root(path@) == Some(root@),
                    before == entries_of(self.ignored_dirs@),
                    i <= self.ignored_dirs@.len(),
                    forall|j: int|
                        0 <= j < i ==> (#[trigger] self.ignored_dirs@[j]).name@ != root@,
                decreases self.ignored_dirs@.len() - i,
            {
                if self.ignored_dirs[i].name == root {
                    assert(crate::model::names_entry(before, root@, i as int));
                    let ghost k = choose|k: int| crate::model::names_entry(before, root@, k);
                    assert(k == i) by {
                        assert(before[k].0 == self.ignored_dirs@[k].name@);
                        assert(before[i as int].0 == self.ignored_dirs@[i as int].name@);
                    }
                    self.ignored_dirs[i].time = now;
                    assert(entries_of(self.ignored_dirs@) =~= before.update(
                        i as int,
                        (root@, now),
                    ));
                    return ;
                }
                i += 1;
            }
            assert forall|k: int| !crate::model::names_entry(before, root@, k) by {
                if 0 <= k < before.len() {
                    assert(before[k].0 == self.ignored_dirs@[k].name@);
                }
            }
            let ghost name = root@;
            self.ignored_dirs.push(IgnoredDir { name: root, time: now });
            assert(entries_of(self.ignored_dirs@) =~= before.push((name, now)));
        }
    }

    /// Takes note of the lines counted in `path`.
    pub(crate) fn note_lines(&mut self, path: &[u8], lines: Option<(usize, usize)>, now: u64)
        requires
            old(self).wf(),
        ensures
            final(self).wf(),
            final(self)@ == old(self)@.with_lines(path@, lines, now),
    {
        if let Some((additions, deletions)) = lines {
            let stats = FileStats { additions, deletions, last_modified: Some(now) };
            let ghost key = crate::path::components(path@);
            let ghost before = self.file_stats@;
            let mut i: usize = 0;
            while i < self.file_stats.len()
                invariant
                    *self == *old(self),
                    old(self).wf(),
                    before == self.file_stats@,
                    key == crate::path::components(path@),
                    i <= self.file_stats@.len(),
                    lines == Some((additions, deletions)),
                    stats == (FileStats { additions, deletions, last_modified: Some(now) }),
                    forall|j: int| 0 <= j < i ==> !stats_at(before, key, j),
                decreases self.file_stats@.len() - i,
            {
                if is_same_path(self.file_stats[i].path.as_slice(), path) {
                    self.file_stats[i].stats = stats;
                    proof {
                        lemma_stats_set(before, self.file_stats@, i as int, key, stats);
                    }
                    return ;
                }
                i += 1;
            }
            self.file_stats.push(StatsEntry { path: slice_to_vec(path), stats });
            proof {
                assert(self.file_stats@.drop_last() =~= before);
                lemma_stats_push(before, self.file_stats@, key, stats);
            }
        }
    }

    /// Puts a change to `path` on the list.
    pub(crate) fn note_change(&mut self, path: &[u8], change_type: ChangeType, now: u64)
        requires
            old(self).wf(),
        ensures
            final(self).wf(),
            final(self)@ == old(self)@.with_change(path@, change_type, now),
    {
        self.recent_changes.push(
            FileChange { path: slice_to_vec(path), timestamp: now, change_type },
        );
        assert(changes_of(self.recent_changes@) =~= old(self)@.recent.push(
            Change { path: path@, timestamp: now, change_type },
        ));
    }

    /// Forgets the changes that are too old to be on the list.
    fn forget_changes(&mut self, now: u64)
        requires
            old(self).wf(),
        ensures
            final(self).wf(),
            final(self)@ == (Watch { recent: old(self)@.pruned(now).recent, ..old(self)@ }),
    {
        let ghost all = changes_of(self.recent_changes@);
        let ghost young = |c: Change| crate::model::age(now, c.timestamp) < CHANGE_LIFE;
        let mut changes: Vec<FileChange> = Vec::new();
        std::mem::swap(&mut changes, &mut self.recent_changes);
        let mut kept: Vec<FileChange> = Vec::new();
        proof {
            crate::seqs::lemma_filter_none(all, young);
            assert(changes_of(kept@) =~= Seq::<Change>::empty());
        }
        for change in it: changes
            invariant
                changes_of(it.seq()) == all,
                young == (|c: Change| crate::model::age(now, c.timestamp) < CHANGE_LIFE),
                changes_of(kept@) == all.take(it.index() as int).filter(young),
        {
            let ghost i = it.index() as int;
            let ghost before = kept@;
            proof {
                crate::seqs::lemma_filter_take(all, i, young);
                assert(all[i] == change@);
            }
            if now.saturating_sub(change.timestamp) < CHANGE_LIFE {
                kept.push(change);
                assert(changes_of(kept@) =~= changes_of(before).push(change@));
            }
        }
        assert(all.take(all.len() as int) =~= all);
        self.recent_changes = kept;
    }

    /// Forgets the line counts that are too old.
    fn forget_stats(&mut self, now: u64)
        requires
            old(self).wf(),
        ensures
            final(self).wf(),
            final(self)@ == (Watch { stats: old(self)@.pruned(now).stats, ..old(self)@ }),
    {
        let ghost all = self.file_stats@;
        let mut entries: Vec<StatsEntry> = Vec::new();
        std::mem::swap(&mut entries, &mut self.file_stats);
        let mut kept: Vec<StatsEntry> = Vec::new();
        let ghost fresh = |e: StatsEntry| Watch::is_fresh(e.stats, now);
        proof {
            crate::seqs::lemma_filter_none(all, fresh);
        }
        for entry in it: entries
            invariant
                it.seq() == all,
                fresh == (|e: StatsEntry| Watch::is_fresh(e.stats, now)),
                kept@ == all.take(it.index() as int).filter(fresh),
        {
            proof {
                crate::seqs::lemma_filter_take(all, it.index() as int, fresh);
            }
            let keep: bool = match entry.stats.last_modified {
                Some(time) => now.saturating_sub(time) < STATS_LIFE,
                None => false,
            };
            if keep {
                kept.push(entry);
            }
        }
        assert(all.take(all.len() as int) =~= all);
        self.file_stats = kept;
        proof {
            lemma_stats_filter(all, now);
        }
    }

    /// Forgets the ignored directories without recent activity.
    fn forget_ignored(&mut self, now: u64)
        requires
            old(self).wf(),
        ensures
            final(self).wf(),
            final(self)@ == (Watch { ignored: old(self)@.pruned(now).ignored, ..old(self)@ }),
    {
        let ghost all = entries_of(self.ignored_dirs@);
        let ghost active = |d: (Seq<char>, u64)| crate::model::age(now, d.1) < IGNORED_LIFE;
        let mut dirs: Vec<IgnoredDir> = Vec::new();
        std::mem::swap(&mut dirs, &mut self.ignored_dirs);
        let mut kept: Vec<IgnoredDir> = Vec::new();
        proof {
            crate::seqs::lemma_filter_none(all, active);
            assert(entries_of(kept@) =~= Seq::<(Seq<char>, u64)>::empty());
        }
        for dir in it: dirs
            invariant
                entries_of(it.seq()) == all,
                names_distinct(it.seq()),
                active == (|d: (Seq<char>, u64)| crate::model::age(now, d.1) < IGNORED_LIFE),
                entries_of(kept@) == all.take(it.index() as int).filter(active),
                names_distinct(kept@),
                forall|j: int, k: int|
                    0 <= j < kept@.len() && it.index() <= k < it.seq().len() ==> (
                    #[trigger] kept@[j]).name@ != (#[trigger] it.seq()[k]).name@,
        {
            let ghost i = it.index() as int;
            let ghost before = kept@;
            proof {
                crate::seqs::lemma_filter_take(all, i, active);
                assert(all[i] == (dir.name@, dir.time));
                assert(it.seq()[i] == dir);
            }
            if now.saturating_sub(dir.time) < IGNORED_LIFE {
                kept.push(dir);
                assert(entries_of(kept@) =~= entries_of(before).push((dir.name@, dir.time)));
            }
        }
        assert(all.take(all.len() as int) =~= all);
        self.ignored_dirs = kept;
    }

    /// Forgets everything that is too old at the time `now`.
    pub fn forget_old(&mut self, now: u64)
        requires
            old(self).wf(),
        ensures
            final(self).wf(),
            final(self)@ == old(self)@.pruned(now),
    {
        self.forget_changes(now);
        self.forget_stats(now);
        self.forget_ignored(now);
    }
}

/// Whether no directory is entered twice.
pub(crate) open(crate) spec fn names_distinct(dirs: Seq<IgnoredDir>) -> bool {
    forall|i: int, j: int|
        0 <= i < j < dirs.len() ==> (#[trigger] dirs[i]).name@ != (#[trigger] dirs[j]).name@
}

/// Whether no two entries are of the same path.
pub(crate) open(crate) spec fn stats_distinct(entries: Seq<StatsEntry>) -> bool {
    forall|i: int, j: int|
        0 <= i < j < entries.len() ==> crate::path::components((#[trigger] entries[i]).path@)
            != crate::path::components((#[trigger] entries[j]).path@)
}

/// Each entry is what the map says of its path.
proof fn lemma_stats_map(entries: Seq<StatsEntry>, i: int)
    requires
        stats_distinct(entries),
        0 <= i < entries.len(),
    ensures
        stats_map(entries).contains_key(crate::path::components(entries[i].path@)),
        stats_map(entries)[crate::path::components(entries[i].path@)] == entries[i].stats,
{
    let k = crate::path::components(entries[i].path@);
    assert(stats_at(entries, k, i));
    let j = choose|j: int| stats_at(entries, k, j);
    assert(stats_at(entries, k, j));
    if i < j {
        assert(crate::path::components(entries[i].path@) != crate::path::components(
            entries[j].path@,
        ));
    } else if j < i {
        assert(crate::path::components(entries[j].path@) != crate::path::components(
            entries[i].path@,
        ));
    }
}

proof fn lemma_stats_set(
    before: Seq<StatsEntry>,
    after: Seq<StatsEntry>,
    i: int,
    key: Seq<Seq<u8>>,
    stats: FileStats,
)
    requires
        stats_distinct(before),
        stats_at(before, key, i),
        after.len() == before.len(),
        forall|j: int| 0 <= j < before.len() ==> (#[trigger] after[j]).path == before[j].path,
        forall|j: int|
            0 <= j < before.len() && j != i ==> (#[trigger] after[j]).stats == before[j].stats,
        after[i].stats == stats,
    ensures
        stats_distinct(after),
        stats_map(after) == stats_map(before).insert(key, stats),
{
    let (a, b) = (stats_map(after), stats_map(before).insert(key, stats));
    assert forall|x: int, y: int| 0 <= x < y < after.len() implies crate::path::components(
        (#[trigger] after[x]).path@,
    ) != crate::path::components((#[trigger] after[y]).path@) by {
        assert(crate::path::components(before[x].path@) != crate::path::components(
            before[y].path@,
        ));
    }
    assert forall|k: Seq<Seq<u8>>|
        (#[trigger] a.dom().contains(k)) == b.dom().contains(k) && (a.dom().contains(k) ==> a[k]
            == b[k]) by {
        if a.contains_key(k) {
            let j = choose|j: int| stats_at(after, k, j);
            lemma_stats_map(after, j);
            lemma_stats_map(before, j);
            lemma_stats_map(before, i);
        }
        if b.contains_key(k) {
            if k == key {
                assert(stats_at(after, k, i));
                lemma_stats_map(after, i);
            } else {
                let j = choose|j: int| stats_at(before, k, j);
                assert(stats_at(after, k, j));
            }
        }
    }
    assert(a.dom() =~= b.dom());
    assert(a =~= b);
}

proof fn lemma_stats_push(
    before: Seq<StatsEntry>,
    after: Seq<StatsEntry>,
    key: Seq<Seq<u8>>,
    stats: FileStats,
)
    requires
        stats_distinct(before),
        forall|j: int| !stats_at(before, key, j),
        after.len() == before.len() + 1,
        after.drop_last() == before,
        crate::path::components(after.last().path@) == key,
        after.last().stats == stats,
    ensures
        stats_distinct(after),
        stats_map(after) == stats_map(before).insert(key, stats),
{
    let (a, b) = (stats_map(after), stats_map(before).insert(key, stats));
    assert forall|j: int| 0 <= j < before.len() implies #[trigger] after[j] == before[j] by {
        assert(after.drop_last()[j] == before[j]);
    }
    assert forall|x: int, y: int| 0 <= x < y < after.len() implies crate::path::components(
        (#[trigger] after[x]).path@,
    ) != crate::path::components((#[trigger] after[y]).path@) by {
        assert(!stats_at(before, key, x));
    }
    let last = before.len() as int;
    assert(stats_at(after, key, last));
    lemma_stats_map(after, last);
    assert forall|k: Seq<Seq<u8>>|
        (#[trigger] a.dom().contains(k)) == b.dom().contains(k) && (a.dom().contains(k) ==> a[k]
            == b[k]) by {
        if a.contains_key(k) {
            let j = choose|j: int| stats_at(after, k, j);
            lemma_stats_map(after, j);
            if j < last {
                assert(stats_at(before, k, j));
                lemma_stats_map(before, j);
            }
        }
        if b.contains_key(k) && k != key {
            let j = choose|j: int| stats_at(before, k, j);
            assert(stats_at(after, k, j));
        }
    }
    assert(a.dom() =~= b.dom());
    assert(a =~= b);
}

/// Dropping entries drops their paths from the map and keeps the others.
proof fn lemma_stats_filter(entries: Seq<StatsEntry>, now: u64)
    requires
        stats_distinct(entries),
    ensures
        ({
            let kept = entries.filter(|e: StatsEntry| Watch::is_fresh(e.stats, now));
            let all = stats_map(entries);
            &&& stats_distinct(kept)
            &&& stats_map(kept) == Map::new(
                |k: Seq<Seq<u8>>| all.contains_key(k) && Watch::is_fresh(all[k], now),
                |k: Seq<Seq<u8>>| all[k],
            )
        }),
    decreases entries.len(),
{
    let fresh = |e: StatsEntry| Watch::is_fresh(e.stats, now);
    let kept = entries.filter(fresh);
    let all = stats_map(entries);
    let a = stats_map(kept);
    let b = Map::new(
        |k: Seq<Seq<u8>>| all.contains_key(k) && Watch::is_fresh(all[k], now),
        |k: Seq<Seq<u8>>| all[k],
    );
    lemma_filter_order(entries, fresh);
    assert forall|k: Seq<Seq<u8>>|
        (#[trigger] a.dom().contains(k)) == b.dom().contains(k) && (a.dom().contains(k) ==> a[k]
            == b[k]) by {
        if a.dom().contains(k) {
            let j = choose|j: int| stats_at(kept, k, j);
            lemma_stats_map(kept, j);
            let i = choose|i: int| 0 <= i < entries.len() && entries[i] == kept[j];
            assert(fresh(kept[j]));
            lemma_stats_map(entries, i);
        }
        if b.dom().contains(k) {
            let i = choose|i: int| stats_at(entries, k, i);
            lemma_stats_map(entries, i);
            assert(fresh(entries[i]));
            let j = choose|j: int| 0 <= j < kept.len() && kept[j] == entries[i];
            assert(stats_at(kept, k, j));
        }
    }
    assert(a.dom() =~= b.dom());
    assert(a =~= b);
}

/// What filtering keeps, and that it keeps paths distinct.
proof fn lemma_filter_order(entries: Seq<StatsEntry>, fresh: spec_fn(StatsEntry) -> bool)
    requires
        stats_distinct(entries),
    ensures
        stats_distinct(entries.filter(fresh)),
        forall|j: int|
            0 <= j < entries.filter(fresh).len() ==> fresh(#[trigger] entries.filter(fresh)[j])
                && exists|i: int| 0 <= i < entries.len() && entries[i] == entries.filter(fresh)[j],
        forall|i: int|
            0 <= i < entries.len() && fresh(#[trigger] entries[i]) ==> exists|j: int|
                0 <= j < entries.filter(fresh).len() && entries.filter(fresh)[j] == entries[i],
    decreases entries.len(),
{
    reveal(Seq::filter);
    if entries.len() > 0 {
        let rest = entries.drop_last();
        let last = entries.last();
        let kept = rest.filter(fresh);
        let all = entries.filter(fresh);
        assert forall|i: int, j: int| 0 <= i < j < rest.len() implies crate::path::components(
            (#[trigger] rest[i]).path@,
        ) != crate::path::components((#[trigger] rest[j]).path@) by {
            assert(rest[i] == entries[i] && rest[j] == entries[j]);
        }
        lemma_filter_order(rest, fresh);
        assert forall|j: int| 0 <= j < all.len() implies fresh(#[trigger] all[j]) && exists|i: int|
            0 <= i < entries.len() && entries[i] == all[j] by {
            if j < kept.len() {
                assert(all[j] == kept[j]);
                let i = choose|i: int| 0 <= i < rest.len() && rest[i] == kept[j];
                assert(entries[i] == all[j]);
            } else {
                assert(entries[entries.len() - 1] == all[j]);
            }
        }
        assert forall|i: int| 0 <= i < entries.len() && fresh(#[trigger] entries[i]) implies exists|
            j: int,
        |
            0 <= j < all.len() && all[j] == entries[i] by {
            if i < rest.len() {
                assert(rest[i] == entries[i]);
                let j = choose|j: int| 0 <= j < kept.len() && kept[j] == rest[i];
                assert(all[j] == entries[i]);
            } else {
                assert(all[all.len() - 1] == entries[i]);
            }
        }
        assert forall|i: int, j: int| 0 <= i < j < all.len() implies crate::path::components(
            (#[trigger] all[i]).path@,
        ) != crate::path::components((#[trigger] all[j]).path@) by {
            assert(all[i] == kept[i]);
            if j < kept.len() {
                assert(all[j] == kept[j]);
            } else {
                let x = choose|x: int| 0 <= x < rest.len() && rest[x] == kept[i];
                assert(entries[x] == all[i]);
                assert(entries[entries.len() - 1] == all[j]);
            }
        }
    }
}

} // verus!
