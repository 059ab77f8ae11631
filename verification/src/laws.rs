//! What holds of processing events as a whole.

use crate::git::HeadCommit;
use crate::model::{Change, Finding, Query, Run, Watch};
use vstd::prelude::*;

verus! {

/// Everything that can be found out while an event is processed, by the number of the
/// path that it is about.
pub struct World {
    pub head: spec_fn(int) -> Option<HeadCommit>,
    pub ignored: spec_fn(int) -> Option<bool>,
    pub lines: spec_fn(int) -> Option<(usize, usize)>,
    pub clock: u64,
}

/// What is found out about the query of `run`.
pub open spec fn finding(run: Run, w: World) -> Finding {
    match run.query {
        Query::Head => Finding::Head((w.head)(run.next)),
        Query::Ignored(_) => Finding::Ignored((w.ignored)(run.next)),
        Query::Lines(_) => Finding::Lines((w.lines)(run.next)),
        _ => Finding::Clock(w.clock),
    }
}

/// How many findings `run` can still take.
pub open spec fn findings_left(run: Run) -> int {
    match run.query {
        Query::Done => 0,
        Query::Clock => 1,
        Query::Ignored(_) => 3 + 2 * (run.paths.len() - run.next),
        _ => 2 + 2 * (run.paths.len() - run.next),
    }
}

/// What is remembered once `run` is through.
pub open spec fn driven(m: Watch, run: Run, w: World) -> Watch
    decreases findings_left(run),
    when run.wf()
{
    if run.query is Done {
        m
    } else {
        let (after, next) = crate::model::resumed(m, run, finding(run, w));
        proof {
            lemma_resumed(m, run, w);
        }
        driven(after, next, w)
    }
}

/// Where going through the paths stops.
pub proof fn lemma_walked(m: Watch, run: Run, i: int)
    requires
        0 <= i <= run.paths.len(),
    ensures
        ({
            let next = crate::model::walked(m, run, i).1;
            &&& next.wf()
            &&& next.kind == run.kind && next.paths == run.paths && next.now == run.now
            &&& next.query is Clock || (next.query is Head || next.query is Ignored) && i
                <= next.next < run.paths.len()
        }),
    decreases run.paths.len() - i,
{
    if i < run.paths.len() {
        let path = run.paths[i];
        if crate::model::is_git_path(path) {
            lemma_walked(m.with_activity(crate::text::lossy_text(path), run.now), run, i + 1);
        } else {
            match crate::model::change_of(run.kind) {
                None => lemma_walked(m, run, i + 1),
                Some(change_type) => {
                    lemma_walked(m.with_change(path, change_type, run.now), run, i + 1);
                },
            }
        }
    }
}

/// Every finding brings a run nearer to its end.
pub proof fn lemma_resumed(m: Watch, run: Run, w: World)
    requires
        run.wf(),
        !(run.query is Done),
    ensures
        ({
            let next = crate::model::resumed(m, run, finding(run, w)).1;
            &&& next.wf()
            &&& 0 <= findings_left(next) < findings_left(run)
        }),
{
    let path = run.paths[run.next];
    let change_type = crate::model::change_of(run.kind)->0;
    if run.query is Head {
        lemma_walked(m.with_head((w.head)(run.next), run.now), run, run.next + 1);
    } else if run.query is Ignored {
        lemma_walked(m.with_ignored(path, run.now), run, run.next + 1);
        lemma_walked(m.with_change(path, change_type, run.now), run, run.next + 1);
    } else if run.query is Lines {
        lemma_walked(
            m.with_lines(path, (w.lines)(run.next), run.now).with_change(
                path,
                change_type,
                run.now,
            ),
            run,
            run.next + 1,
        );
    }
}

/// What a reported path does to what is remembered: a path inside a git directory tells
/// what git is doing and may tell of a commit; a changed file that the repository ignores
/// counts for its directory; any other changed file has its lines counted and goes on
/// the list.
pub open spec fn path_effect(m: Watch, run: Run, w: World, i: int) -> Watch {
    let path = run.paths[i];
    let text = crate::text::lossy_text(path);
    if crate::model::is_git_path(path) {
        let noted = m.with_activity(text, run.now);
        if crate::model::may_commit(text) {
            noted.with_head((w.head)(i), run.now)
        } else {
            noted
        }
    } else {
        match crate::model::change_of(run.kind) {
            None => m,
            Some(change_type) => if m.repo is Some && (w.ignored)(i) == Some(true) {
                m.with_ignored(path, run.now)
            } else {
                (match m.repo {
                    Some(Some(_)) => m.with_lines(path, (w.lines)(i), run.now),
                    _ => m,
                }).with_change(path, change_type, run.now)
            },
        }
    }
}

/// What the paths of `run` from number `i` on do, one after the other.
pub open spec fn paths_effect(m: Watch, run: Run, w: World, i: int) -> Watch
    decreases run.paths.len() - i,
{
    if i < 0 || i >= run.paths.len() {
        m
    } else {
        paths_effect(path_effect(m, run, w, i), run, w, i + 1)
    }
}

/// Going through the paths does not depend on what the run was asking.
proof fn lemma_walked_again(m: Watch, run: Run, next: int, query: Query, i: int)
    requires
        0 <= i <= run.paths.len(),
    ensures
        crate::model::walked(m, run.asking(next, query), i) == crate::model::walked(m, run, i),
    decreases run.paths.len() - i,
{
    let other = run.asking(next, query);
    if i < run.paths.len() {
        let path = run.paths[i];
        if crate::model::is_git_path(path) {
            lemma_walked_again(
                m.with_activity(crate::text::lossy_text(path), run.now),
                run,
                next,
                query,
                i + 1,
            );
        } else {
            match crate::model::change_of(run.kind) {
                None => lemma_walked_again(m, run, next, query, i + 1),
                Some(change_type) => {
                    lemma_walked_again(
                        m.with_change(path, change_type, run.now),
                        run,
                        next,
                        query,
                        i + 1,
                    );
                },
            }
        }
    }
}

proof fn lemma_driven(m: Watch, run: Run, w: World)
    requires
        run.wf(),
        !(run.query is Done),
    ensures
        ({
            let (after, next) = crate::model::resumed(m, run, finding(run, w));
            next.wf() && driven(m, run, w) == driven(after, next, w)
        }),
{
    lemma_resumed(m, run, w);
}

/// An event is processed path by path, whatever is found out on the way, and what is too
/// old when that is done is forgotten.
pub proof fn law_event_is_processed(m: Watch, event: crate::state::FileEvent, now: u64, w: World)
    ensures
        ({
            let run = crate::events::run_of(event, now);
            let (after, next) = crate::model::walked(m, run, 0);
            driven(after, next, w) == paths_effect(m, run, w, 0).pruned(w.clock)
        }),
{
    lemma_processed(m, crate::events::run_of(event, now), w, 0);
}

proof fn lemma_processed(m: Watch, run: Run, w: World, i: int)
    requires
        0 <= i <= run.paths.len(),
    ensures
        ({
            let (after, next) = crate::model::walked(m, run, i);
            driven(after, next, w) == paths_effect(m, run, w, i).pruned(w.clock)
        }),
    decreases run.paths.len() - i,
{
    let (after, next) = crate::model::walked(m, run, i);
    lemma_walked(m, run, i);
    lemma_driven(after, next, w);
    if i == run.paths.len() {
        let done = crate::model::resumed(after, next, finding(next, w));
        assert(driven(done.0, done.1, w) == done.0);
    } else {
        let path = run.paths[i];
        let effect = path_effect(m, run, w, i);
        lemma_processed(effect, run, w, i + 1);
        if crate::model::is_git_path(path) {
            if crate::model::may_commit(crate::text::lossy_text(path)) && m.repo is Some {
                lemma_walked_again(effect, run, i, next.query, i + 1);
                assert(next == run.asking(i, Query::Head));
                assert(crate::model::resumed(after, next, finding(next, w))
                    == crate::model::walked(effect, next, i + 1));
            } else {
                assert((after, next) == crate::model::walked(effect, run, i + 1));
            }
        } else if crate::model::change_of(run.kind) is Some && m.repo is Some {
            assert(next == run.asking(i, Query::Ignored(m.relative(path))));
            assert(after == m);
            lemma_walked_again(effect, run, i, next.query, i + 1);
            let (m2, second) = crate::model::resumed(after, next, finding(next, w));
            if (w.ignored)(i) == Some(true) || m.repo->0 is None {
                assert((m2, second) == crate::model::walked(effect, next, i + 1));
            } else {
                assert(m2 == m);
                lemma_driven(m2, second, w);
                lemma_walked_again(effect, run, i, second.query, i + 1);
                assert(second == run.asking(i, second.query));
                assert(crate::model::resumed(m2, second, finding(second, w))
                    == crate::model::walked(effect, second, i + 1));
            }
        } else {
            assert((after, next) == crate::model::walked(effect, run, i + 1));
        }
    }
}

/// Whether path number `i` goes on the list of changed files.
pub open spec fn is_listed(run: Run, w: World, has_repo: bool, i: int) -> bool {
    &&& !crate::model::is_git_path(run.paths[i])
    &&& crate::model::change_of(run.kind) is Some
    &&& !(has_repo && (w.ignored)(i) == Some(true))
}

/// The changes that the paths from number `i` on bring to the list.
pub open spec fn listed(run: Run, w: World, has_repo: bool, i: int) -> Seq<Change>
    decreases run.paths.len() - i,
{
    if i < 0 || i >= run.paths.len() {
        Seq::empty()
    } else if is_listed(run, w, has_repo, i) {
        seq![
            Change {
                path: run.paths[i],
                timestamp: run.now,
                change_type: crate::model::change_of(run.kind)->0,
            },
        ] + listed(run, w, has_repo, i + 1)
    } else {
        listed(run, w, has_repo, i + 1)
    }
}

/// The list grows by exactly the changed files that lie in no git directory and are not
/// ignored, in the order they were reported. Neither the repository nor the watched
/// directory ever changes.
pub proof fn law_what_is_listed(m: Watch, run: Run, w: World, i: int)
    requires
        0 <= i <= run.paths.len(),
    ensures
        paths_effect(m, run, w, i).recent == m.recent + listed(run, w, m.repo is Some, i),
        paths_effect(m, run, w, i).repo == m.repo,
        paths_effect(m, run, w, i).workdir == m.workdir,
    decreases run.paths.len() - i,
{
    if i < run.paths.len() {
        law_what_is_listed(path_effect(m, run, w, i), run, w, i + 1);
    }
    assert(paths_effect(m, run, w, i).recent =~= m.recent + listed(run, w, m.repo is Some, i));
}

/// Work inside git directories, and events that are no changes, leave the list, the line
/// counts and the ignored directories alone.
pub proof fn law_git_directories_are_skipped(m: Watch, run: Run, w: World, i: int)
    requires
        0 <= i <= run.paths.len(),
        crate::model::change_of(run.kind) is None || forall|j: int|
            0 <= j < run.paths.len() ==> crate::model::is_git_path(#[trigger] run.paths[j]),
    ensures
        paths_effect(m, run, w, i).recent == m.recent,
        paths_effect(m, run, w, i).stats == m.stats,
        paths_effect(m, run, w, i).ignored == m.ignored,
    decreases run.paths.len() - i,
{
    if i < run.paths.len() {
        law_git_directories_are_skipped(path_effect(m, run, w, i), run, w, i + 1);
    }
}

/// Changes to ordinary files leave what is known of git alone.
pub proof fn law_ordinary_files_are_no_git_activity(m: Watch, run: Run, w: World, i: int)
    requires
        0 <= i <= run.paths.len(),
        forall|j: int|
            0 <= j < run.paths.len() ==> !crate::model::is_git_path(#[trigger] run.paths[j]),
    ensures
        paths_effect(m, run, w, i).activity == m.activity,
        paths_effect(m, run, w, i).last_commit == m.last_commit,
    decreases run.paths.len() - i,
{
    if i < run.paths.len() {
        law_ordinary_files_are_no_git_activity(path_effect(m, run, w, i), run, w, i + 1);
    }
}

/// Without a repository an event is processed without asking for anything but the time.
pub proof fn law_no_repository_no_questions(m: Watch, run: Run, i: int)
    requires
        m.repo is None,
        0 <= i <= run.paths.len(),
    ensures
        crate::model::walked(m, run, i).1.query is Clock,
    decreases run.paths.len() - i,
{
    if i < run.paths.len() {
        let path = run.paths[i];
        if crate::model::is_git_path(path) {
            law_no_repository_no_questions(
                m.with_activity(crate::text::lossy_text(path), run.now),
                run,
                i + 1,
            );
        } else {
            match crate::model::change_of(run.kind) {
                None => law_no_repository_no_questions(m, run, i + 1),
                Some(change_type) => {
                    law_no_repository_no_questions(
                        m.with_change(path, change_type, run.now),
                        run,
                        i + 1,
                    );
                },
            }
        }
    }
}

/// A file is asked about by its path below the watched directory: whether the repository
/// ignores it is asked with the same components whether it was reported by a relative path
/// or by that path joined to the directory.
pub proof fn law_ignore_question_is_relative(m: Watch, run: Run, i: int, path: Seq<u8>)
    requires
        0 <= i < run.paths.len(),
        m.repo is Some,
        crate::model::change_of(run.kind) is Some,
        crate::path::is_absolute(m.workdir),
        !crate::path::has_lead(path),
        run.paths[i] == path || run.paths[i] == crate::path::joined_path(m.workdir, path),
        !crate::model::is_git_path(run.paths[i]),
    ensures
        match crate::model::walked(m, run, i).1.query {
            Query::Ignored(asked) => crate::path::components(asked) == crate::path::components(
                path,
            ),
            _ => false,
        },
{
    crate::path::law_joined_path_is_relative_again(m.workdir, path);
}

/// The lines of a file are asked for by its path below the repository's own directory,
/// whatever else is remembered: with the same components whether it was reported by a
/// relative path or by that path joined to that directory.
pub proof fn law_lines_question_is_relative(
    m: Watch,
    other: Watch,
    run: Run,
    ignored: Option<bool>,
    path: Seq<u8>,
)
    requires
        run.wf(),
        run.query is Ignored,
        ignored != Some(true),
        m.repo is Some && m.repo->0 is Some,
        crate::path::is_absolute((m.repo->0)->0),
        !crate::path::has_lead(path),
        run.paths[run.next] == path || run.paths[run.next] == crate::path::joined_path(
            (m.repo->0)->0,
            path,
        ),
        other.repo == m.repo,
    ensures
        match crate::model::resumed(m, run, Finding::Ignored(ignored)).1.query {
            Query::Lines(asked) => crate::path::components(asked) == crate::path::components(path),
            _ => false,
        },
        crate::model::resumed(other, run, Finding::Ignored(ignored)).1 == crate::model::resumed(
            m,
            run,
            Finding::Ignored(ignored),
        ).1,
{
    crate::path::law_joined_path_is_relative_again((m.repo->0)->0, path);
}

/// Once the head of a repository was read, the last commit is the one at the head. It is
/// noted once: reading it again, at any later time, changes nothing.
pub proof fn law_commit_is_noted_once(m: Watch, head: Option<HeadCommit>, first: u64, again: u64)
    ensures
        m.repo is Some && head is Some ==> m.with_head(head, first).shows_commit(
            head->0.short_hash(),
        ),
        m.with_head(head, first).with_head(head, again) == m.with_head(head, first),
{
}

/// The line counts of a file are those last counted: a count sets those of its own file
/// and of no other, and a file that is not listed, or whose lines could not be counted,
/// changes none.
pub proof fn law_last_count_is_kept(m: Watch, run: Run, w: World, i: int, file: Seq<Seq<u8>>)
    requires
        0 <= i < run.paths.len(),
    ensures
        ({
            let after = path_effect(m, run, w, i).stats;
            let counted = is_listed(run, w, m.repo is Some, i) && m.repo is Some && m.repo->0 is Some
                && (w.lines)(i) is Some;
            if counted && file == crate::path::components(run.paths[i]) {
                &&& after.contains_key(file)
                &&& (after[file].additions, after[file].deletions) == (w.lines)(i)->0
                &&& after[file].last_modified == Some(run.now)
            } else {
                &&& after.contains_key(file) == m.stats.contains_key(file)
                &&& m.stats.contains_key(file) ==> after[file] == m.stats[file]
            }
        }),
{
}

/// Filtering keeps exactly the items that pass.
proof fn lemma_filter_contains<A>(s: Seq<A>, pred: spec_fn(A) -> bool)
    ensures
        forall|x: A| #[trigger] s.filter(pred).contains(x) <==> s.contains(x) && pred(x),
    decreases s.len(),
{
    reveal(Seq::filter);
    if s.len() > 0 {
        let rest = s.drop_last();
        lemma_filter_contains(rest, pred);
        let kept = rest.filter(pred);
        assert forall|x: A| #[trigger] s.filter(pred).contains(x) <==> s.contains(x) && pred(x) by {
            assert(s.contains(x) <==> rest.contains(x) || x == s.last()) by {
                if s.contains(x) {
                    let i = choose|i: int| 0 <= i < s.len() && s[i] == x;
                    if i < rest.len() {
                        assert(rest[i] == x);
                    }
                }
                if rest.contains(x) {
                    let i = choose|i: int| 0 <= i < rest.len() && rest[i] == x;
                    assert(s[i] == x);
                }
                assert(s[s.len() - 1] == s.last());
            }
            if pred(s.last()) {
                assert(kept.push(s.last()).contains(x) <==> kept.contains(x) || x == s.last()) by {
                    let all = kept.push(s.last());
                    assert(all[kept.len() as int] == s.last());
                    if kept.contains(x) {
                        let i = choose|i: int| 0 <= i < kept.len() && kept[i] == x;
                        assert(all[i] == x);
                    }
                    if all.contains(x) {
                        let i = choose|i: int| 0 <= i < all.len() && all[i] == x;
                        if i < kept.len() {
                            assert(kept[i] == x);
                        }
                    }
                }
            }
        }
    }
}

/// Only what is too old is forgotten, and all of it: changes after thirty seconds, line
/// counts after sixty, activity in ignored directories after ten.
pub proof fn law_only_the_old_is_forgotten(m: Watch, now: u64)
    ensures
        forall|c: Change| #[trigger]
            m.pruned(now).recent.contains(c) <==> m.recent.contains(c) && crate::model::age(
                now,
                c.timestamp,
            ) < 30 * crate::model::SECOND,
        forall|k: Seq<Seq<u8>>| #[trigger]
            m.pruned(now).stats.contains_key(k) <==> m.stats.contains_key(k)
                && m.stats[k].last_modified is Some && crate::model::age(
                now,
                m.stats[k].last_modified->0,
            ) < 60 * crate::model::SECOND,
        forall|d: (Seq<char>, u64)| #[trigger]
            m.pruned(now).ignored.contains(d) <==> m.ignored.contains(d) && crate::model::age(
                now,
                d.1,
            ) < 10 * crate::model::SECOND,
{
    lemma_filter_contains(
        m.recent,
        |c: Change| crate::model::age(now, c.timestamp) < crate::model::CHANGE_LIFE,
    );
    lemma_filter_contains(
        m.ignored,
        |d: (Seq<char>, u64)| crate::model::age(now, d.1) < crate::model::IGNORED_LIFE,
    );
}

/// A change is on the list once its event is processed, unless that took thirty seconds.
pub proof fn law_new_changes_stay(m: Watch, run: Run, w: World, c: Change)
    requires
        listed(run, w, m.repo is Some, 0).contains(c),
        crate::model::age(w.clock, run.now) < 30 * crate::model::SECOND,
    ensures
        paths_effect(m, run, w, 0).pruned(w.clock).recent.contains(c),
{
    law_what_is_listed(m, run, w, 0);
    law_only_the_old_is_forgotten(paths_effect(m, run, w, 0), w.clock);
    lemma_listed_now(run, w, m.repo is Some, 0);
    let new = listed(run, w, m.repo is Some, 0);
    let i = choose|i: int| 0 <= i < new.len() && new[i] == c;
    assert((m.recent + new)[m.recent.len() + i] == c);
}

proof fn lemma_listed_now(run: Run, w: World, has_repo: bool, i: int)
    ensures
        forall|j: int|
            0 <= j < listed(run, w, has_repo, i).len() ==> (#[trigger] listed(
                run,
                w,
                has_repo,
                i,
            )[j]).timestamp == run.now,
    decreases run.paths.len() - i,
{
    if 0 <= i < run.paths.len() {
        lemma_listed_now(run, w, has_repo, i + 1);
        let rest = listed(run, w, has_repo, i + 1);
        let all = listed(run, w, has_repo, i);
        if is_listed(run, w, has_repo, i) {
            assert forall|j: int| 0 <= j < all.len() implies (#[trigger] all[j]).timestamp
                == run.now by {
                if j > 0 {
                    assert(all[j] == rest[j - 1]);
                }
            }
        }
    }
}

/// Filtering twice, the second time more strictly, is filtering strictly.
proof fn lemma_filter_twice<A>(s: Seq<A>, wide: spec_fn(A) -> bool, narrow: spec_fn(A) -> bool)
    requires
        forall|x: A| #[trigger] narrow(x) ==> wide(x),
    ensures
        s.filter(wide).filter(narrow) == s.filter(narrow),
    decreases s.len(),
{
    reveal(Seq::filter);
    if s.len() > 0 {
        let x = s.last();
        lemma_filter_twice(s.drop_last(), wide, narrow);
        if wide(x) {
            assert(s.drop_last().filter(wide).push(x).drop_last() =~= s.drop_last().filter(wide));
        }
    }
}

/// What was forgotten once would also be forgotten later: how often old things are
/// looked for does not matter.
pub proof fn law_forgetting_is_final(m: Watch, first: u64, later: u64)
    requires
        first <= later,
    ensures
        m.pruned(first).pruned(later) == m.pruned(later),
{
    lemma_filter_twice(
        m.recent,
        |c: Change| crate::model::age(first, c.timestamp) < crate::model::CHANGE_LIFE,
        |c: Change| crate::model::age(later, c.timestamp) < crate::model::CHANGE_LIFE,
    );
    lemma_filter_twice(
        m.ignored,
        |d: (Seq<char>, u64)| crate::model::age(first, d.1) < crate::model::IGNORED_LIFE,
        |d: (Seq<char>, u64)| crate::model::age(later, d.1) < crate::model::IGNORED_LIFE,
    );
    let (a, b) = (m.pruned(first).pruned(later), m.pruned(later));
    assert(a.stats.dom() =~= b.stats.dom());
    assert(a.stats =~= b.stats);
    assert(a =~= b);
}

/// Activity in an ignored directory sets the time of that directory and of no other.
pub proof fn law_ignored_activity_is_noted(
    entries: Seq<(Seq<char>, u64)>,
    name: Seq<char>,
    time: u64,
    other: (Seq<char>, u64),
)
    requires
        forall|i: int, j: int|
            0 <= i < j < entries.len() ==> (#[trigger] entries[i]).0 != (#[trigger] entries[j]).0,
    ensures
        crate::model::with_entry(entries, name, time).contains((name, time)),
        other.0 == name ==> (crate::model::with_entry(entries, name, time).contains(other)
            <==> other.1 == time),
        other.0 != name ==> (crate::model::with_entry(entries, name, time).contains(other)
            <==> entries.contains(other)),
{
    let after = crate::model::with_entry(entries, name, time);
    if exists|i: int| crate::model::names_entry(entries, name, i) {
        let k = choose|i: int| crate::model::names_entry(entries, name, i);
        assert(after[k] == (name, time));
        if after.contains(other) {
            let i = choose|i: int| 0 <= i < after.len() && after[i] == other;
            if i != k {
                assert(entries[i] == other);
                if i < k {
                    assert(entries[i].0 != entries[k].0);
                } else {
                    assert(entries[k].0 != entries[i].0);
                }
            }
        }
        if entries.contains(other) && other.0 != name {
            let i = choose|i: int| 0 <= i < entries.len() && entries[i] == other;
            assert(after[i] == other);
        }
    } else {
        let n = entries.len() as int;
        assert(after[n] == (name, time));
        if after.contains(other) {
            let i = choose|i: int| 0 <= i < after.len() && after[i] == other;
            if i < n {
                assert(entries[i] == other);
                assert(!crate::model::names_entry(entries, name, i));
            }
        }
        if entries.contains(other) {
            let i = choose|i: int| 0 <= i < entries.len() && entries[i] == other;
            assert(after[i] == other);
        }
    }
}


/// An event is processed as it was reported: its kind, each of its paths in turn, and the
/// time it was received.
pub proof fn law_event_is_taken_as_reported(event: crate::state::FileEvent, now: u64, i: int)
    requires
        0 <= i < event.paths@.len(),
    ensures
        crate::events::run_of(event, now).kind == event.kind,
        crate::events::run_of(event, now).now == now,
        crate::events::run_of(event, now).paths.len() == event.paths@.len(),
        crate::events::run_of(event, now).paths[i] == event.paths@[i]@,
{
}

/// A watch starts in the working directory of the repository, or in the watched directory
/// where there is no repository or a bare one. Nothing has changed yet, and the last commit
/// is the one at the head, taken to be an hour old.
pub proof fn law_start(
    path: Seq<u8>,
    repo: Option<Option<Seq<u8>>>,
    head: Option<HeadCommit>,
    now: u64,
)
    ensures
        ({
            let m = Watch::started(path, repo, head, now);
            &&& m.repo == repo
            &&& m.recent.len() == 0 && m.ignored.len() == 0 && m.activity is None
            &&& forall|k: Seq<Seq<u8>>| !#[trigger] m.stats.contains_key(k)
            &&& m.workdir == if repo is Some && repo->0 is Some {
                (repo->0)->0
            } else {
                path
            }
            &&& m.last_commit is Some <==> repo is Some && head is Some
            &&& repo is Some && head is Some ==> {
                let (commit, seen) = (head->0, m.last_commit->0);
                &&& seen.hash == crate::git::hex(commit.id@).subrange(0, 7)
                &&& seen.summary == commit.summary()
                &&& seen.files == commit.file_names()
                &&& now >= 3_600_000_000_000 ==> seen.time + 3_600_000_000_000 == now
                &&& seen.from_start
            }
        }),
{
    if head is Some {
        assert(head->0.short_hash() =~= crate::git::hex(head->0.id@).subrange(0, 7));
    }
}

/// A commit at the head that is not the one already known becomes the last commit, with its
/// own name, the first line of its own message and its own files, seen now, whatever was
/// known before. Nothing else changes. One that is known already changes nothing, and
/// neither does a head that could not be read or a directory without a repository.
pub proof fn law_new_commit_is_noted(
    m: Watch,
    commit: HeadCommit,
    now: u64,
    line: Seq<char>,
    rest: Seq<char>,
)
    requires
        !line.contains('\n'),
        line.len() == 0 || line.last() != '\r',
    ensures
        ({
            let after = m.with_head(Some(commit), now);
            let hash = crate::git::hex(commit.id@).subrange(0, 7);
            let known = m.last_commit is Some && m.last_commit->0.hash == hash;
            &&& m.repo is None || known ==> after == m
            &&& m.repo is Some && !known ==> {
                let seen = after.last_commit->0;
                &&& after == Watch { last_commit: after.last_commit, ..m }
                &&& after.last_commit is Some
                &&& seen.hash == hash
                &&& commit.message is None ==> seen.summary.len() == 0
                &&& commit.message is Some && (commit.message->0@ == line || commit.message->0@
                    == line + "\n"@ + rest || commit.message->0@ == line + "\r\n"@ + rest)
                    ==> seen.summary == line
                &&& seen.files.len() == commit.files@.len()
                &&& forall|i: int|
                    0 <= i < commit.files@.len() ==> #[trigger] seen.files[i]
                        == crate::text::lossy_text(commit.files@[i]@)
                &&& seen.time == now
                &&& !seen.from_start
            }
        }),
        m.with_head(None, now) == m,
{
    crate::git::law_commit_texts(commit, line, rest);
}

/// What the last commit was before does not show in the new one.
pub proof fn law_last_commit_is_the_head(m: Watch, other: Watch, commit: HeadCommit, now: u64)
    requires
        m.repo is Some,
        other.repo is Some,
        m.last_commit is Some ==> m.last_commit->0.hash != crate::git::hex(commit.id@).take(7),
        other.last_commit is Some ==> other.last_commit->0.hash != crate::git::hex(
            commit.id@,
        ).take(7),
    ensures
        m.with_head(Some(commit), now).last_commit == other.with_head(
            Some(commit),
            now,
        ).last_commit,
        m.with_head(Some(commit), now).last_commit is Some,
{
}

/// When the head was read, it is noted and the next path is taken.
pub proof fn law_head_is_noted(m: Watch, run: Run, head: Option<HeadCommit>)
    requires
        run.query is Head,
    ensures
        crate::model::resumed(m, run, Finding::Head(head)) == crate::model::walked(
            m.with_head(head, run.now),
            run,
            run.next + 1,
        ),
{
}

/// Git is staging when it touches an index lock, whatever else the path holds: that is noted
/// with the time of the event, and the next path is taken.
pub proof fn law_staging_is_noted(m: Watch, run: Run, i: int)
    requires
        0 <= i < run.paths.len(),
        crate::text::occurs_in(crate::text::lossy_text(run.paths[i]), ".git"@),
        crate::text::occurs_in(crate::text::lossy_text(run.paths[i]), "index.lock"@),
    ensures
        crate::model::walked(m, run, i) == crate::model::walked(
            Watch { activity: Some(("staging"@, run.now)), ..m },
            run,
            i + 1,
        ),
{
}

/// Git is committing when it touches a commit message: that is noted with the time of the
/// event, and the next path is taken.
pub proof fn law_committing_is_noted(m: Watch, run: Run, i: int)
    requires
        0 <= i < run.paths.len(),
        crate::text::occurs_in(crate::text::lossy_text(run.paths[i]), ".git"@),
        !crate::text::occurs_in(crate::text::lossy_text(run.paths[i]), "index.lock"@),
        crate::text::occurs_in(crate::text::lossy_text(run.paths[i]), "COMMIT_EDITMSG"@),
    ensures
        crate::model::walked(m, run, i) == crate::model::walked(
            Watch { activity: Some(("committing"@, run.now)), ..m },
            run,
            i + 1,
        ),
{
}

/// A branch changes when git touches its reference, whatever the branch is called, or the
/// head: that is noted with the time of the event, and a repository is asked for the commit
/// at its head.
pub proof fn law_branch_change_is_noted(
    m: Watch,
    run: Run,
    i: int,
    before: Seq<char>,
    after: Seq<char>,
)
    requires
        0 <= i < run.paths.len(),
        crate::text::occurs_in(crate::text::lossy_text(run.paths[i]), ".git"@),
        !crate::text::occurs_in(crate::text::lossy_text(run.paths[i]), "index.lock"@),
        !crate::text::occurs_in(crate::text::lossy_text(run.paths[i]), "COMMIT_EDITMSG"@),
        crate::text::lossy_text(run.paths[i]) == before + "refs/heads"@ + after
            || crate::text::lossy_text(run.paths[i]) == before + ".git/HEAD"@,
    ensures
        ({
            let noted = Watch { activity: Some(("branch change"@, run.now)), ..m };
            &&& m.repo is Some ==> crate::model::walked(m, run, i) == (
                noted,
                Run { next: i, query: Query::Head, ..run },
            )
            &&& m.repo is None ==> crate::model::walked(m, run, i) == crate::model::walked(
                noted,
                run,
                i + 1,
            )
        }),
{
    let text = crate::text::lossy_text(run.paths[i]);
    crate::text::law_occurs(before, "refs/heads"@, after, text);
    if text == before + ".git/HEAD"@ {
        assert(".git/HEAD"@ =~= text.subrange(text.len() - ".git/HEAD"@.len(), text.len() as int));
    }
}

/// New objects tell nothing of what git is doing, but a repository is asked for the commit
/// at its head.
pub proof fn law_new_objects_may_be_a_commit(m: Watch, run: Run, i: int)
    requires
        0 <= i < run.paths.len(),
        crate::text::occurs_in(crate::text::lossy_text(run.paths[i]), ".git"@),
        !crate::text::occurs_in(crate::text::lossy_text(run.paths[i]), "index.lock"@),
        !crate::text::occurs_in(crate::text::lossy_text(run.paths[i]), "COMMIT_EDITMSG"@),
        !crate::text::occurs_in(crate::text::lossy_text(run.paths[i]), "refs/heads"@),
        !".git/HEAD"@.is_suffix_of(crate::text::lossy_text(run.paths[i])),
    ensures
        crate::text::occurs_in(crate::text::lossy_text(run.paths[i]), "/objects/"@) && m.repo
            is Some ==> crate::model::walked(m, run, i) == (
            m,
            Run { next: i, query: Query::Head, ..run },
        ),
        !crate::text::occurs_in(crate::text::lossy_text(run.paths[i]), "/objects/"@) || m.repo
            is None ==> crate::model::walked(m, run, i) == crate::model::walked(m, run, i + 1),
{
}

/// What a file underwent is told by the kind of the event. Without a repository a changed
/// file goes on the list at once; with one, the first question is whether it is ignored,
/// by its path below the watched directory. Events of other kinds tell nothing.
pub proof fn law_changed_file(m: Watch, run: Run, i: int, change: crate::model::ChangeType)
    requires
        0 <= i < run.paths.len(),
        !crate::text::occurs_in(crate::text::lossy_text(run.paths[i]), ".git"@),
    ensures
        run.kind is Any || run.kind is Access || run.kind is Other ==> crate::model::walked(
            m,
            run,
            i,
        ) == crate::model::walked(m, run, i + 1),
        ({
            let told = match change {
                crate::model::ChangeType::Created => run.kind is Create,
                crate::model::ChangeType::Modified => run.kind is Modify,
                crate::model::ChangeType::Deleted => run.kind is Remove,
            };
            &&& told && m.repo is None ==> crate::model::walked(m, run, i) == crate::model::walked(
                Watch {
                    recent: m.recent.push(
                        Change { path: run.paths[i], timestamp: run.now, change_type: change },
                    ),
                    ..m
                },
                run,
                i + 1,
            )
            &&& told && m.repo is Some ==> crate::model::walked(m, run, i) == (
                m,
                Run {
                    next: i,
                    query: Query::Ignored(crate::path::relative_to(run.paths[i], m.workdir)),
                    ..run
                },
            )
        }),
        crate::model::walked(m, run, run.paths.len() as int) == (
            m,
            Run { next: run.paths.len() as int, query: Query::Clock, ..run },
        ),
{
}

/// A file that the repository ignores counts for the first component of its path below the
/// watched directory, and for nothing else. A directory that is known already keeps its
/// place and takes the new time, a new one is entered at the end.
pub proof fn law_ignored_file(m: Watch, run: Run, k: int)
    requires
        run.wf(),
        run.query is Ignored,
        0 <= k < m.ignored.len(),
        forall|i: int, j: int|
            0 <= i < j < m.ignored.len() ==> (#[trigger] m.ignored[i]).0 != (
            #[trigger] m.ignored[j]).0,
    ensures
        ({
            let parts = crate::path::components(
                crate::path::relative_to(run.paths[run.next], m.workdir),
            );
            let root = crate::text::lossy_text(parts[0]);
            let after = crate::model::resumed(m, run, Finding::Ignored(Some(true)));
            &&& parts.len() == 0 ==> after == crate::model::walked(m, run, run.next + 1)
            &&& parts.len() > 0 && m.ignored[k].0 == root ==> after == crate::model::walked(
                Watch { ignored: m.ignored.update(k, (root, run.now)), ..m },
                run,
                run.next + 1,
            )
            &&& parts.len() > 0 && (forall|i: int|
                0 <= i < m.ignored.len() ==> (#[trigger] m.ignored[i]).0 != root) ==> after
                == crate::model::walked(
                Watch { ignored: m.ignored.push((root, run.now)), ..m },
                run,
                run.next + 1,
            )
        }),
{
    let parts = crate::path::components(
        crate::path::relative_to(run.paths[run.next], m.workdir),
    );
    let root = crate::text::lossy_text(parts[0]);
    if m.ignored[k].0 == root {
        assert(crate::model::names_entry(m.ignored, root, k));
        let c = choose|i: int| crate::model::names_entry(m.ignored, root, i);
        if c < k {
            assert(m.ignored[c].0 != m.ignored[k].0);
        } else if k < c {
            assert(m.ignored[k].0 != m.ignored[c].0);
        }
    }
}

/// The first ignored directory is entered like any other.
pub proof fn law_first_ignored_file(m: Watch, run: Run)
    requires
        run.wf(),
        run.query is Ignored,
        m.ignored.len() == 0,
    ensures
        ({
            let parts = crate::path::components(
                crate::path::relative_to(run.paths[run.next], m.workdir),
            );
            let entered = seq![(crate::text::lossy_text(parts[0]), run.now)];
            crate::model::resumed(m, run, Finding::Ignored(Some(true))) == crate::model::walked(
                if parts.len() == 0 {
                    m
                } else {
                    Watch { ignored: entered, ..m }
                },
                run,
                run.next + 1,
            )
        }),
{
    let parts = crate::path::components(
        crate::path::relative_to(run.paths[run.next], m.workdir),
    );
    let root = crate::text::lossy_text(parts[0]);
    assert(m.ignored.push((root, run.now)) =~= seq![(root, run.now)]);
}

/// A changed file that is not ignored, or of which the repository cannot tell, has its lines
/// asked for by its path below the repository's own directory. In a bare repository it goes
/// on the list at once.
pub proof fn law_file_that_is_not_ignored(
    m: Watch,
    run: Run,
    ignored: Option<bool>,
    change: crate::model::ChangeType,
)
    requires
        run.wf(),
        run.query is Ignored,
        ignored != Some(true),
        match change {
            crate::model::ChangeType::Created => run.kind is Create,
            crate::model::ChangeType::Modified => run.kind is Modify,
            crate::model::ChangeType::Deleted => run.kind is Remove,
        },
    ensures
        m.repo is Some && m.repo->0 is Some ==> crate::model::resumed(
            m,
            run,
            Finding::Ignored(ignored),
        ) == (
            m,
            Run {
                query: Query::Lines(
                    crate::path::relative_to(run.paths[run.next], (m.repo->0)->0),
                ),
                ..run
            },
        ),
        m.repo == Some(None::<Seq<u8>>) ==> crate::model::resumed(
            m,
            run,
            Finding::Ignored(ignored),
        ) == crate::model::walked(
            Watch {
                recent: m.recent.push(
                    Change { path: run.paths[run.next], timestamp: run.now, change_type: change },
                ),
                ..m
            },
            run,
            run.next + 1,
        ),
{
}

/// Once its lines were asked for, a changed file goes on the list. The counts are kept for
/// it and for no other file; where they failed, those kept before stay.
pub proof fn law_counted_file(
    m: Watch,
    run: Run,
    additions: usize,
    deletions: usize,
    change: crate::model::ChangeType,
)
    requires
        run.wf(),
        run.query is Lines,
        match change {
            crate::model::ChangeType::Created => run.kind is Create,
            crate::model::ChangeType::Modified => run.kind is Modify,
            crate::model::ChangeType::Deleted => run.kind is Remove,
        },
    ensures
        ({
            let path = run.paths[run.next];
            let listed = Watch {
                recent: m.recent.push(
                    Change { path, timestamp: run.now, change_type: change },
                ),
                ..m
            };
            let counts = crate::model::FileStats {
                additions,
                deletions,
                last_modified: Some(run.now),
            };
            &&& crate::model::resumed(m, run, Finding::Lines(None)) == crate::model::walked(
                listed,
                run,
                run.next + 1,
            )
            &&& crate::model::resumed(m, run, Finding::Lines(Some((additions, deletions))))
                == crate::model::walked(
                Watch {
                    stats: m.stats.insert(crate::path::components(path), counts),
                    ..listed
                },
                run,
                run.next + 1,
            )
        }),
{
}

/// When all paths were taken, what is too old at that time is forgotten, and the event is
/// processed. Of the changes, in their order, those less than thirty seconds old are left; of
/// the ignored directories those with activity less than ten seconds ago; of the line counts
/// those less than sixty seconds old, as they were. Nothing else is forgotten.
pub proof fn law_old_things_are_forgotten(
    m: Watch,
    run: Run,
    later: u64,
    change: Change,
    dir: (Seq<char>, u64),
    file: Seq<Seq<u8>>,
)
    requires
        run.query is Clock,
    ensures
        crate::model::resumed(m, run, Finding::Clock(later)) == (
            m.pruned(later),
            Run { query: Query::Done, ..run },
        ),
        ({
            let after = m.pruned(later);
            let more = Watch { recent: m.recent.push(change), ignored: m.ignored.push(dir), ..m };
            let (changes, dirs) = (more.pruned(later).recent, more.pruned(later).ignored);
            &&& m.recent.len() == 0 ==> after.recent.len() == 0
            &&& m.ignored.len() == 0 ==> after.ignored.len() == 0
            &&& changes == if change.timestamp + 30_000_000_000 > later {
                after.recent.push(change)
            } else {
                after.recent
            }
            &&& dirs == if dir.1 + 10_000_000_000 > later {
                after.ignored.push(dir)
            } else {
                after.ignored
            }
            &&& after.stats.contains_key(file) <==> {
                &&& m.stats.contains_key(file)
                &&& m.stats[file].last_modified is Some
                &&& (m.stats[file].last_modified->0) + 60_000_000_000 > later
            }
            &&& after.stats.contains_key(file) ==> after.stats[file] == m.stats[file]
            &&& after.repo == m.repo && after.activity == m.activity && after.workdir == m.workdir
                && after.last_commit == m.last_commit
        }),
{
    reveal(Seq::filter);
    assert(m.recent.push(change).drop_last() =~= m.recent);
    assert(m.ignored.push(dir).drop_last() =~= m.ignored);
}

/// A finding that does not answer what was asked changes nothing, and the question stands.
pub proof fn law_only_answers_count(m: Watch, run: Run, finding: Finding)
    requires
        finding is Head ==> !(run.query is Head),
        finding is Ignored ==> !(run.query is Ignored),
        finding is Lines ==> !(run.query is Lines),
        finding is Clock ==> !(run.query is Clock),
    ensures
        crate::model::resumed(m, run, finding) == (m, run),
{
}

/// Paths are shown and put down to directories by what is below the watched directory.
pub proof fn law_paths_are_taken_below_the_watched_directory(m: Watch, path: Seq<u8>)
    ensures
        m.relative(path) == crate::path::relative_to(path, m.workdir),
        ({
            let parts = crate::path::components(crate::path::relative_to(path, m.workdir));
            &&& parts.len() == 0 ==> m.ignored_root(path) is None
            &&& parts.len() > 0 ==> m.ignored_root(path) == Some(
                crate::text::lossy_text(parts[0]),
            )
        }),
{
}

} // verus!
