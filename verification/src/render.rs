//! The screen: what is shown of a watch, as text with terminal colors.

use crate::git::GitReading;
use crate::model::{Change, ChangeType, Commit, Watch, SECOND};
use crate::recency::order_by_recency;
use crate::rows::list_files;
use crate::state::{LastCommit, WatState};
use crate::text::{
    can_cut_end, can_cut_start, cut_end, cut_start, decimal_of, gap_after, path_text, repeat,
    shorten, with_separator,
};
use vstd::prelude::*;

verus! {

/// Back to plain text.
pub const RESET: &'static str = "\x1b[0m";

pub const BOLD: &'static str = "\x1b[1m";

pub const DIM: &'static str = "\x1b[2m";

pub const RED: &'static str = "\x1b[31m";

pub const GREEN: &'static str = "\x1b[32m";

pub const YELLOW: &'static str = "\x1b[33m";

pub const MAGENTA: &'static str = "\x1b[35m";

pub const CYAN: &'static str = "\x1b[36m";

/// What is read for one screen.
pub struct Frame {
    /// The time that ages are counted to.
    pub now: u64,
    /// The time of day in seconds since midnight.
    pub clock: u32,
    /// The columns and rows of the terminal, `None` where they could not be read.
    pub size: Option<(u16, u16)>,
    /// What was read of the repository.
    pub git: GitReading,
}

impl Frame {
    /// The columns and rows to draw for.
    pub open spec fn dimensions(self) -> (u16, u16) {
        match self.size {
            Some(size) => size,
            None => (80, 24),
        }
    }

    /// How many columns there are.
    pub open spec fn width(self) -> nat {
        self.dimensions().0 as nat
    }

    /// How many bytes a message, a list of files or a path may take.
    pub open spec fn text_room(self) -> nat {
        crate::text::less(self.width(), 25)
    }

    /// How many files are listed.
    pub open spec fn row_room(self) -> nat {
        let room = crate::text::less(self.dimensions().1 as nat, 8);
        if room < 20 {
            room
        } else {
            20
        }
    }

    /// How many columns there are.
    fn get_width(&self) -> (width: usize)
        ensures
            width == self.width(),
    {
        match self.size {
            Some(size) => size.0 as usize,
            None => 80,
        }
    }

    /// How many bytes a message, a list of files or a path may take.
    fn get_text_room(&self) -> (room: usize)
        ensures
            room == self.text_room(),
    {
        self.get_width().saturating_sub(25)
    }

    /// How many files are listed.
    fn get_row_room(&self) -> (room: usize)
        ensures
            room == self.row_room(),
    {
        let size: (u16, u16) = match self.size {
            Some(size) => size,
            None => (80, 24),
        };
        let room: usize = (size.1 as usize).saturating_sub(8);
        if room < 20 {
            room
        } else {
            20
        }
    }
}

/// A number below one hundred, in two digits.
pub open spec fn two_digits(n: int) -> Seq<char> {
    seq![crate::text::digit_char(n / 10), crate::text::digit_char(n % 10)]
}

/// The time of day as hours, minutes and seconds.
pub open spec fn clock_text(seconds: int) -> Seq<char> {
    two_digits(seconds / 3600) + ":"@ + two_digits(seconds / 60 % 60) + ":"@ + two_digits(
        seconds % 60,
    )
}

/// `chrono::NaiveTime::format` with `%H:%M:%S`, of the time this many seconds after
/// midnight: hours, minutes and seconds in two digits each, with colons between them.
#[verifier::external_body]
fn format_clock(seconds: u32) -> (text: String)
    requires
        seconds < 86400,
    ensures
        text@ == clock_text(seconds as int),
{
    chrono::NaiveTime::from_num_seconds_from_midnight_opt(seconds, 0)
        .unwrap()
        .format("%H:%M:%S")
        .to_string()
}

/// Text in a color.
pub open spec fn painted(color: Seq<char>, text: Seq<char>) -> Seq<char> {
    color + text + RESET@
}

/// A number behind its sign, as in `+12`.
pub open spec fn signed(sign: Seq<char>, n: nat) -> Seq<char> {
    sign + crate::text::decimal(n)
}

/// Lines added and deleted, in columns of the given widths.
pub open spec fn lines_text(additions: nat, deletions: nat, first: nat, second: nat) -> Seq<char> {
    let (added, deleted) = (signed("+"@, additions), signed("-"@, deletions));
    painted(GREEN@, added) + crate::text::gap(added.len(), first, 1) + painted(RED@, deleted)
        + crate::text::gap(deleted.len(), second, 1)
}

/// How many signs of a bar stand for `n` lines: none for none, and two more each time the
/// number of lines grows fourfold. That is two for each digit of `n` in base four.
pub open spec fn bar_length(n: nat) -> nat
    decreases n,
{
    if n == 0 {
        0
    } else {
        2 + bar_length(n / 4)
    }
}

/// A bar for lines added and deleted.
pub open spec fn bar_text(additions: nat, deletions: nat) -> Seq<char> {
    painted(GREEN@, crate::text::repeated("+"@, bar_length(additions))) + painted(
        RED@,
        crate::text::repeated("-"@, bar_length(deletions)),
    )
}

/// All parts, one after the other.
pub open spec fn joined(parts: Seq<Seq<char>>) -> Seq<char>
    decreases parts.len(),
{
    if parts.len() == 0 {
        Seq::empty()
    } else {
        joined(parts.drop_last()) + parts.last()
    }
}

/// A count behind its sign, nothing where the count is zero.
pub open spec fn count_part(color: Seq<char>, sign: Seq<char>, count: nat) -> Seq<Seq<char>> {
    if count > 0 {
        seq![painted(color, signed(sign, count))]
    } else {
        Seq::empty()
    }
}

/// The title: the watched directory, and the time at the end of the line. It ends three
/// columns before the rule below it does, and stands at least two columns behind the
/// directory.
pub open spec fn title_text(m: Watch, f: Frame) -> Seq<char> {
    let workdir = crate::text::lossy_text(m.workdir);
    " "@ + painted(BOLD@ + CYAN@, "wat"@) + " "@ + painted(DIM@, "|"@) + " "@ + workdir
        + crate::text::gap(workdir.len(), crate::text::less(f.width(), 18), 2) + painted(
        DIM@,
        clock_text(f.clock as int),
    ) + "\r\n"@
}

/// A rule across the screen.
pub open spec fn rule_text(f: Frame) -> Seq<char> {
    painted(DIM@, crate::text::repeated("-"@, f.width())) + "\r\n"@
}

/// The header: the title with a rule below it.
pub open spec fn header_text(m: Watch, f: Frame) -> Seq<char> {
    title_text(m, f) + rule_text(f)
}

/// The state of the repository: lines added and deleted, then counts of files, `*` for
/// dirty ones, `+` for staged ones and `?:` for untracked ones.
pub open spec fn status_text(m: Watch, f: Frame) -> Seq<char> {
    let dirty = crate::git::dirty_count(f.git.entries());
    let staged = crate::git::staged_count(f.git.entries());
    let untracked = crate::git::untracked_count(f.git.entries());
    let (additions, deletions) = (f.git.additions(), f.git.deletions());
    painted(BOLD@, "GIT"@) + "  "@ + (if m.repo is None {
        painted(DIM@, "not a git repo"@)
    } else if dirty == 0 && staged == 0 && untracked == 0 {
        painted(DIM@, "clean"@)
    } else {
        (if additions > 0 || deletions > 0 {
            lines_text(additions as nat, deletions as nat, 7, 8)
        } else {
            Seq::empty()
        }) + crate::text::separated(
            count_part(YELLOW@, "*"@, dirty) + count_part(GREEN@, "+"@, staged) + count_part(
                DIM@,
                "?:"@,
                untracked,
            ),
            " "@,
        )
    })
}

/// What git is doing, if it was seen in the last five seconds.
pub open spec fn activity_text(m: Watch, f: Frame) -> Seq<char> {
    match m.activity {
        Some((activity, time)) => if crate::model::age(f.now, time) < 5 * SECOND {
            "  "@ + painted(MAGENTA@, activity)
        } else {
            Seq::empty()
        },
        None => Seq::empty(),
    }
}

/// How many whole seconds ago the time `t` was.
pub open spec fn seconds_ago(now: u64, t: u64) -> nat {
    crate::model::age(now, t) / (SECOND as nat)
}

/// A time span of whole seconds in the largest unit that it holds one of, in whole units.
pub open spec fn span_text(seconds: nat) -> Seq<char> {
    if seconds < 60 {
        crate::text::decimal(seconds) + "s"@
    } else if seconds < 3600 {
        crate::text::decimal(seconds / 60) + "m"@
    } else if seconds < 86400 {
        crate::text::decimal(seconds / 3600) + "h"@
    } else {
        crate::text::decimal(seconds / 86400) + "d"@
    }
}

/// The color of the age of a commit: one less than a minute old stands out.
pub open spec fn commit_color(ago: nat) -> Seq<char> {
    if ago < 60 {
        GREEN@
    } else {
        DIM@
    }
}

/// The files of a commit, if it has any.
pub open spec fn files_text(files: Seq<Seq<char>>, f: Frame) -> Seq<char> {
    if files.len() == 0 {
        Seq::empty()
    } else {
        "  "@ + painted(
            DIM@,
            crate::text::shortened(crate::text::separated(files, ", "@), f.text_room()),
        ) + "\r\n"@
    }
}

/// How long ago a commit was seen, unless it was there from the start.
pub open spec fn commit_age_text(commit: Commit, f: Frame) -> Seq<char> {
    let ago = seconds_ago(f.now, commit.time);
    if commit.from_start {
        Seq::empty()
    } else {
        crate::text::gap(commit.hash.len(), 11, 1) + painted(commit_color(ago), span_text(ago))
    }
}

/// The last commit: its name and its age, its message, and its files.
pub open spec fn commit_text(m: Watch, f: Frame) -> Seq<char> {
    match m.last_commit {
        Some(commit) => painted(BOLD@, "COMMIT"@) + "\r\n"@ + "  "@ + painted(DIM@, commit.hash)
            + commit_age_text(commit, f) + "\r\n"@ + "  "@ + crate::text::with_end_cut(
            commit.summary,
            f.text_room(),
        ) + "\r\n"@ + files_text(commit.files, f) + "\r\n"@,
        None => Seq::empty(),
    }
}

/// The sign of a change.
pub open spec fn change_sign(change_type: ChangeType) -> Seq<char> {
    match change_type {
        ChangeType::Created => painted(GREEN@, "+"@),
        ChangeType::Modified => painted(YELLOW@, "~"@),
        ChangeType::Deleted => painted(RED@, "-"@),
    }
}

/// The line counts of a file and their bar, if there are any, behind `len` characters of
/// its path.
pub open spec fn stats_text(m: Watch, f: Frame, path: Seq<u8>, len: nat) -> Seq<char> {
    let key = crate::path::components(path);
    let stats = m.stats[key];
    if m.stats.contains_key(key) && (stats.additions > 0 || stats.deletions > 0) {
        crate::text::gap(len, f.text_room(), 1) + lines_text(
            stats.additions as nat,
            stats.deletions as nat,
            5,
            5,
        ) + bar_text(stats.additions as nat, stats.deletions as nat)
    } else {
        Seq::empty()
    }
}

/// The line of the file named by `path`, whose most recent change is `change`: its sign,
/// the path, and the line counts.
pub open spec fn row_text(m: Watch, f: Frame, path: Seq<u8>, change: Change) -> Seq<char> {
    let shown = crate::text::with_start_cut(
        crate::text::lossy_text(m.relative(path)),
        f.text_room(),
    );
    "  "@ + change_sign(change.change_type) + " "@ + shown + stats_text(m, f, path, shown.len())
        + "\r\n"@
}

/// The line of row number `i`.
pub open spec fn nth_row_text(m: Watch, f: Frame, i: int) -> Seq<char> {
    let row = crate::rows::file_rows(m.recent)[i];
    row_text(m, f, m.recent[row.0].path, m.recent[row.1])
}

/// How many rows are shown.
pub open spec fn shown_rows(m: Watch, f: Frame) -> nat {
    let n = crate::rows::file_rows(m.recent).len();
    if n < f.row_room() {
        n
    } else {
        f.row_room()
    }
}

/// The lines of the changed files that there is room for.
pub open spec fn rows_text(m: Watch, f: Frame) -> Seq<char> {
    joined(Seq::new(shown_rows(m, f), |i: int| nth_row_text(m, f, i)))
}

/// How many changed files there is no room for, if there are any.
pub open spec fn more_text(m: Watch, f: Frame) -> Seq<char> {
    let n = crate::rows::file_rows(m.recent).len();
    if n > f.row_room() {
        "  "@ + painted(
            DIM@,
            "... and "@ + crate::text::decimal((n - f.row_room()) as nat) + " more"@,
        ) + "\r\n"@
    } else {
        Seq::empty()
    }
}

/// The list of changed files.
pub open spec fn changes_text(m: Watch, f: Frame) -> Seq<char> {
    painted(BOLD@, "CHANGES"@) + "\r\n"@ + (if m.recent.len() == 0 {
        painted(DIM@, "Nothing"@) + "\r\n"@
    } else {
        rows_text(m, f) + more_text(m, f)
    })
}

/// The ignored directories with activity.
pub open spec fn ignored_text(m: Watch) -> Seq<char> {
    if m.ignored.len() == 0 {
        Seq::empty()
    } else {
        "\r\n"@ + painted(
            DIM@,
            "ignored: "@ + crate::text::separated(
                crate::recency::names_by_recency(m.ignored).map_values(|name: Seq<char>| name + "/"@),
                " "@,
            ),
        ) + "\r\n"@
    }
}

/// The footer.
pub open spec fn footer_text() -> Seq<char> {
    "\r\n"@ + painted(DIM@, "q to quit"@)
}

/// The whole screen.
pub open spec fn screen(m: Watch, f: Frame) -> Seq<char> {
    header_text(m, f) + status_text(m, f) + activity_text(m, f) + "\r\n"@ + "\r\n"@
        + commit_text(m, f) + changes_text(m, f) + ignored_text(m) + footer_text()
}

/// Whether the screen can be drawn: the time is one of a day, the counts fit their types,
/// and the texts that are too long can be shortened between two characters.
pub open spec fn is_drawable(m: Watch, f: Frame) -> bool {
    &&& f.clock < 86400
    &&& m.repo is Some ==> f.git.is_countable()
    &&& match m.last_commit {
        Some(commit) => crate::text::end_can_be_cut(commit.summary, f.text_room()),
        None => true,
    }
    &&& forall|i: int|
        0 <= i < shown_rows(m, f) ==> crate::text::start_can_be_cut(
            crate::text::lossy_text(
                m.relative(m.recent[(#[trigger] crate::rows::file_rows(m.recent)[i]).0].path),
            ),
            f.text_room(),
        )
}

/// Writes text in a color.
fn paint(out: &mut String, color: &str, text: &str)
    ensures
        final(out)@ == old(out)@ + painted(color@, text@),
{
    out.append(color);
    out.append(text);
    out.append(RESET);
    assert(out@ =~= old(out)@ + painted(color@, text@));
}

/// A number behind its sign.
fn with_sign(sign: &str, n: u64) -> (text: String)
    ensures
        text@ == signed(sign@, n as nat),
{
    sign.to_owned().concat(decimal_of(n).as_str())
}

/// Writes lines added and deleted, in columns of the given widths.
fn write_lines(out: &mut String, additions: usize, deletions: usize, first: usize, second: usize)
    ensures
        final(out)@ == old(out)@ + lines_text(
            additions as nat,
            deletions as nat,
            first as nat,
            second as nat,
        ),
{
    let added: String = with_sign("+", additions as u64);
    let deleted: String = with_sign("-", deletions as u64);
    paint(out, GREEN, added.as_str());
    out.append(gap_after(added.as_str(), first, 1).as_str());
    paint(out, RED, deleted.as_str());
    out.append(gap_after(deleted.as_str(), second, 1).as_str());
    assert(out@ =~= old(out)@ + lines_text(
        additions as nat,
        deletions as nat,
        first as nat,
        second as nat,
    ));
}

/// How many signs of a bar stand for `n` lines.
pub fn bar_length_of(n: usize) -> (length: usize)
    ensures
        length == bar_length(n as nat),
        length <= 2 * n,
    decreases n,
{
    if n == 0 {
        0
    } else {
        2 + bar_length_of(n / 4)
    }
}

/// Writes a bar for lines added and deleted.
fn write_bar(out: &mut String, additions: usize, deletions: usize)
    ensures
        final(out)@ == old(out)@ + bar_text(additions as nat, deletions as nat),
{
    let added: String = repeat("+", bar_length_of(additions));
    let deleted: String = repeat("-", bar_length_of(deletions));
    paint(out, GREEN, added.as_str());
    paint(out, RED, deleted.as_str());
    assert(out@ =~= old(out)@ + bar_text(additions as nat, deletions as nat));
}

/// Adds a count behind its sign to the parts, unless it is zero.
fn add_count(parts: &mut Vec<String>, color: &str, sign: &str, count: i32)
    requires
        count >= 0,
    ensures
        crate::text::texts_of(final(parts)@) == crate::text::texts_of(old(parts)@) + count_part(
            color@,
            sign@,
            count as nat,
        ),
{
    if count > 0 {
        let mut part: String = String::new();
        paint(&mut part, color, with_sign(sign, count as u64).as_str());
        assert(part@ =~= painted(color@, signed(sign@, count as nat)));
        parts.push(part);
    }
    assert(crate::text::texts_of(parts@) =~= crate::text::texts_of(old(parts)@) + count_part(
        color@,
        sign@,
        count as nat,
    ));
}

/// Writes the title.
#[verifier::rlimit(40)]
fn write_title(out: &mut String, state: &WatState, frame: &Frame)
    requires
        frame.clock < 86400,
    ensures
        final(out)@ == old(out)@ + title_text(state@, *frame),
{
    let title: String = BOLD.to_owned().concat(CYAN);
    let workdir: String = path_text(state.workdir.as_slice());
    let clock: String = format_clock(frame.clock);
    let room: usize = frame.get_width().saturating_sub(18);
    out.append(" ");
    paint(out, title.as_str(), "wat");
    out.append(" ");
    paint(out, DIM, "|");
    out.append(" ");
    out.append(workdir.as_str());
    out.append(gap_after(workdir.as_str(), room, 2).as_str());
    paint(out, DIM, clock.as_str());
    out.append("\r\n");
    assert(out@ =~= old(out)@ + title_text(state@, *frame));
}

/// Writes a rule across the screen.
fn write_rule(out: &mut String, frame: &Frame)
    ensures
        final(out)@ == old(out)@ + rule_text(*frame),
{
    paint(out, DIM, repeat("-", frame.get_width()).as_str());
    out.append("\r\n");
    assert(out@ =~= old(out)@ + rule_text(*frame));
}

/// Writes the state of the repository.
fn write_status(out: &mut String, state: &WatState, frame: &Frame)
    requires
        state@.repo is Some ==> frame.git.is_countable(),
    ensures
        final(out)@ == old(out)@ + status_text(state@, *frame),
{
    let (dirty, staged, untracked, additions, deletions) = state.get_git_status(&frame.git);
    paint(out, BOLD, "GIT");
    out.append("  ");
    if state.repo.is_none() {
        paint(out, DIM, "not a git repo");
    } else if dirty == 0 && staged == 0 && untracked == 0 {
        paint(out, DIM, "clean");
    } else {
        let mut parts: Vec<String> = Vec::new();
        assert(crate::text::texts_of(parts@) =~= Seq::<Seq<char>>::empty());
        add_count(&mut parts, YELLOW, "*", dirty);
        add_count(&mut parts, GREEN, "+", staged);
        add_count(&mut parts, DIM, "?:", untracked);
        let counts: String = with_separator(&parts, " ");
        assert(crate::text::texts_of(parts@) =~= count_part(YELLOW@, "*"@, dirty as nat)
            + count_part(GREEN@, "+"@, staged as nat) + count_part(DIM@, "?:"@, untracked as nat));
        if additions > 0 || deletions > 0 {
            write_lines(out, additions, deletions, 7, 8);
        }
        out.append(counts.as_str());
    }
    assert(out@ =~= old(out)@ + status_text(state@, *frame));
}

/// Writes what git is doing.
fn write_activity(out: &mut String, state: &WatState, frame: &Frame)
    ensures
        final(out)@ == old(out)@ + activity_text(state@, *frame),
{
    if let Some((activity, time)) = &state.last_git_activity {
        if frame.now.saturating_sub(*time) < 5 * SECOND {
            out.append("  ");
            paint(out, MAGENTA, activity.as_str());
        }
    }
    assert(out@ =~= old(out)@ + activity_text(state@, *frame));
}

/// How many whole seconds ago the time `t` was.
fn seconds_since(now: u64, t: u64) -> (ago: u64)
    ensures
        ago == seconds_ago(now, t),
{
    now.saturating_sub(t) / SECOND
}

/// A time span of whole seconds in the largest unit that it holds one of.
pub fn span_text_of(seconds: u64) -> (text: String)
    ensures
        text@ == span_text(seconds as nat),
{
    if seconds < 60 {
        decimal_of(seconds).concat("s")
    } else if seconds < 3600 {
        decimal_of(seconds / 60).concat("m")
    } else if seconds < 86400 {
        decimal_of(seconds / 3600).concat("h")
    } else {
        decimal_of(seconds / 86400).concat("d")
    }
}

/// Writes the files of a commit.
fn write_files(out: &mut String, files: &Vec<String>, frame: &Frame)
    ensures
        final(out)@ == old(out)@ + files_text(crate::text::texts_of(files@), *frame),
{
    if files.len() > 0 {
        let list: String = with_separator(files, ", ");
        out.append("  ");
        paint(out, DIM, shorten(list.as_str(), frame.get_text_room()).as_str());
        out.append("\r\n");
    }
    assert(out@ =~= old(out)@ + files_text(crate::text::texts_of(files@), *frame));
}

/// Writes how long ago a commit was seen.
fn write_commit_age(out: &mut String, commit: &LastCommit, frame: &Frame)
    ensures
        final(out)@ == old(out)@ + commit_age_text(commit@, *frame),
{
    if !commit.from_start {
        let ago: u64 = seconds_since(frame.now, commit.time);
        let color: &str = if ago < 60 {
            GREEN
        } else {
            DIM
        };
        out.append(gap_after(commit.hash.as_str(), 11, 1).as_str());
        paint(out, color, span_text_of(ago).as_str());
    }
    assert(out@ =~= old(out)@ + commit_age_text(commit@, *frame));
}

/// Writes the last commit.
#[verifier::rlimit(40)]
fn write_commit(out: &mut String, state: &WatState, frame: &Frame)
    requires
        is_drawable(state@, *frame),
    ensures
        final(out)@ == old(out)@ + commit_text(state@, *frame),
{
    if let Some(commit) = &state.last_commit {
        let summary: String = cut_end(commit.summary.as_str(), frame.get_text_room());
        paint(out, BOLD, "COMMIT");
        out.append("\r\n");
        out.append("  ");
        paint(out, DIM, commit.hash.as_str());
        write_commit_age(out, commit, frame);
        out.append("\r\n");
        out.append("  ");
        out.append(summary.as_str());
        out.append("\r\n");
        write_files(out, &commit.files, frame);
        out.append("\r\n");
    }
    assert(out@ =~= old(out)@ + commit_text(state@, *frame));
}

/// Writes the sign of a change.
fn write_sign(out: &mut String, change_type: ChangeType)
    ensures
        final(out)@ == old(out)@ + change_sign(change_type),
{
    match change_type {
        ChangeType::Created => paint(out, GREEN, "+"),
        ChangeType::Modified => paint(out, YELLOW, "~"),
        ChangeType::Deleted => paint(out, RED, "-"),
    }
}

/// Writes the line counts of the file named by `path`, whose path was written as `shown`.
fn write_stats(out: &mut String, state: &WatState, frame: &Frame, path: &[u8], shown: &str)
    requires
        state.wf(),
    ensures
        final(out)@ == old(out)@ + stats_text(state@, *frame, path@, shown@.len()),
{
    if let Some(stats) = state.stats_of(path) {
        if stats.additions > 0 || stats.deletions > 0 {
            out.append(gap_after(shown, frame.get_text_room(), 1).as_str());
            write_lines(out, stats.additions, stats.deletions, 5, 5);
            write_bar(out, stats.additions, stats.deletions);
        }
    }
    assert(out@ =~= old(out)@ + stats_text(state@, *frame, path@, shown@.len()));
}

/// Writes the line of the file that change number `first` names, whose most recent change
/// is number `latest`.
#[verifier::rlimit(40)]
fn write_row(out: &mut String, state: &WatState, frame: &Frame, first: usize, latest: usize)
    requires
        state.wf(),
        first < state.recent_changes@.len(),
        latest < state.recent_changes@.len(),
        crate::text::start_can_be_cut(
            crate::text::lossy_text(state@.relative(state@.recent[first as int].path)),
            frame.text_room(),
        ),
    ensures
        final(out)@ == old(out)@ + row_text(
            state@,
            *frame,
            state@.recent[first as int].path,
            state@.recent[latest as int],
        ),
{
    let ghost path = state@.recent[first as int].path;
    let ghost change = state@.recent[latest as int];
    assert(path == state.recent_changes@[first as int].path@);
    assert(change == state.recent_changes@[latest as int]@);
    let shown: String = state.relative_path(state.recent_changes[first].path.as_slice());
    let shown: String = cut_start(shown.as_str(), frame.get_text_room());
    out.append("  ");
    write_sign(out, state.recent_changes[latest].change_type);
    out.append(" ");
    out.append(shown.as_str());
    write_stats(out, state, frame, state.recent_changes[first].path.as_slice(), shown.as_str());
    out.append("\r\n");
    assert(out@ =~= old(out)@ + row_text(state@, *frame, path, change));
}

/// Writes the lines of the changed files that there is room for. The result is how many
/// files there are.
#[verifier::rlimit(40)]
fn write_rows(out: &mut String, state: &WatState, frame: &Frame) -> (count: usize)
    requires
        state.wf(),
        is_drawable(state@, *frame),
    ensures
        final(out)@ == old(out)@ + rows_text(state@, *frame),
        count == crate::rows::file_rows(state@.recent).len(),
{
    let ghost m = state@;
    let ghost line = |i: int| nth_row_text(m, *frame, i);
    let rows: Vec<(usize, usize)> = list_files(&state.recent_changes);
    let room: usize = frame.get_row_room();
    proof {
        crate::rows::law_one_row_for_each_file(m.recent);
    }
    let ghost all = crate::rows::file_rows(m.recent);
    assert(all.len() == rows@.len());
    let mut i: usize = 0;
    assert(out@ =~= old(out)@ + joined(Seq::new(0, line)));
    while i < rows.len() && i < room
        invariant
            state.wf(),
            is_drawable(state@, *frame),
            m == state@,
            line == (|i: int| nth_row_text(m, *frame, i)),
            all == crate::rows::file_rows(m.recent),
            all == crate::rows::as_rows(rows@),
            all.len() == rows@.len(),
            crate::rows::lists_files(m.recent, m.recent.len() as int, all),
            room == frame.row_room(),
            i <= rows@.len(),
            i <= room,
            out@ == old(out)@ + joined(Seq::new(i as nat, line)),
        decreases rows@.len() - i,
    {
        assert(all[i as int] == (rows@[i as int].0 as int, rows@[i as int].1 as int));
        assert(crate::rows::is_row(m.recent, m.recent.len() as int, all[i as int]));
        let ghost before = out@;
        write_row(out, state, frame, rows[i].0, rows[i].1);
        proof {
            assert(Seq::new((i + 1) as nat, line).drop_last() =~= Seq::new(i as nat, line));
            assert(out@ =~= before + line(i as int));
            assert(out@ =~= old(out)@ + joined(Seq::new((i + 1) as nat, line)));
        }
        i += 1;
    }
    assert(i == shown_rows(m, *frame));
    rows.len()
}

/// Writes the list of changed files.
#[verifier::rlimit(40)]
fn write_changes(out: &mut String, state: &WatState, frame: &Frame)
    requires
        state.wf(),
        is_drawable(state@, *frame),
    ensures
        final(out)@ == old(out)@ + changes_text(state@, *frame),
{
    paint(out, BOLD, "CHANGES");
    out.append("\r\n");
    if state.recent_changes.len() == 0 {
        paint(out, DIM, "Nothing");
        out.append("\r\n");
    } else {
        let count: usize = write_rows(out, state, frame);
        let room: usize = frame.get_row_room();
        if count > room {
            let more: String = "... and ".to_owned().concat(
                decimal_of((count - room) as u64).as_str(),
            ).concat(" more");
            out.append("  ");
            paint(out, DIM, more.as_str());
            out.append("\r\n");
        }
    }
    assert(out@ =~= old(out)@ + changes_text(state@, *frame));
}

/// Writes the ignored directories with activity.
fn write_ignored(out: &mut String, state: &WatState)
    ensures
        final(out)@ == old(out)@ + ignored_text(state@),
{
    if state.ignored_dirs.len() == 0 {
        assert(out@ =~= old(out)@ + ignored_text(state@));
        return ;
    }
    let ghost entries = state@.ignored;
    let order: Vec<usize> = order_by_recency(&state.ignored_dirs);
    let ghost names = crate::recency::names_by_recency(entries).map_values(
        |name: Seq<char>| name + "/"@,
    );
    let mut labels: Vec<String> = Vec::new();
    let mut i: usize = 0;
    while i < order.len()
        invariant
            entries == crate::state::entries_of(state.ignored_dirs@),
            names == crate::recency::names_by_recency(entries).map_values(
                |name: Seq<char>| name + "/"@,
            ),
            crate::recency::as_order(order@) == crate::recency::recency_order(entries),
            forall|j: int|
                0 <= j < order@.len() ==> (#[trigger] order@[j]) < state.ignored_dirs@.len(),
            i <= order@.len(),
            labels@.len() == i,
            forall|j: int| 0 <= j < i ==> (#[trigger] labels@[j])@ == names[j],
        decreases order@.len() - i,
    {
        let label: String = state.ignored_dirs[order[i]].name.clone().concat("/");
        assert(label@ == names[i as int]) by {
            assert(crate::recency::as_order(order@)[i as int] == order@[i as int]);
        }
        labels.push(label);
        i += 1;
    }
    assert(crate::text::texts_of(labels@) =~= names) by {
        assert(crate::recency::as_order(order@).len() == order@.len());
    }
    let list: String = "ignored: ".to_owned().concat(with_separator(&labels, " ").as_str());
    out.append("\r\n");
    paint(out, DIM, list.as_str());
    out.append("\r\n");
    assert(out@ =~= old(out)@ + ignored_text(state@));
}

/// Draws the screen.
#[verifier::rlimit(40)]
pub fn render(state: &WatState, frame: &Frame) -> (text: String)
    requires
        state.wf(),
        is_drawable(state@, *frame),
    ensures
        text@ == screen(state@, *frame),
{
    let mut out: String = String::new();
    write_title(&mut out, state, frame);
    write_rule(&mut out, frame);
    write_status(&mut out, state, frame);
    write_activity(&mut out, state, frame);
    out.append("\r\n");
    out.append("\r\n");
    write_commit(&mut out, state, frame);
    write_changes(&mut out, state, frame);
    write_ignored(&mut out, state);
    out.append("\r\n");
    paint(&mut out, DIM, "q to quit");
    assert(out@ =~= screen(state@, *frame));
    out
}

/// Whether the screen can be drawn.
pub fn can_render(state: &WatState, frame: &Frame) -> (r: bool)
    requires
        state.wf(),
    ensures
        r == is_drawable(state@, *frame),
{
    let ghost m = state@;
    if frame.clock >= 86400 || (state.repo.is_some() && !frame.git.can_be_counted()) {
        return false;
    }
    let room: usize = frame.get_text_room();
    if let Some(commit) = &state.last_commit {
        if !can_cut_end(commit.summary.as_str(), room) {
            return false;
        }
    }
    let rows: Vec<(usize, usize)> = list_files(&state.recent_changes);
    let row_room: usize = frame.get_row_room();
    proof {
        crate::rows::law_one_row_for_each_file(m.recent);
    }
    let ghost all = crate::rows::file_rows(m.recent);
    assert(all.len() == rows@.len());
    let mut i: usize = 0;
    while i < rows.len() && i < row_room
        invariant
            m == state@,
            all == crate::rows::file_rows(m.recent),
            all == crate::rows::as_rows(rows@),
            all.len() == rows@.len(),
            crate::rows::lists_files(m.recent, m.recent.len() as int, all),
            room == frame.text_room(),
            row_room == frame.row_room(),
            i <= rows@.len(),
            i <= row_room,
            forall|j: int|
                0 <= j < i ==> crate::text::start_can_be_cut(
                    crate::text::lossy_text(m.relative(m.recent[(#[trigger] all[j]).0].path)),
                    frame.text_room(),
                ),
        decreases rows@.len() - i,
    {
        assert(all[i as int] == (rows@[i as int].0 as int, rows@[i as int].1 as int));
        assert(crate::rows::is_row(m.recent, m.recent.len() as int, all[i as int]));
        let first: usize = rows[i].0;
        assert(m.recent[first as int].path == state.recent_changes@[first as int].path@);
        let path: String = state.relative_path(state.recent_changes[first].path.as_slice());
        if !can_cut_start(path.as_str(), room) {
            return false;
        }
        i += 1;
    }
    true
}

/// Draws the screen if it can be drawn.
pub fn try_render(state: &WatState, frame: &Frame) -> (text: Option<String>)
    requires
        state.wf(),
    ensures
        match text {
            Some(text) => is_drawable(state@, *frame) && text@ == screen(state@, *frame),
            None => !is_drawable(state@, *frame),
        },
{
    if can_render(state, frame) {
        Some(render(state, frame))
    } else {
        None
    }
}

/// No more than twenty files are listed, and those listed and those only counted are all
/// there are.
pub proof fn law_every_file_is_listed_or_counted(m: Watch, f: Frame)
    ensures
        shown_rows(m, f) <= 20,
        shown_rows(m, f) + crate::text::less(
            crate::rows::file_rows(m.recent).len(),
            f.row_room(),
        ) == crate::rows::file_rows(m.recent).len(),
{
}

proof fn lemma_repeated_len(part: Seq<char>, n: nat)
    requires
        part.len() == 1,
    ensures
        crate::text::repeated(part, n).len() == n,
    decreases n,
{
    if n > 0 {
        lemma_repeated_len(part, (n - 1) as nat);
    }
}

/// The title ends with the time, three columns before the end of the line wherever the
/// directory leaves two columns before it, and the rule below it is as wide as the screen.
pub proof fn law_title_fills_the_line(workdir: Seq<char>, f: Frame)
    requires
        workdir.len() + 20 <= f.width(),
    ensures
        " "@.len() + "wat"@.len() + " "@.len() + "|"@.len() + " "@.len() + workdir.len()
            + crate::text::gap(workdir.len(), crate::text::less(f.width(), 18), 2).len()
            + clock_text(f.clock as int).len() + 3 == f.width(),
        crate::text::repeated("-"@, f.width()).len() == f.width(),
{
    reveal_strlit("wat");
    reveal_strlit(" ");
    reveal_strlit("|");
    reveal_strlit("-");
    reveal_strlit(":");
    lemma_repeated_len(" "@, (f.width() - 18 - workdir.len()) as nat);
    lemma_repeated_len("-"@, f.width());
}

/// A bar has signs exactly where there are lines, and more lines never make it shorter.
pub proof fn law_bar_grows(few: nat, many: nat)
    requires
        few <= many,
    ensures
        bar_length(few) == 0 <==> few == 0,
        bar_length(few) <= bar_length(many),
    decreases many,
{
    if few > 0 {
        law_bar_grows(few / 4, many / 4);
    }
}

/// A commit that was there when the watch started is shown without an age, at any time.
pub proof fn law_first_commit_has_no_age(
    path: Seq<u8>,
    workdir: Option<Seq<u8>>,
    head: crate::git::HeadCommit,
    start: u64,
    f: Frame,
)
    ensures
        commit_text(Watch::started(path, Some(workdir), Some(head), start), f) == painted(
            BOLD@,
            "COMMIT"@,
        ) + "\r\n"@ + "  "@ + painted(DIM@, head.short_hash()) + "\r\n"@ + "  "@
            + crate::text::with_end_cut(head.summary(), f.text_room()) + "\r\n"@ + files_text(
            head.file_names(),
            f,
        ) + "\r\n"@,
{
    let m = Watch::started(path, Some(workdir), Some(head), start);
    let hash = painted(BOLD@, "COMMIT"@) + "\r\n"@ + "  "@ + painted(DIM@, head.short_hash());
    assert(hash + commit_age_text(m.last_commit->0, f) =~= hash);
}

/// Without a repository the screen does not depend on what was read of one.
pub proof fn law_no_repository_no_status(m: Watch, f: Frame, g: Frame)
    requires
        m.repo is None,
        f.now == g.now,
        f.clock == g.clock,
        f.size == g.size,
    ensures
        screen(m, f) == screen(m, g),
{
    let lines_f = Seq::new(shown_rows(m, f), |i: int| nth_row_text(m, f, i));
    let lines_g = Seq::new(shown_rows(m, g), |i: int| nth_row_text(m, g, i));
    assert(lines_f =~= lines_g);
}

/// A screen of ASCII texts can be drawn on every terminal with room for the dots.
pub proof fn law_ascii_is_drawable(m: Watch, f: Frame)
    requires
        f.clock < 86400,
        m.repo is Some ==> f.git.is_countable(),
        f.dimensions().0 >= 28,
        match m.last_commit {
            Some(commit) => vstd::utf8::is_ascii_chars(commit.summary),
            None => true,
        },
        forall|i: int|
            0 <= i < m.recent.len() ==> vstd::utf8::is_ascii_chars(
                crate::text::lossy_text(m.relative((#[trigger] m.recent[i]).path)),
            ),
    ensures
        is_drawable(m, f),
{
    if let Some(commit) = m.last_commit {
        crate::text::law_ascii_can_be_cut(commit.summary, f.text_room());
    }
    crate::rows::law_one_row_for_each_file(m.recent);
    let rows = crate::rows::file_rows(m.recent);
    assert forall|i: int| 0 <= i < shown_rows(m, f) implies crate::text::start_can_be_cut(
        crate::text::lossy_text(m.relative(m.recent[(#[trigger] rows[i]).0].path)),
        f.text_room(),
    ) by {
        assert(crate::rows::is_row(m.recent, m.recent.len() as int, rows[i]));
        crate::text::law_ascii_can_be_cut(
            crate::text::lossy_text(m.relative(m.recent[rows[i].0].path)),
            f.text_room(),
        );
    }
}

} // verus!
