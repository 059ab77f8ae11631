//! What stands on the screen.

use crate::model::{Change, ChangeType, Watch};
use crate::render::{Frame, BOLD, CYAN, DIM, GREEN, MAGENTA, RED, RESET, YELLOW};
use vstd::prelude::*;

verus! {

/// This many spaces.
pub open spec fn spaces(n: nat) -> Seq<char> {
    Seq::new(n, |i: int| ' ')
}

/// A number below one hundred with a zero in front where it has one digit.
pub open spec fn zero_padded(n: nat) -> Seq<char> {
    if n < 10 {
        "0"@ + crate::text::decimal(n)
    } else {
        crate::text::decimal(n)
    }
}

/// The columns or rows that are left of `n` when `k` are taken.
pub open spec fn left_of(n: u16, k: nat) -> nat {
    if n < k {
        0
    } else {
        (n - k) as nat
    }
}

proof fn lemma_occurs(whole: Seq<char>, before: Seq<char>, part: Seq<char>, after: Seq<char>)
    requires
        whole == before + part + after,
    ensures
        crate::text::occurs_in(whole, part),
{
    crate::text::law_occurs(before, part, after, whole);
}

/// Eight texts in a row, read in groups.
proof fn lemma_groups(
    head: Seq<char>,
    status: Seq<char>,
    activity: Seq<char>,
    end: Seq<char>,
    commit: Seq<char>,
    changes: Seq<char>,
    ignored: Seq<char>,
    foot: Seq<char>,
)
    ensures
        ({
            let all = head + status + activity + end + end + commit + changes + ignored + foot;
            &&& all == head + (status + activity + end + end) + (commit + changes + ignored + foot)
            &&& all == (head + status + activity) + (end + end + commit + changes) + (ignored + foot)
            &&& all == (head + status + activity + end + end + commit) + (changes + ignored + foot)
                + Seq::empty()
            &&& all == (head + status + activity + end + end + commit + changes) + (ignored + foot)
                + Seq::empty()
            &&& head.is_prefix_of(all)
            &&& foot.is_suffix_of(all)
        }),
{
    let all = head + status + activity + end + end + commit + changes + ignored + foot;
    assert(all =~= head + (status + activity + end + end) + (commit + changes + ignored + foot));
    assert(all =~= (head + status + activity) + (end + end + commit + changes) + (ignored + foot));
    assert(all =~= (head + status + activity + end + end + commit) + (changes + ignored + foot)
        + Seq::empty());
    assert(all =~= (head + status + activity + end + end + commit + changes) + (ignored + foot)
        + Seq::empty());
    assert(head =~= all.subrange(0, head.len() as int));
    assert(foot =~= all.subrange(all.len() - foot.len(), all.len() as int));
}

/// The screen has these parts, from top to bottom: the title and the rule, the state of the
/// repository and what git is doing on one line, an empty line, the last commit, the changed
/// files, the ignored directories, and the footer.
pub proof fn law_parts_of_the_screen(m: Watch, f: Frame)
    ensures
        ({
            let all = crate::render::screen(m, f);
            let head = crate::render::title_text(m, f) + crate::render::rule_text(f);
            let line = crate::render::status_text(m, f) + crate::render::activity_text(m, f)
                + "\r\n"@ + "\r\n"@;
            let commit = crate::render::commit_text(m, f);
            let changes = crate::render::changes_text(m, f);
            let ignored = crate::render::ignored_text(m);
            let foot = "\r\n"@ + (DIM@ + "q to quit"@ + RESET@);
            &&& all == head + line + (commit + changes + ignored + foot)
            &&& head.is_prefix_of(all)
            &&& foot.is_suffix_of(all)
            &&& crate::text::occurs_in(all, line)
            &&& crate::text::occurs_in(all, "\r\n"@ + "\r\n"@ + commit + changes)
            &&& crate::text::occurs_in(all, changes + ignored + foot)
            &&& crate::text::occurs_in(all, ignored + foot)
        }),
{
    let all = crate::render::screen(m, f);
    let head = crate::render::title_text(m, f) + crate::render::rule_text(f);
    let (status, activity) = (crate::render::status_text(m, f), crate::render::activity_text(m, f));
    let end = "\r\n"@;
    let commit = crate::render::commit_text(m, f);
    let changes = crate::render::changes_text(m, f);
    let ignored = crate::render::ignored_text(m);
    let foot = end + (DIM@ + "q to quit"@ + RESET@);
    lemma_groups(head, status, activity, end, commit, changes, ignored, foot);
    lemma_occurs(
        all,
        head,
        status + activity + end + end,
        commit + changes + ignored + foot,
    );
    lemma_occurs(all, head + status + activity, end + end + commit + changes, ignored + foot);
    lemma_occurs(
        all,
        head + status + activity + end + end + commit,
        changes + ignored + foot,
        Seq::empty(),
    );
    lemma_occurs(
        all,
        head + status + activity + end + end + commit + changes,
        ignored + foot,
        Seq::empty(),
    );
}

/// A terminal whose size could not be read is taken to have eighty columns and twenty-four
/// rows.
pub proof fn law_size_of_an_unknown_terminal(m: Watch, f: Frame)
    requires
        f.size is None,
    ensures
        crate::render::screen(m, f) == crate::render::screen(m, Frame { size: Some((80, 24)), ..f }),
        crate::render::is_drawable(m, f) == crate::render::is_drawable(
            m,
            Frame { size: Some((80, 24)), ..f },
        ),
{
    let g = Frame { size: Some((80, 24)), ..f };
    let lines_f = Seq::new(
        crate::render::shown_rows(m, f),
        |i: int| crate::render::nth_row_text(m, f, i),
    );
    let lines_g = Seq::new(
        crate::render::shown_rows(m, g),
        |i: int| crate::render::nth_row_text(m, g, i),
    );
    assert(lines_f =~= lines_g);
    assert(crate::render::rows_text(m, f) == crate::render::rows_text(m, g));
    assert(crate::render::changes_text(m, f) == crate::render::changes_text(m, g));
    assert(crate::render::commit_text(m, f) == crate::render::commit_text(m, g));
    assert(crate::render::status_text(m, f) == crate::render::status_text(m, g));
    assert(crate::render::title_text(m, f) == crate::render::title_text(m, g));
}

proof fn lemma_zero_padded(n: nat)
    requires
        n < 100,
    ensures
        crate::render::two_digits(n as int) == zero_padded(n),
{
    reveal_strlit("0");
    reveal_with_fuel(crate::text::decimal, 2);
    assert(crate::render::two_digits(n as int) =~= zero_padded(n));
}

/// The screen starts with the name of the program and the watched directory. The time ends
/// that line, hours, minutes and seconds in two digits each, three columns before the last
/// one where the directory leaves room. A rule across the screen follows.
#[verifier::rlimit(40)]
pub proof fn law_head_of_the_screen(
    m: Watch,
    f: Frame,
    w: u16,
    h: u16,
    hours: nat,
    minutes: nat,
    seconds: nat,
)
    requires
        f.size == Some((w, h)),
        hours < 24,
        minutes < 60,
        seconds < 60,
        f.clock == 3600 * hours + 60 * minutes + seconds,
    ensures
        ({
            let directory = crate::text::lossy_text(m.workdir);
            let gap = if directory.len() + 20 <= w {
                (w - 18 - directory.len()) as nat
            } else {
                2
            };
            let title = " "@ + (BOLD@ + CYAN@ + "wat"@ + RESET@) + " "@ + (DIM@ + "|"@ + RESET@)
                + " "@ + directory + spaces(gap) + (DIM@ + (zero_padded(hours) + ":"@ + zero_padded(
                minutes,
            ) + ":"@ + zero_padded(seconds)) + RESET@) + "\r\n"@;
            let rule = DIM@ + Seq::new(w as nat, |i: int| '-') + RESET@ + "\r\n"@;
            (title + rule).is_prefix_of(crate::render::screen(m, f))
        }),
{
    let directory = crate::text::lossy_text(m.workdir);
    let gap = if directory.len() + 20 <= w {
        (w - 18 - directory.len()) as nat
    } else {
        2
    };
    let clock = f.clock as int;
    assert(clock / 3600 == hours);
    assert(clock / 60 == 60 * hours + minutes);
    assert(clock / 60 % 60 == minutes);
    assert(clock % 60 == seconds);
    lemma_zero_padded(hours);
    lemma_zero_padded(minutes);
    lemma_zero_padded(seconds);
    crate::text::law_gap(directory.len(), crate::text::less(f.width(), 18), 2);
    assert(crate::text::gap(directory.len(), crate::text::less(f.width(), 18), 2) =~= spaces(gap));
    crate::text::law_repeated("-"@, 0, w as nat);
    reveal_strlit("-");
    assert(crate::text::repeated("-"@, w as nat) =~= Seq::new(w as nat, |i: int| '-'));
    law_parts_of_the_screen(m, f);
}

/// What git is doing is on the line of the repository's state, behind two spaces, for five
/// seconds; then nothing is.
#[verifier::rlimit(40)]
pub proof fn law_activity_shows_for_five_seconds(m: Watch, f: Frame, activity: Seq<char>, t: u64)
    requires
        m.activity == Some((activity, t)),
    ensures
        f.now < t + 5_000_000_000 ==> crate::text::occurs_in(
            crate::render::screen(m, f),
            crate::render::status_text(m, f) + ("  "@ + (MAGENTA@ + activity + RESET@)) + "\r\n"@
                + "\r\n"@,
        ),
        f.now >= t + 5_000_000_000 ==> crate::text::occurs_in(
            crate::render::screen(m, f),
            crate::render::status_text(m, f) + "\r\n"@ + "\r\n"@,
        ),
{
    law_parts_of_the_screen(m, f);
    let status = crate::render::status_text(m, f);
    assert(status + Seq::<char>::empty() =~= status);
}

/// Where git was never seen at work, nothing is behind the repository's state.
pub proof fn law_no_activity(m: Watch, f: Frame)
    requires
        m.activity is None,
    ensures
        crate::text::occurs_in(
            crate::render::screen(m, f),
            crate::render::status_text(m, f) + "\r\n"@ + "\r\n"@,
        ),
{
    law_parts_of_the_screen(m, f);
    let status = crate::render::status_text(m, f);
    assert(status + Seq::<char>::empty() =~= status);
}

proof fn lemma_lacks_add(a: Seq<char>, b: Seq<char>, c: char)
    requires
        !a.contains(c),
        !b.contains(c),
    ensures
        !(a + b).contains(c),
{
    if (a + b).contains(c) {
        let i = choose|i: int| 0 <= i < (a + b).len() && (a + b)[i] == c;
        if i < a.len() {
            assert(a.contains(a[i]));
        } else {
            assert(b.contains(b[i - a.len()]));
        }
    }
}

proof fn lemma_lacks_painted(color: Seq<char>, text: Seq<char>, c: char)
    requires
        !color.contains(c),
        !text.contains(c),
        !RESET@.contains(c),
    ensures
        !crate::render::painted(color, text).contains(c),
{
    lemma_lacks_add(color, text, c);
    lemma_lacks_add(color + text, RESET@, c);
}

proof fn lemma_lacks_signed(sign: Seq<char>, n: nat, c: char)
    requires
        !sign.contains(c),
        !('0' <= c <= '9'),
    ensures
        !crate::render::signed(sign, n).contains(c),
{
    crate::text::law_decimal(n);
    lemma_lacks_add(sign, crate::text::decimal(n), c);
}

proof fn lemma_lacks_lines(a: nat, d: nat, x: nat, y: nat, c: char)
    requires
        !('0' <= c <= '9'),
        c == 'c' || c == '*' || c == '?',
    ensures
        !crate::render::lines_text(a, d, x, y).contains(c),
{
    lemma_colors_lack(c);
    let (added, deleted) = (crate::render::signed("+"@, a), crate::render::signed("-"@, d));
    lemma_lacks_signed("+"@, a, c);
    lemma_lacks_signed("-"@, d, c);
    lemma_lacks_painted(GREEN@, added, c);
    lemma_lacks_painted(RED@, deleted, c);
    crate::text::law_gap(added.len(), x, 1);
    crate::text::law_gap(deleted.len(), y, 1);
    let (g, h) = (crate::text::gap(added.len(), x, 1), crate::text::gap(deleted.len(), y, 1));
    let (p, q) = (crate::render::painted(GREEN@, added), crate::render::painted(RED@, deleted));
    lemma_lacks_add(p, g, c);
    lemma_lacks_add(p + g, q, c);
    lemma_lacks_add(p + g + q, h, c);
}

/// Colors and signs hold none of the characters that tell a status apart.
proof fn lemma_colors_lack(c: char)
    requires
        c == 'c' || c == '*' || c == '?' || c == '+' || c == '-',
    ensures
        !GREEN@.contains(c),
        !RED@.contains(c),
        !YELLOW@.contains(c),
        !DIM@.contains(c),
        !BOLD@.contains(c),
        !RESET@.contains(c),
        !"GIT"@.contains(c),
        !" "@.contains(c),
        !"  "@.contains(c),
        c != '+' ==> !"+"@.contains(c),
        c != '-' ==> !"-"@.contains(c),
        c != '*' ==> !"*"@.contains(c),
        c != '?' ==> !"?:"@.contains(c),
{
    reveal_strlit("\x1b[32m");
    reveal_strlit("\x1b[31m");
    reveal_strlit("\x1b[33m");
    reveal_strlit("\x1b[2m");
    reveal_strlit("\x1b[1m");
    reveal_strlit("\x1b[0m");
    reveal_strlit("GIT");
    reveal_strlit(" ");
    reveal_strlit("  ");
    reveal_strlit("+");
    reveal_strlit("-");
    reveal_strlit("*");
    reveal_strlit("?:");
}

proof fn lemma_separated_lacks(parts: Seq<Seq<char>>, separator: Seq<char>, c: char)
    requires
        !separator.contains(c),
        forall|i: int| 0 <= i < parts.len() ==> !(#[trigger] parts[i]).contains(c),
    ensures
        !crate::text::separated(parts, separator).contains(c),
    decreases parts.len(),
{
    if parts.len() > 1 {
        let some = parts.drop_last();
        lemma_separated_lacks(some, separator, c);
        let before = crate::text::separated(some, separator);
        assert(!parts[parts.len() - 1].contains(c));
        lemma_lacks_add(before, separator, c);
        lemma_lacks_add(before + separator, parts.last(), c);
    }
}

/// Each part occurs in the separated parts, with a separator before the one behind it.
proof fn lemma_separated_parts(parts: Seq<Seq<char>>, separator: Seq<char>, i: int)
    requires
        0 <= i < parts.len(),
    ensures
        crate::text::occurs_in(crate::text::separated(parts, separator), parts[i]),
        i + 1 < parts.len() ==> crate::text::occurs_in(
            crate::text::separated(parts, separator),
            parts[i] + separator + parts[i + 1],
        ),
        parts[0].is_prefix_of(crate::text::separated(parts, separator)),
        parts.last().is_suffix_of(crate::text::separated(parts, separator)),
    decreases parts.len(),
{
    let all = crate::text::separated(parts, separator);
    let nothing = Seq::<char>::empty();
    if parts.len() == 1 {
        assert(all =~= nothing + all + nothing);
        lemma_occurs(all, nothing, parts[0], nothing);
        assert(all =~= all.subrange(0, all.len() as int));
    } else {
        let some = parts.drop_last();
        let before = crate::text::separated(some, separator);
        let last = parts.last();
        assert(all == before + separator + last);
        assert(all =~= (before + separator) + last + nothing);
        lemma_occurs(all, before + separator, last, nothing);
        assert(all =~= nothing + before + (separator + last));
        lemma_occurs(all, nothing, before, separator + last);
        assert(last =~= all.subrange(all.len() - last.len(), all.len() as int));
        if i < some.len() {
            lemma_separated_parts(some, separator, i);
            crate::text::law_occurs_within(all, before, parts[i]);
            if i + 1 < some.len() {
                crate::text::law_occurs_within(all, before, parts[i] + separator + parts[i + 1]);
            } else {
                let end = some.last();
                let k = before.len() - end.len();
                assert(before =~= before.subrange(0, k) + end);
                assert(all =~= before.subrange(0, k) + (end + separator + last) + nothing);
                lemma_occurs(all, before.subrange(0, k), end + separator + last, nothing);
            }
        } else {
            lemma_separated_parts(some, separator, 0);
        }
        assert(parts[0] == some[0]);
        assert(parts[0] =~= all.subrange(0, parts[0].len() as int)) by {
            assert(parts[0] == before.subrange(0, parts[0].len() as int));
        }
    }
}

/// A column leaves at least one space.
proof fn lemma_gap(len: nat, width: nat)
    ensures
        crate::text::gap(len, width, 1) == spaces(
            if len < width {
                (width - len) as nat
            } else {
                1
            },
        ),
{
    crate::text::law_gap(len, width, 1);
    let n = if len < width {
        (width - len) as nat
    } else {
        1
    };
    assert(crate::text::gap(len, width, 1) =~= spaces(n));
}

/// Without a repository its line says so, and nothing else.
pub proof fn law_no_repository_is_said(m: Watch, f: Frame)
    requires
        m.repo is None,
    ensures
        crate::render::status_text(m, f) == BOLD@ + "GIT"@ + RESET@ + "  "@ + (DIM@
            + "not a git repo"@ + RESET@),
{
}

/// A repository is clean exactly where none of its entries is dirty, staged or untracked.
/// Then its line says that and nothing else; otherwise it does not say it.
pub proof fn law_clean_repository(m: Watch, f: Frame)
    requires
        m.repo is Some,
    ensures
        (forall|i: int|
            0 <= i < f.git.entries().len() ==> {
                let bits = #[trigger] f.git.entries()[i];
                bits & 0x300 == 0 && bits & 0x7 == 0 && bits & 0x80 == 0
            }) ==> crate::render::status_text(m, f) == BOLD@ + "GIT"@ + RESET@ + "  "@ + (DIM@
            + "clean"@ + RESET@),
        (exists|i: int|
            0 <= i < f.git.entries().len() && {
                let bits = #[trigger] f.git.entries()[i];
                bits & 0x300 != 0 || bits & 0x7 != 0 || bits & 0x80 != 0
            }) ==> !crate::text::occurs_in(crate::render::status_text(m, f), "clean"@),
{
    let entries = f.git.entries();
    crate::git::law_counts(entries);
    assert forall|i: int| 0 <= i < entries.len() implies {
        let bits = #[trigger] entries[i];
        &&& crate::git::is_dirty(bits) == (bits & 0x300 != 0)
        &&& crate::git::is_staged(bits) == (bits & 0x7 != 0)
        &&& crate::git::is_untracked(bits) == (bits & 0x80 != 0 && bits & 0x1 == 0)
        &&& bits & 0x1 != 0 ==> bits & 0x7 != 0
    } by {
        let bits = entries[i];
        assert((bits & 0x100 != 0 || bits & 0x200 != 0) == (bits & 0x300 != 0)) by (bit_vector);
        assert((bits & 0x2 != 0 || bits & 0x1 != 0 || bits & 0x4 != 0) == (bits & 0x7 != 0))
            by (bit_vector);
    }
    if exists|i: int|
        0 <= i < entries.len() && {
            let bits = #[trigger] entries[i];
            bits & 0x300 != 0 || bits & 0x7 != 0 || bits & 0x80 != 0
        } {
        lemma_status_lacks(m, f, 'c');
        let status = crate::render::status_text(m, f);
        if crate::text::occurs_in(status, "clean"@) {
            let i = choose|i: int| crate::text::occurs_at(status, "clean"@, i);
            reveal_strlit("clean");
            assert(status.subrange(i, i + 5)[0] == 'c');
            assert(status[i] == 'c');
            assert(status.contains('c'));
        }
    }
}

proof fn lemma_part_lacks(color: Seq<char>, sign: Seq<char>, n: nat, c: char)
    requires
        !color.contains(c),
        !RESET@.contains(c),
        n > 0 ==> !sign.contains(c),
        !('0' <= c <= '9'),
    ensures
        forall|i: int|
            0 <= i < crate::render::count_part(color, sign, n).len() ==> !(
            #[trigger] crate::render::count_part(color, sign, n)[i]).contains(c),
{
    if n > 0 {
        lemma_lacks_signed(sign, n, c);
        lemma_lacks_painted(color, crate::render::signed(sign, n), c);
    }
}

/// The line of a repository that is not clean has no letter, and the sign of no count that
/// is zero.
proof fn lemma_status_lacks(m: Watch, f: Frame, c: char)
    requires
        m.repo is Some,
        ({
            let entries = f.git.entries();
            let (dirty, staged, untracked) = (
                crate::git::dirty_count(entries),
                crate::git::staged_count(entries),
                crate::git::untracked_count(entries),
            );
            &&& dirty > 0 || staged > 0 || untracked > 0
            &&& c == 'c' || c == '*' && dirty == 0 || c == '?' && untracked == 0
        }),
    ensures
        !crate::render::status_text(m, f).contains(c),
{
    let entries = f.git.entries();
    let dirty = crate::git::dirty_count(entries);
    let staged = crate::git::staged_count(entries);
    let untracked = crate::git::untracked_count(entries);
    let (additions, deletions) = (f.git.additions(), f.git.deletions());
    lemma_colors_lack(c);
    let a = crate::render::count_part(YELLOW@, "*"@, dirty);
    let b = crate::render::count_part(GREEN@, "+"@, staged);
    let d = crate::render::count_part(DIM@, "?:"@, untracked);
    lemma_part_lacks(YELLOW@, "*"@, dirty, c);
    lemma_part_lacks(GREEN@, "+"@, staged, c);
    lemma_part_lacks(DIM@, "?:"@, untracked, c);
    let parts = a + b + d;
    assert forall|i: int| 0 <= i < parts.len() implies !(#[trigger] parts[i]).contains(c) by {
        if i < a.len() {
            assert(parts[i] == a[i]);
        } else if i < a.len() + b.len() {
            assert(parts[i] == b[i - a.len()]);
        } else {
            assert(parts[i] == d[i - a.len() - b.len()]);
        }
    }
    lemma_separated_lacks(parts, " "@, c);
    let counts = crate::text::separated(parts, " "@);
    let lines = if additions > 0 || deletions > 0 {
        crate::render::lines_text(additions as nat, deletions as nat, 7, 8)
    } else {
        Seq::empty()
    };
    lemma_lacks_lines(additions as nat, deletions as nat, 7, 8, c);
    lemma_lacks_add(lines, counts, c);
    lemma_lacks_painted(BOLD@, "GIT"@, c);
    let head = crate::render::painted(BOLD@, "GIT"@);
    lemma_lacks_add(head, "  "@, c);
    lemma_lacks_add(head + "  "@, lines + counts, c);
}

/// The line of a repository that is not clean shows how many files are dirty, how many are
/// staged and how many untracked, each unless it is none, in this order with a space between
/// them, and before them all lines added and deleted, unless there are none of either.
#[verifier::rlimit(40)]
pub proof fn law_counts_are_shown(m: Watch, f: Frame, dirty: nat, staged: nat, untracked: nat)
    requires
        m.repo is Some,
        dirty == f.git.entries().filter(|bits: u32| bits & 0x300 != 0).len(),
        staged == f.git.entries().filter(|bits: u32| bits & 0x7 != 0).len(),
        untracked == f.git.entries().filter(
            |bits: u32| bits & 0x80 != 0 && bits & 0x1 == 0,
        ).len(),
        dirty > 0 || staged > 0 || untracked > 0,
    ensures
        ({
            let status = crate::render::status_text(m, f);
            let (additions, deletions) = (f.git.additions(), f.git.deletions());
            let d = YELLOW@ + ("*"@ + crate::text::decimal(dirty)) + RESET@;
            let s = GREEN@ + ("+"@ + crate::text::decimal(staged)) + RESET@;
            let u = DIM@ + ("?:"@ + crate::text::decimal(untracked)) + RESET@;
            let added = "+"@ + crate::text::decimal(additions as nat);
            let deleted = "-"@ + crate::text::decimal(deletions as nat);
            &&& (BOLD@ + "GIT"@ + RESET@ + "  "@).is_prefix_of(status)
            &&& dirty > 0 ==> crate::text::occurs_in(status, d)
            &&& staged > 0 ==> crate::text::occurs_in(status, s)
            &&& untracked > 0 ==> crate::text::occurs_in(status, u)
            &&& dirty > 0 && staged > 0 ==> crate::text::occurs_in(status, d + " "@ + s)
            &&& staged > 0 && untracked > 0 ==> crate::text::occurs_in(status, s + " "@ + u)
            &&& dirty > 0 && staged == 0 && untracked > 0 ==> crate::text::occurs_in(
                status,
                d + " "@ + u,
            )
            &&& dirty == 0 ==> !status.contains('*')
            &&& untracked == 0 ==> !status.contains('?')
            &&& additions > 0 || deletions > 0 ==> (BOLD@ + "GIT"@ + RESET@ + "  "@ + (GREEN@
                + added + RESET@ + spaces(
                if added.len() < 7 {
                    (7 - added.len()) as nat
                } else {
                    1
                },
            ) + (RED@ + deleted + RESET@) + spaces(
                if deleted.len() < 8 {
                    (8 - deleted.len()) as nat
                } else {
                    1
                },
            ) + (if dirty > 0 {
                d
            } else if staged > 0 {
                s
            } else {
                u
            }))).is_prefix_of(status)
            &&& additions == 0 && deletions == 0 ==> (BOLD@ + "GIT"@ + RESET@ + "  "@ + (if dirty
                > 0 {
                d
            } else if staged > 0 {
                s
            } else {
                u
            })).is_prefix_of(status)
            &&& (if untracked > 0 {
                u
            } else if staged > 0 {
                s
            } else {
                d
            }).is_suffix_of(status)
        }),
{
    let entries = f.git.entries();
    crate::git::law_counts_are_of_flags(entries);
    let status = crate::render::status_text(m, f);
    let (additions, deletions) = (f.git.additions(), f.git.deletions());
    let d = YELLOW@ + ("*"@ + crate::text::decimal(dirty)) + RESET@;
    let s = GREEN@ + ("+"@ + crate::text::decimal(staged)) + RESET@;
    let u = DIM@ + ("?:"@ + crate::text::decimal(untracked)) + RESET@;
    let parts = crate::render::count_part(YELLOW@, "*"@, dirty) + crate::render::count_part(
        GREEN@,
        "+"@,
        staged,
    ) + crate::render::count_part(DIM@, "?:"@, untracked);
    let counts = crate::text::separated(parts, " "@);
    let lines = if additions > 0 || deletions > 0 {
        crate::render::lines_text(additions as nat, deletions as nat, 7, 8)
    } else {
        Seq::empty()
    };
    let head = BOLD@ + "GIT"@ + RESET@ + "  "@;
    assert(status == head + (lines + counts));
    if dirty == 0 {
        lemma_status_lacks(m, f, '*');
    }
    if untracked == 0 {
        lemma_status_lacks(m, f, '?');
    }
    assert(parts.len() > 0);
    assert(dirty > 0 ==> parts[0] == d);
    let k = if dirty > 0 {
        1int
    } else {
        0int
    };
    assert(staged > 0 ==> parts[k] == s);
    assert(untracked > 0 ==> parts[parts.len() - 1] == u);
    lemma_status_counts(head, lines, counts, parts);
    assert(parts[0] == if dirty > 0 {
        d
    } else if staged > 0 {
        s
    } else {
        u
    });
    assert(parts.last() == if untracked > 0 {
        u
    } else if staged > 0 {
        s
    } else {
        d
    });
    let one = 1int;
    assert(dirty > 0 && staged > 0 ==> parts[0] + " "@ + parts[one] == d + " "@ + s);
    assert(staged > 0 && untracked > 0 ==> parts[k] + " "@ + parts[k + 1] == s + " "@ + u);
    assert(dirty > 0 && staged == 0 && untracked > 0 ==> parts[0] + " "@ + parts[one] == d
        + " "@ + u);
    let added = "+"@ + crate::text::decimal(additions as nat);
    let deleted = "-"@ + crate::text::decimal(deletions as nat);
    lemma_gap(added.len(), 7);
    lemma_gap(deleted.len(), 8);
    if additions == 0 && deletions == 0 {
        assert(lines + parts[0] =~= parts[0]);
    }
}

/// The counts stand at the end of the line, behind the lines.
proof fn lemma_status_counts(
    head: Seq<char>,
    lines: Seq<char>,
    counts: Seq<char>,
    parts: Seq<Seq<char>>,
)
    requires
        parts.len() > 0,
        counts == crate::text::separated(parts, " "@),
    ensures
        ({
            let status = head + (lines + counts);
            &&& head.is_prefix_of(status)
            &&& (head + (lines + parts[0])).is_prefix_of(status)
            &&& parts.last().is_suffix_of(status)
            &&& forall|i: int|
                0 <= i < parts.len() ==> crate::text::occurs_in(status, #[trigger] parts[i])
            &&& forall|i: int|
                0 <= i < parts.len() - 1 ==> crate::text::occurs_in(
                    status,
                    #[trigger] parts[i] + " "@ + parts[i + 1],
                )
        }),
{
    let status = head + (lines + counts);
    let nothing = Seq::<char>::empty();
    lemma_separated_parts(parts, " "@, 0);
    let (first, last) = (parts[0], parts.last());
    assert(status =~= (head + lines) + counts + nothing);
    lemma_occurs(status, head + lines, counts, nothing);
    assert(head =~= status.subrange(0, head.len() as int));
    assert(first == counts.subrange(0, first.len() as int));
    let front = head + (lines + first);
    assert(front =~= status.subrange(0, front.len() as int));
    assert(last == counts.subrange(counts.len() - last.len(), counts.len() as int));
    assert(last =~= status.subrange(status.len() - last.len(), status.len() as int));
    assert forall|i: int| 0 <= i < parts.len() implies crate::text::occurs_in(
        status,
        #[trigger] parts[i],
    ) by {
        lemma_separated_parts(parts, " "@, i);
        crate::text::law_occurs_within(status, counts, parts[i]);
    }
    assert forall|i: int| 0 <= i < parts.len() - 1 implies crate::text::occurs_in(
        status,
        #[trigger] parts[i] + " "@ + parts[i + 1],
    ) by {
        lemma_separated_parts(parts, " "@, i);
        crate::text::law_occurs_within(status, counts, parts[i] + " "@ + parts[i + 1]);
    }
}

/// A time span is in days where it holds one, else in hours, minutes or seconds, and the
/// number is how many whole ones it holds.
pub proof fn law_time_spans(days: nat, hours: nat, minutes: nat, seconds: nat)
    requires
        hours < 24,
        minutes < 60,
        seconds < 60,
    ensures
        crate::render::span_text(86400 * days + 3600 * hours + 60 * minutes + seconds) == (if days
            > 0 {
            crate::text::decimal(days) + "d"@
        } else if hours > 0 {
            crate::text::decimal(hours) + "h"@
        } else if minutes > 0 {
            crate::text::decimal(minutes) + "m"@
        } else {
            crate::text::decimal(seconds) + "s"@
        }),
{
    let n = 86400 * days + 3600 * hours + 60 * minutes + seconds;
    if days > 0 {
        assert(n / 86400 == days);
    } else if hours > 0 {
        assert(n / 3600 == hours);
    } else if minutes > 0 {
        assert(n / 60 == minutes);
    }
}

/// The last commit stands between the state of the repository and the changed files, with an
/// empty line on either side: its name; its age in whole seconds since it was seen, in green
/// for a minute, unless it was there from the start; the first line of its message; and its
/// files, if it has any.
#[verifier::rlimit(40)]
pub proof fn law_last_commit_is_shown(
    m: Watch,
    f: Frame,
    w: u16,
    h: u16,
    commit: crate::model::Commit,
    ago: nat,
)
    requires
        f.size == Some((w, h)),
        m.last_commit == Some(commit),
        commit.time <= f.now ==> ago * 1_000_000_000 <= f.now - commit.time < (ago + 1)
            * 1_000_000_000,
        commit.time > f.now ==> ago == 0,
    ensures
        ({
            let room = left_of(w, 25);
            let name = BOLD@ + "COMMIT"@ + RESET@ + "\r\n"@ + "  "@ + (DIM@ + commit.hash + RESET@);
            let color = if ago < 60 {
                GREEN@
            } else {
                DIM@
            };
            let gap = spaces(
                if commit.hash.len() < 11 {
                    (11 - commit.hash.len()) as nat
                } else {
                    1
                },
            );
            let age = gap + (color + crate::render::span_text(ago) + RESET@);
            let message = "\r\n"@ + ("  "@ + (crate::text::with_end_cut(commit.summary, room)
                + "\r\n"@));
            let list = crate::text::shortened(crate::text::separated(commit.files, ", "@), room);
            let files = "  "@ + (DIM@ + list + RESET@) + "\r\n"@;
            let end = "\r\n"@ + (BOLD@ + "CHANGES"@ + RESET@ + "\r\n"@);
            crate::text::occurs_in(
                crate::render::screen(m, f),
                "\r\n"@ + "\r\n"@ + name + ((if commit.from_start {
                    Seq::empty()
                } else {
                    age
                }) + (message + ((if commit.files.len() == 0 {
                    Seq::empty()
                } else {
                    files
                }) + end))),
            )
        }),
{
    assert(crate::render::seconds_ago(f.now, commit.time) == ago);
    let room = left_of(w, 25);
    lemma_gap(commit.hash.len(), 11);
    let name = BOLD@ + "COMMIT"@ + RESET@ + "\r\n"@ + "  "@ + (DIM@ + commit.hash + RESET@);
    let age = crate::render::commit_age_text(commit, f);
    let summary = crate::text::with_end_cut(commit.summary, room);
    let files = crate::render::files_text(commit.files, f);
    assert(f.text_room() == room);
    let heading = BOLD@ + "CHANGES"@ + RESET@ + "\r\n"@;
    let rest = if m.recent.len() == 0 {
        DIM@ + "Nothing"@ + RESET@ + "\r\n"@
    } else {
        crate::render::rows_text(m, f) + crate::render::more_text(m, f)
    };
    assert(crate::render::changes_text(m, f) == heading + rest);
    assert(crate::render::commit_text(m, f) == name + age + "\r\n"@ + "  "@ + summary + "\r\n"@
        + files + "\r\n"@);
    law_parts_of_the_screen(m, f);
    let all = crate::render::screen(m, f);
    lemma_commit_groups("\r\n"@, "  "@, name, age, summary, files, heading, rest);
    let whole = "\r\n"@ + "\r\n"@ + crate::render::commit_text(m, f) + crate::render::changes_text(
        m,
        f,
    );
    let part = "\r\n"@ + "\r\n"@ + name + (age + ("\r\n"@ + ("  "@ + (summary + "\r\n"@)) + (files
        + ("\r\n"@ + heading))));
    lemma_occurs(whole, Seq::empty(), part, rest);
    crate::text::law_occurs_within(all, whole, part);
}

proof fn lemma_commit_groups(
    end: Seq<char>,
    indent: Seq<char>,
    name: Seq<char>,
    age: Seq<char>,
    summary: Seq<char>,
    files: Seq<char>,
    heading: Seq<char>,
    rest: Seq<char>,
)
    ensures
        end + end + (name + age + end + indent + summary + end + files + end) + (heading + rest)
            == Seq::empty() + (end + end + name + (age + (end + (indent + (summary + end)) + (files
            + (end + heading))))) + rest,
{
    let commit = name + age + end + indent + summary + end + files + end;
    let tail = age + (end + (indent + (summary + end)) + (files + (end + heading)));
    assert(commit + heading =~= name + tail);
    assert(end + end + commit + (heading + rest) =~= end + end + (commit + heading) + rest);
    assert(end + end + (name + tail) =~= end + end + name + tail);
    assert(Seq::empty() + (end + end + name + tail) + rest =~= end + end + name + tail + rest);
}

/// Without a commit the changed files follow the state of the repository.
pub proof fn law_no_commit(m: Watch, f: Frame)
    requires
        m.last_commit is None,
    ensures
        crate::text::occurs_in(
            crate::render::screen(m, f),
            crate::render::status_text(m, f) + crate::render::activity_text(m, f) + "\r\n"@
                + "\r\n"@ + crate::render::changes_text(m, f),
        ),
{
    law_parts_of_the_screen(m, f);
    let all = crate::render::screen(m, f);
    let head = crate::render::title_text(m, f) + crate::render::rule_text(f);
    let line = crate::render::status_text(m, f) + crate::render::activity_text(m, f) + "\r\n"@
        + "\r\n"@;
    let (changes, ignored) = (crate::render::changes_text(m, f), crate::render::ignored_text(m));
    let foot = "\r\n"@ + (DIM@ + "q to quit"@ + RESET@);
    lemma_after_line(head, line, changes, ignored, foot);
    assert(crate::render::commit_text(m, f) =~= Seq::empty());
    lemma_occurs(all, head, line + changes, ignored + foot);
}

proof fn lemma_after_line(
    head: Seq<char>,
    line: Seq<char>,
    changes: Seq<char>,
    ignored: Seq<char>,
    foot: Seq<char>,
)
    ensures
        head + line + (Seq::empty() + changes + ignored + foot) == head + (line + changes) + (ignored
            + foot),
{
    assert(head + line + (Seq::empty() + changes + ignored + foot) =~= head + (line + changes) + (
    ignored + foot));
}

/// The number of signs of a bar is even, and half of it is the number of digits that the
/// lines have in base four: none for none.
pub proof fn law_bar_length(n: nat)
    ensures
        crate::render::bar_length(n) % 2 == 0,
        n == 0 <==> crate::render::bar_length(n) == 0,
        n > 0 ==> vstd::arithmetic::power::pow(4, (crate::render::bar_length(n) / 2 - 1) as nat)
            <= n,
        n < vstd::arithmetic::power::pow(4, crate::render::bar_length(n) / 2),
    decreases n,
{
    reveal(vstd::arithmetic::power::pow);
    if n == 0 {
        assert(vstd::arithmetic::power::pow(4, 0) == 1);
    } else {
        law_bar_length(n / 4);
        let k = crate::render::bar_length(n / 4) / 2;
        assert(crate::render::bar_length(n) / 2 == k + 1);
        assert(vstd::arithmetic::power::pow(4, k + 1) == 4 * vstd::arithmetic::power::pow(4, k));
        if n / 4 == 0 {
            assert(vstd::arithmetic::power::pow(4, 0) == 1);
        } else {
            assert(vstd::arithmetic::power::pow(4, k) == 4 * vstd::arithmetic::power::pow(
                4,
                (k - 1) as nat,
            ));
        }
    }
}

/// The sign that a row has for a change: a green plus for a new file, a yellow tilde for a
/// modified one, a red minus for a deleted one.
pub open spec fn sign_of(change_type: ChangeType) -> Seq<char> {
    match change_type {
        ChangeType::Created => GREEN@ + "+"@ + RESET@,
        ChangeType::Modified => YELLOW@ + "~"@ + RESET@,
        ChangeType::Deleted => RED@ + "-"@ + RESET@,
    }
}

/// A row has the sign of the change and the path below the watched directory. Where the line
/// counts of the file are kept and not both zero, both follow, in columns of their own, and a
/// bar of plus signs for the lines added and minus signs for those deleted. Nothing else
/// follows.
pub proof fn law_row(m: Watch, f: Frame, w: u16, h: u16, path: Seq<u8>, change: Change)
    requires
        f.size == Some((w, h)),
    ensures
        ({
            let row = crate::render::row_text(m, f, path, change);
            let file = crate::path::components(path);
            let shown = crate::text::with_start_cut(
                crate::text::lossy_text(crate::path::relative_to(path, m.workdir)),
                left_of(w, 25),
            );
            let start = "  "@ + sign_of(change.change_type) + " "@ + shown;
            let (a, d) = (m.stats[file].additions as nat, m.stats[file].deletions as nat);
            let added = "+"@ + crate::text::decimal(a);
            let deleted = "-"@ + crate::text::decimal(d);
            let counts = spaces(
                if shown.len() < left_of(w, 25) {
                    (left_of(w, 25) - shown.len()) as nat
                } else {
                    1
                },
            ) + (GREEN@ + added + RESET@ + spaces(
                if added.len() < 5 {
                    (5 - added.len()) as nat
                } else {
                    1
                },
            ) + (RED@ + deleted + RESET@) + spaces(
                if deleted.len() < 5 {
                    (5 - deleted.len()) as nat
                } else {
                    1
                },
            )) + (GREEN@ + Seq::new(crate::render::bar_length(a), |i: int| '+') + RESET@ + (RED@
                + Seq::new(crate::render::bar_length(d), |i: int| '-') + RESET@));
            let counted = m.stats.contains_key(file) && a + d > 0;
            &&& !counted ==> row == start + "\r\n"@
            &&& counted ==> row == start + counts + "\r\n"@
            &&& counted ==> crate::text::occurs_in(row, added)
            &&& counted ==> crate::text::occurs_in(row, deleted)
        }),
{
    let row = crate::render::row_text(m, f, path, change);
    let file = crate::path::components(path);
    let shown = crate::text::with_start_cut(
        crate::text::lossy_text(crate::path::relative_to(path, m.workdir)),
        left_of(w, 25),
    );
    let start = "  "@ + sign_of(change.change_type) + " "@ + shown;
    assert(f.text_room() == left_of(w, 25));
    assert(crate::render::change_sign(change.change_type) == sign_of(change.change_type));
    let (a, d) = (m.stats[file].additions as nat, m.stats[file].deletions as nat);
    let added = "+"@ + crate::text::decimal(a);
    let deleted = "-"@ + crate::text::decimal(d);
    lemma_gap(shown.len(), left_of(w, 25));
    lemma_gap(added.len(), 5);
    lemma_gap(deleted.len(), 5);
    lemma_signs(crate::render::bar_length(a), crate::render::bar_length(d));
    let counted = m.stats.contains_key(file) && a + d > 0;
    if counted {
        let before = crate::text::gap(shown.len(), left_of(w, 25), 1);
        let between = crate::text::gap(added.len(), 5, 1);
        let behind = crate::text::gap(deleted.len(), 5, 1);
        let bar = crate::render::bar_text(a, d);
        lemma_counts_in_row(start, before, added, between, deleted, behind, bar);
    } else {
        assert(start + Seq::<char>::empty() =~= start);
    }
}

proof fn lemma_signs(plus: nat, minus: nat)
    ensures
        crate::text::repeated("+"@, plus) == Seq::new(plus, |i: int| '+'),
        crate::text::repeated("-"@, minus) == Seq::new(minus, |i: int| '-'),
{
    reveal_strlit("+");
    reveal_strlit("-");
    crate::text::law_repeated("+"@, 0, plus);
    crate::text::law_repeated("-"@, 0, minus);
    assert(crate::text::repeated("+"@, plus) =~= Seq::new(plus, |i: int| '+'));
    assert(crate::text::repeated("-"@, minus) =~= Seq::new(minus, |i: int| '-'));
}

proof fn lemma_counts_in_row(
    start: Seq<char>,
    before: Seq<char>,
    added: Seq<char>,
    between: Seq<char>,
    deleted: Seq<char>,
    behind: Seq<char>,
    bar: Seq<char>,
)
    ensures
        ({
            let counts = before + (GREEN@ + added + RESET@ + between + (RED@ + deleted + RESET@)
                + behind) + bar;
            let row = start + counts + "\r\n"@;
            crate::text::occurs_in(row, added) && crate::text::occurs_in(row, deleted)
        }),
{
    let (green, red, reset, end) = (GREEN@, RED@, RESET@, "\r\n"@);
    let first = green + added + reset;
    let second = red + deleted + reset;
    let lines = first + between + second + behind;
    let counts = before + lines + bar;
    let row = start + counts + end;
    lemma_occurs(first, green, added, reset);
    lemma_occurs(second, red, deleted, reset);
    assert(row =~= (start + before) + first + (between + second + behind + bar + end));
    assert(row =~= (start + before + first + between) + second + (behind + bar + end));
    lemma_occurs(row, start + before, first, between + second + behind + bar + end);
    lemma_occurs(row, start + before + first + between, second, behind + bar + end);
    crate::text::law_occurs_within(row, first, added);
    crate::text::law_occurs_within(row, second, deleted);
}

proof fn lemma_joined_split(parts: Seq<Seq<char>>, k: int)
    requires
        0 <= k <= parts.len(),
    ensures
        crate::render::joined(parts) == crate::render::joined(parts.take(k))
            + crate::render::joined(parts.skip(k)),
    decreases parts.len(),
{
    let all = crate::render::joined(parts);
    if k == parts.len() {
        assert(parts.take(k) =~= parts);
        assert(all =~= all + crate::render::joined(parts.skip(k)));
    } else {
        let some = parts.drop_last();
        lemma_joined_split(some, k);
        assert(some.take(k) =~= parts.take(k));
        assert(parts.skip(k).drop_last() =~= some.skip(k));
        assert(parts.skip(k).last() == parts.last());
        assert(all =~= crate::render::joined(parts.take(k)) + crate::render::joined(parts.skip(k)));
    }
}

/// A part among others, with what is before it and behind it.
proof fn lemma_joined_part(parts: Seq<Seq<char>>, i: int)
    requires
        0 <= i < parts.len(),
    ensures
        crate::render::joined(parts) == crate::render::joined(parts.take(i)) + parts[i]
            + crate::render::joined(parts.skip(i + 1)),
{
    lemma_joined_split(parts, i + 1);
    let front = parts.take(i + 1);
    assert(front.drop_last() =~= parts.take(i));
    assert(front.last() == parts[i]);
}

/// The row of file number `i`, in the order of the paths.
pub open spec fn row_of(m: Watch, f: Frame, i: int) -> Seq<char> {
    let (first, latest) = crate::rows::file_rows(m.recent)[i];
    crate::render::row_text(m, f, m.recent[first].path, m.recent[latest])
}

/// Where nothing has changed, the list says so.
pub proof fn law_nothing_changed(m: Watch, f: Frame)
    requires
        m.recent.len() == 0,
    ensures
        crate::render::changes_text(m, f) == BOLD@ + "CHANGES"@ + RESET@ + "\r\n"@ + (DIM@
            + "Nothing"@ + RESET@ + "\r\n"@),
{
}

/// As many files are listed as there are, as fit with eight other rows on the terminal, and
/// at most twenty, from the first on, one row directly behind the other below the heading.
/// The rest is counted behind the last row, where there is a rest.
pub proof fn law_list_of_files(m: Watch, f: Frame, w: u16, h: u16, shown: nat, i: int)
    requires
        f.size == Some((w, h)),
        m.recent.len() > 0,
        shown == vstd::math::min(
            crate::rows::file_rows(m.recent).len() as int,
            vstd::math::min(20, left_of(h, 8) as int),
        ),
    ensures
        ({
            let changes = crate::render::changes_text(m, f);
            let n = crate::rows::file_rows(m.recent).len();
            let heading = BOLD@ + "CHANGES"@ + RESET@ + "\r\n"@;
            let more = "  "@ + (DIM@ + ("... and "@ + crate::text::decimal((n - shown) as nat)
                + " more"@) + RESET@) + "\r\n"@;
            let end = if n > shown {
                more
            } else {
                Seq::empty()
            };
            &&& shown == 0 ==> changes == heading + end
            &&& shown > 0 ==> (heading + row_of(m, f, 0)).is_prefix_of(changes)
            &&& shown > 0 ==> (row_of(m, f, shown - 1) + end).is_suffix_of(changes)
            &&& 0 <= i < shown ==> crate::text::occurs_in(changes, row_of(m, f, i))
            &&& 0 <= i < shown - 1 ==> crate::text::occurs_in(
                changes,
                row_of(m, f, i) + row_of(m, f, i + 1),
            )
        }),
{
    let changes = crate::render::changes_text(m, f);
    let n = crate::rows::file_rows(m.recent).len();
    let heading = BOLD@ + "CHANGES"@ + RESET@ + "\r\n"@;
    assert(crate::render::shown_rows(m, f) == shown);
    let rows = Seq::new(shown, |k: int| crate::render::nth_row_text(m, f, k));
    let list = crate::render::joined(rows);
    let end = crate::render::more_text(m, f);
    assert(crate::render::rows_text(m, f) == list);
    assert(changes == heading + (list + end));
    assert(n > shown ==> f.row_room() == shown);
    assert forall|k: int| 0 <= k < shown implies #[trigger] rows[k] == row_of(m, f, k) by {}
    lemma_list(heading, rows, end, i);
}

proof fn lemma_list(heading: Seq<char>, rows: Seq<Seq<char>>, end: Seq<char>, i: int)
    ensures
        ({
            let all = heading + (crate::render::joined(rows) + end);
            &&& rows.len() == 0 ==> all == heading + end
            &&& rows.len() > 0 ==> (heading + rows[0]).is_prefix_of(all)
            &&& rows.len() > 0 ==> (rows.last() + end).is_suffix_of(all)
            &&& 0 <= i < rows.len() ==> crate::text::occurs_in(all, rows[i])
            &&& 0 <= i < rows.len() - 1 ==> crate::text::occurs_in(all, rows[i] + rows[i + 1])
        }),
{
    let list = crate::render::joined(rows);
    let all = heading + (list + end);
    if rows.len() == 0 {
        assert(all =~= heading + end);
    } else {
        lemma_joined_part(rows, 0);
        assert(rows.take(0) =~= Seq::empty());
        let (first, last) = (rows[0], rows.last());
        assert(list =~= first + crate::render::joined(rows.skip(1)));
        assert(heading + first =~= all.subrange(0, (heading + first).len() as int));
        let before = crate::render::joined(rows.drop_last());
        assert(list == before + last);
        let foot = last + end;
        assert(all =~= heading + before + foot);
        assert(foot =~= all.subrange(all.len() - foot.len(), all.len() as int));
    }
    if 0 <= i < rows.len() {
        lemma_joined_part(rows, i);
        let front = crate::render::joined(rows.take(i));
        let back = crate::render::joined(rows.skip(i + 1));
        assert(all =~= (heading + front) + rows[i] + (back + end));
        lemma_occurs(all, heading + front, rows[i], back + end);
        if i + 1 < rows.len() {
            let rest = rows.skip(i + 1);
            lemma_joined_part(rest, 0);
            assert(rest.take(0) =~= Seq::empty());
            assert(rest[0] == rows[i + 1]);
            let tail = crate::render::joined(rest.skip(1));
            assert(back =~= rows[i + 1] + tail);
            assert(all =~= (heading + front) + (rows[i] + rows[i + 1]) + (tail + end));
            lemma_occurs(all, heading + front, rows[i] + rows[i + 1], tail + end);
        }
    }
}

/// The list of files is on the screen whatever else is: above the ignored directories.
pub proof fn law_list_is_on_the_screen(m: Watch, f: Frame)
    ensures
        crate::text::occurs_in(crate::render::screen(m, f), crate::render::changes_text(m, f)),
{
    law_parts_of_the_screen(m, f);
    let changes = crate::render::changes_text(m, f);
    let rest = crate::render::ignored_text(m) + ("\r\n"@ + (DIM@ + "q to quit"@ + RESET@));
    let whole = changes + crate::render::ignored_text(m) + ("\r\n"@ + (DIM@ + "q to quit"@
        + RESET@));
    assert(whole =~= Seq::empty() + changes + rest);
    lemma_occurs(whole, Seq::empty(), changes, rest);
    crate::text::law_occurs_within(crate::render::screen(m, f), whole, changes);
}

proof fn lemma_row_start(m: Watch, f: Frame, w: u16, h: u16, path: Seq<u8>, change: Change)
    requires
        f.size == Some((w, h)),
    ensures
        crate::text::occurs_in(
            crate::render::row_text(m, f, path, change),
            "  "@ + sign_of(change.change_type) + " "@ + crate::text::with_start_cut(
                crate::text::lossy_text(crate::path::relative_to(path, m.workdir)),
                left_of(w, 25),
            ),
        ),
{
    let shown = crate::text::with_start_cut(
        crate::text::lossy_text(crate::path::relative_to(path, m.workdir)),
        left_of(w, 25),
    );
    assert(f.text_room() == left_of(w, 25));
    let start = "  "@ + sign_of(change.change_type) + " "@ + shown;
    let counts = crate::render::stats_text(m, f, path, shown.len());
    lemma_start(start, counts, "\r\n"@);
}

proof fn lemma_start(start: Seq<char>, middle: Seq<char>, end: Seq<char>)
    ensures
        crate::text::occurs_in(start + middle + end, start),
{
    assert(start + middle + end =~= Seq::empty() + start + (middle + end));
    lemma_occurs(start + middle + end, Seq::empty(), start, middle + end);
}

/// Where the terminal has eight rows more than there are changed files, and these are no
/// more than twenty, every one of them is on the screen: with the path of its first change,
/// and the sign of its latest one.
#[verifier::rlimit(40)]
pub proof fn law_every_changed_file_is_on_the_screen(
    m: Watch,
    f: Frame,
    w: u16,
    h: u16,
    j: int,
) -> (row: (int, int))
    requires
        f.size == Some((w, h)),
        0 <= j < m.recent.len(),
        ({
            let files = m.recent.map_values(
                |c: Change| crate::path::components(c.path),
            ).to_set().len();
            files <= 20 && files + 8 <= h
        }),
    ensures
        ({
            let (first, latest) = row;
            let file = crate::path::components(m.recent[j].path);
            let shown = crate::text::with_start_cut(
                crate::text::lossy_text(
                    crate::path::relative_to(m.recent[first].path, m.workdir),
                ),
                left_of(w, 25),
            );
            &&& 0 <= first <= j && 0 <= latest < m.recent.len()
            &&& crate::path::components(m.recent[first].path) == file
            &&& crate::path::components(m.recent[latest].path) == file
            &&& m.recent[j].timestamp <= m.recent[latest].timestamp
            &&& crate::text::occurs_in(
                crate::render::screen(m, f),
                "  "@ + sign_of(m.recent[latest].change_type) + " "@ + shown,
            )
        }),
{
    let rows = crate::rows::file_rows(m.recent);
    crate::rows::law_rows_are_the_files(m.recent, j);
    let i = choose|i: int|
        0 <= i < rows.len() && crate::path::components(m.recent[(#[trigger] rows[i]).0].path)
            == crate::path::components(m.recent[j].path);
    crate::rows::law_row_shows_the_latest_change(m.recent, i, j);
    let (first, latest) = rows[i];
    let (path, change) = (m.recent[first].path, m.recent[latest]);
    law_list_of_files(m, f, w, h, rows.len(), i);
    law_list_is_on_the_screen(m, f);
    lemma_row_start(m, f, w, h, path, change);
    let text = crate::render::row_text(m, f, path, change);
    let shown = crate::text::with_start_cut(
        crate::text::lossy_text(crate::path::relative_to(path, m.workdir)),
        left_of(w, 25),
    );
    let (screen, changes) = (crate::render::screen(m, f), crate::render::changes_text(m, f));
    assert(row_of(m, f, i) == text);
    crate::text::law_occurs_within(screen, changes, text);
    crate::text::law_occurs_within(
        screen,
        text,
        "  "@ + sign_of(change.change_type) + " "@ + shown,
    );
    rows[i]
}

/// Ignored directories with activity stand below the list, the latest first, each with a
/// slash behind its name and a space before the next one. Where there are none, the footer
/// follows the list.
#[verifier::rlimit(40)]
pub proof fn law_ignored_directories_are_shown(m: Watch, f: Frame, k: int)
    ensures
        ({
            let screen = crate::render::screen(m, f);
            let order = crate::recency::recency_order(m.ignored);
            let foot = "\r\n"@ + (DIM@ + "q to quit"@ + RESET@);
            &&& m.ignored.len() == 0 ==> crate::text::occurs_in(
                screen,
                crate::render::changes_text(m, f) + foot,
            )
            &&& 0 <= k < m.ignored.len() ==> crate::text::occurs_in(
                screen,
                m.ignored[order[k]].0 + "/"@,
            )
            &&& 0 <= k < m.ignored.len() - 1 ==> crate::text::occurs_in(
                screen,
                m.ignored[order[k]].0 + "/"@ + " "@ + (m.ignored[order[k + 1]].0 + "/"@),
            )
            &&& m.ignored.len() > 0 ==> crate::text::occurs_in(
                screen,
                crate::render::changes_text(m, f) + ("\r\n"@ + (DIM@ + ("ignored: "@ + (
                m.ignored[order[0]].0 + "/"@)))),
            )
            &&& m.ignored.len() > 0 ==> crate::text::occurs_in(
                screen,
                m.ignored[order[m.ignored.len() - 1]].0 + "/"@ + (RESET@ + "\r\n"@ + foot),
            )
        }),
{
    let screen = crate::render::screen(m, f);
    let order = crate::recency::recency_order(m.ignored);
    let changes = crate::render::changes_text(m, f);
    let ignored = crate::render::ignored_text(m);
    let foot = "\r\n"@ + (DIM@ + "q to quit"@ + RESET@);
    law_parts_of_the_screen(m, f);
    crate::recency::law_names_by_recency(m.ignored);
    if m.ignored.len() == 0 {
        assert(changes + ignored =~= changes);
    } else {
        let names = crate::recency::names_by_recency(m.ignored);
        let labels = names.map_values(|name: Seq<char>| name + "/"@);
        let list = crate::text::separated(labels, " "@);
        assert forall|i: int| 0 <= i < m.ignored.len() implies #[trigger] labels[i]
            == m.ignored[order[i]].0 + "/"@ by {
            assert(names[i] == m.ignored[order[i]].0);
        }
        assert(ignored == "\r\n"@ + (DIM@ + ("ignored: "@ + list) + RESET@) + "\r\n"@);
        let whole = changes + ignored + foot;
        lemma_separated_parts(labels, " "@, 0);
        lemma_ignored_groups(changes, list, labels[0], labels.last(), foot);
        crate::text::law_occurs_within(
            screen,
            whole,
            changes + ("\r\n"@ + (DIM@ + ("ignored: "@ + labels[0]))),
        );
        crate::text::law_occurs_within(screen, whole, labels.last() + (RESET@ + "\r\n"@ + foot));
        crate::text::law_occurs_within(screen, whole, list);
        if 0 <= k < m.ignored.len() {
            lemma_separated_parts(labels, " "@, k);
            crate::text::law_occurs_within(screen, list, labels[k]);
            if k + 1 < m.ignored.len() {
                crate::text::law_occurs_within(screen, list, labels[k] + " "@ + labels[k + 1]);
            }
        }
    }
}

proof fn lemma_ignored_groups(
    changes: Seq<char>,
    list: Seq<char>,
    first: Seq<char>,
    last: Seq<char>,
    foot: Seq<char>,
)
    requires
        first.is_prefix_of(list),
        last.is_suffix_of(list),
    ensures
        ({
            let ignored = "\r\n"@ + (DIM@ + ("ignored: "@ + list) + RESET@) + "\r\n"@;
            let whole = changes + ignored + foot;
            &&& crate::text::occurs_in(
                whole,
                changes + ("\r\n"@ + (DIM@ + ("ignored: "@ + first))),
            )
            &&& crate::text::occurs_in(whole, last + (RESET@ + "\r\n"@ + foot))
            &&& crate::text::occurs_in(whole, list)
        }),
{
    let (end, dim, reset, title) = ("\r\n"@, DIM@, RESET@, "ignored: "@);
    let ignored = end + (dim + (title + list) + reset) + end;
    let whole = changes + ignored + foot;
    let after = reset + end + foot;
    let before = changes + (end + (dim + title));
    let nothing = Seq::<char>::empty();
    assert(whole =~= before + list + after);
    lemma_occurs(whole, before, list, after);
    let rest = list.subrange(first.len() as int, list.len() as int);
    assert(list =~= first + rest);
    let start = changes + (end + (dim + (title + first)));
    assert(start =~= before + first);
    assert(whole =~= nothing + start + (rest + after));
    lemma_occurs(whole, nothing, start, rest + after);
    let front = list.subrange(0, list.len() - last.len());
    assert(list =~= front + last);
    assert(whole =~= (before + front) + (last + after) + nothing);
    lemma_occurs(whole, before + front, last + after, nothing);
}

/// The screen can be drawn wherever the time is one of a day, the counts of the repository
/// fit their types, and the message of the last commit and the paths of the listed files
/// either fit or can be shortened.
pub proof fn law_what_can_be_drawn(m: Watch, f: Frame, w: u16, h: u16)
    requires
        f.size == Some((w, h)),
    ensures
        crate::render::is_drawable(m, f) <==> {
            let n = crate::rows::file_rows(m.recent).len();
            &&& f.clock < 86400
            &&& m.repo is Some ==> f.git.is_countable()
            &&& m.last_commit is Some ==> crate::text::end_can_be_cut(
                m.last_commit->0.summary,
                left_of(w, 25),
            )
            &&& forall|i: int|
                0 <= i < n && i < 20 && i < left_of(h, 8) ==> crate::text::start_can_be_cut(
                    crate::text::lossy_text(
                        crate::path::relative_to(
                            m.recent[(#[trigger] crate::rows::file_rows(m.recent)[i]).0].path,
                            m.workdir,
                        ),
                    ),
                    left_of(w, 25),
                )
        },
{
    assert(f.text_room() == left_of(w, 25));
}

/// Texts that fit leave nothing in the way of drawing.
pub proof fn law_short_texts_can_be_drawn(m: Watch, f: Frame, w: u16, h: u16)
    requires
        f.size == Some((w, h)),
        f.clock < 86400,
        m.repo is Some ==> f.git.is_countable(),
        m.last_commit is Some ==> vstd::utf8::encode_utf8(m.last_commit->0.summary).len() + 25 <= w,
        forall|i: int|
            0 <= i < m.recent.len() ==> vstd::utf8::encode_utf8(
                crate::text::lossy_text(
                    crate::path::relative_to((#[trigger] m.recent[i]).path, m.workdir),
                ),
            ).len() + 25 <= w,
    ensures
        crate::render::is_drawable(m, f),
{
    let rows = crate::rows::file_rows(m.recent);
    crate::rows::law_one_row_for_each_file(m.recent);
    assert forall|i: int|
        0 <= i < crate::render::shown_rows(m, f) implies crate::text::start_can_be_cut(
        crate::text::lossy_text(m.relative(m.recent[(#[trigger] rows[i]).0].path)),
        f.text_room(),
    ) by {
        assert(crate::rows::is_row(m.recent, m.recent.len() as int, rows[i]));
    }
}

} // verus!
