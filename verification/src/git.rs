//! What a git repository reports: file statuses, line counts and the commit at its head.

use crate::text::{first_line_of, path_text};
use vstd::prelude::*;

verus! {

/// The status flag of a file that is new in the index.
pub const INDEX_NEW: u32 = 0x1;

/// The status flag of a file that is modified in the index.
pub const INDEX_MODIFIED: u32 = 0x2;

/// The status flag of a file that is deleted in the index.
pub const INDEX_DELETED: u32 = 0x4;

/// The status flag of a file that is new in the working tree.
pub const WT_NEW: u32 = 0x80;

/// The status flag of a file that is modified in the working tree.
pub const WT_MODIFIED: u32 = 0x100;

/// The status flag of a file that is deleted in the working tree.
pub const WT_DELETED: u32 = 0x200;

/// Whether `flag` is set in `bits`.
pub open spec fn has_flag(bits: u32, flag: u32) -> bool {
    bits & flag != 0
}

/// `git2::Status::is_wt_modified`: whether the status with these bits has the flag.
#[verifier::external_body]
fn is_wt_modified(bits: u32) -> (set: bool)
    ensures
        set == has_flag(bits, WT_MODIFIED),
{
    git2::Status::from_bits_truncate(bits).is_wt_modified()
}

/// `git2::Status::is_wt_deleted`: whether the status with these bits has the flag.
#[verifier::external_body]
fn is_wt_deleted(bits: u32) -> (set: bool)
    ensures
        set == has_flag(bits, WT_DELETED),
{
    git2::Status::from_bits_truncate(bits).is_wt_deleted()
}

/// `git2::Status::is_wt_new`: whether the status with these bits has the flag.
#[verifier::external_body]
fn is_wt_new(bits: u32) -> (set: bool)
    ensures
        set == has_flag(bits, WT_NEW),
{
    git2::Status::from_bits_truncate(bits).is_wt_new()
}

/// `git2::Status::is_index_modified`: whether the status with these bits has the flag.
#[verifier::external_body]
fn is_index_modified(bits: u32) -> (set: bool)
    ensures
        set == has_flag(bits, INDEX_MODIFIED),
{
    git2::Status::from_bits_truncate(bits).is_index_modified()
}

/// `git2::Status::is_index_new`: whether the status with these bits has the flag.
#[verifier::external_body]
fn is_index_new(bits: u32) -> (set: bool)
    ensures
        set == has_flag(bits, INDEX_NEW),
{
    git2::Status::from_bits_truncate(bits).is_index_new()
}

/// `git2::Status::is_index_deleted`: whether the status with these bits has the flag.
#[verifier::external_body]
fn is_index_deleted(bits: u32) -> (set: bool)
    ensures
        set == has_flag(bits, INDEX_DELETED),
{
    git2::Status::from_bits_truncate(bits).is_index_deleted()
}

/// Whether a status counts as dirty: changed in the working tree.
pub open spec fn is_dirty(bits: u32) -> bool {
    has_flag(bits, WT_MODIFIED) || has_flag(bits, WT_DELETED)
}

/// Whether a status counts as staged: changed in the index.
pub open spec fn is_staged(bits: u32) -> bool {
    has_flag(bits, INDEX_MODIFIED) || has_flag(bits, INDEX_NEW) || has_flag(bits, INDEX_DELETED)
}

/// Whether a status counts as untracked: new in the working tree and not in the index.
pub open spec fn is_untracked(bits: u32) -> bool {
    has_flag(bits, WT_NEW) && !has_flag(bits, INDEX_NEW)
}

/// How many of the statuses are dirty.
pub open spec fn dirty_count(statuses: Seq<u32>) -> nat {
    statuses.filter(|bits: u32| is_dirty(bits)).len()
}

/// How many of the statuses are staged.
pub open spec fn staged_count(statuses: Seq<u32>) -> nat {
    statuses.filter(|bits: u32| is_staged(bits)).len()
}

/// How many of the statuses are untracked.
pub open spec fn untracked_count(statuses: Seq<u32>) -> nat {
    statuses.filter(|bits: u32| is_untracked(bits)).len()
}

/// Counts the dirty, the staged and the untracked statuses.
pub fn count_statuses(statuses: &Vec<u32>) -> (counts: (i32, i32, i32))
    requires
        statuses@.len() <= i32::MAX,
    ensures
        counts.0 == dirty_count(statuses@),
        counts.1 == staged_count(statuses@),
        counts.2 == untracked_count(statuses@),
{
    let mut dirty: i32 = 0;
    let mut staged: i32 = 0;
    let mut untracked: i32 = 0;
    let mut i: usize = 0;
    assert(statuses@.take(0) =~= Seq::<u32>::empty());
    proof {
        reveal(Seq::filter);
    }
    while i < statuses.len()
        invariant
            i <= statuses@.len() <= i32::MAX,
            0 <= dirty <= i,
            0 <= staged <= i,
            0 <= untracked <= i,
            dirty == dirty_count(statuses@.take(i as int)),
            staged == staged_count(statuses@.take(i as int)),
            untracked == untracked_count(statuses@.take(i as int)),
        decreases statuses@.len() - i,
    {
        let bits: u32 = statuses[i];
        proof {
            crate::seqs::lemma_filter_take(statuses@, i as int, |bits: u32| is_dirty(bits));
            crate::seqs::lemma_filter_take(statuses@, i as int, |bits: u32| is_staged(bits));
            crate::seqs::lemma_filter_take(statuses@, i as int, |bits: u32| is_untracked(bits));
        }
        if is_wt_modified(bits) || is_wt_deleted(bits) {
            dirty += 1;
        }
        if is_index_modified(bits) || is_index_new(bits) || is_index_deleted(bits) {
            staged += 1;
        }
        if is_wt_new(bits) && !is_index_new(bits) {
            untracked += 1;
        }
        i += 1;
    }
    assert(statuses@.take(i as int) =~= statuses@);
    (dirty, staged, untracked)
}

/// What was read of a repository for one screen. A reading that failed is `None`.
pub struct GitReading {
    /// The status flags of each entry, untracked files among them.
    pub statuses: Option<Vec<u32>>,
    /// The lines added and deleted between the head and the index.
    pub staged: Option<(usize, usize)>,
    /// The lines added and deleted between the index and the working tree.
    pub unstaged: Option<(usize, usize)>,
}

impl GitReading {
    /// The status flags, none where they could not be read.
    pub open spec fn entries(self) -> Seq<u32> {
        match self.statuses {
            Some(statuses) => statuses@,
            None => Seq::empty(),
        }
    }

    /// All lines added.
    pub open spec fn additions(self) -> int {
        lines_of(self.staged).0 + lines_of(self.unstaged).0
    }

    /// All lines deleted.
    pub open spec fn deletions(self) -> int {
        lines_of(self.staged).1 + lines_of(self.unstaged).1
    }

    /// Whether the counts fit the types that they are kept in.
    pub open spec fn is_countable(self) -> bool {
        &&& self.entries().len() <= i32::MAX
        &&& self.additions() <= usize::MAX
        &&& self.deletions() <= usize::MAX
    }

    /// Whether the counts fit the types that they are kept in.
    pub fn can_be_counted(&self) -> (r: bool)
        ensures
            r == self.is_countable(),
    {
        let few: bool = match &self.statuses {
            Some(statuses) => statuses.len() <= 0x7fff_ffff,
            None => true,
        };
        let staged: (usize, usize) = lines_or_none(self.staged);
        let unstaged: (usize, usize) = lines_or_none(self.unstaged);
        few && staged.0 <= usize::MAX - unstaged.0 && staged.1 <= usize::MAX - unstaged.1
    }
}

/// A count of added and deleted lines, zero where it could not be read.
pub open spec fn lines_of(reading: Option<(usize, usize)>) -> (usize, usize) {
    match reading {
        Some(lines) => lines,
        None => (0, 0),
    }
}

/// A count of added and deleted lines, zero where it could not be read.
pub(crate) fn lines_or_none(reading: Option<(usize, usize)>) -> (lines: (usize, usize))
    ensures
        lines == lines_of(reading),
{
    match reading {
        Some(lines) => lines,
        None => (0, 0),
    }
}

/// The commit at the head of a repository.
pub struct HeadCommit {
    /// Its object id.
    pub id: [u8; 20],
    /// Its message, `None` where that is no UTF-8.
    pub message: Option<String>,
    /// The raw bytes of the paths of the files that it changed.
    pub files: Vec<Vec<u8>>,
}

/// The hexadecimal digit of value `d`.
pub open spec fn hex_char(d: int) -> char {
    if d < 10 {
        ('0' as u32 + d) as char
    } else {
        ('a' as u32 + d - 10) as char
    }
}

/// The hexadecimal digits of `bytes`, the high digit of each byte first.
pub open spec fn hex(bytes: Seq<u8>) -> Seq<char> {
    Seq::new(
        2 * bytes.len(),
        |i: int| hex_char(if i % 2 == 0 { bytes[i / 2] as int / 16 } else { bytes[i / 2] as int % 16 }),
    )
}

/// The `Display` of a `git2::Oid` made from these bytes: their hexadecimal digits in
/// lower case.
#[verifier::external_body]
fn oid_text(id: &[u8; 20]) -> (text: String)
    ensures
        text@ == hex(id@),
{
    git2::Oid::from_bytes(id).unwrap().to_string()
}

impl HeadCommit {
    /// The name that the commit is shown by: the first seven digits of its id.
    pub open spec fn short_hash(self) -> Seq<char> {
        hex(self.id@).take(7)
    }

    /// The first line of the message, empty where there is no message.
    pub open spec fn summary(self) -> Seq<char> {
        match self.message {
            Some(message) => crate::text::first_line(message@),
            None => Seq::empty(),
        }
    }

    /// The texts of the paths of the files that the commit changed.
    pub open spec fn file_names(self) -> Seq<Seq<char>> {
        self.files@.map_values(|path: Vec<u8>| crate::text::lossy_text(path@))
    }

    /// The first seven digits of the commit's id.
    pub fn get_short_hash(&self) -> (hash: String)
        ensures
            hash@ == self.short_hash(),
    {
        let text: String = oid_text(&self.id);
        let hash: String = text.as_str().substring_char(0, 7).to_owned();
        assert(hash@ =~= self.short_hash());
        hash
    }

    /// The first line of the message, empty where there is no message.
    pub fn get_summary(&self) -> (line: String)
        ensures
            line@ == self.summary(),
    {
        match &self.message {
            Some(message) => first_line_of(message.as_str()),
            None => String::new(),
        }
    }

    /// The texts of the paths of the files that the commit changed. Paths that are UTF-8
    /// come out as themselves.
    pub fn get_file_names(&self) -> (names: Vec<String>)
        ensures
            crate::text::texts_of(names@) == self.file_names(),
            forall|i: int|
                0 <= i < self.files@.len() && vstd::utf8::valid_utf8(self.files@[i]@) ==> (
                #[trigger] names@[i])@ == vstd::utf8::decode_utf8(self.files@[i]@),
    {
        let mut names: Vec<String> = Vec::new();
        let mut i: usize = 0;
        while i < self.files.len()
            invariant
                i <= self.files@.len(),
                names@.len() == i,
                forall|j: int|
                    0 <= j < i ==> (#[trigger] names@[j])@ == crate::text::lossy_text(
                        self.files@[j]@,
                    ),
                forall|j: int|
                    0 <= j < i && vstd::utf8::valid_utf8(self.files@[j]@) ==> (
                    #[trigger] names@[j])@ == vstd::utf8::decode_utf8(self.files@[j]@),
            decreases self.files@.len() - i,
        {
            names.push(path_text(self.files[i].as_slice()));
            i += 1;
        }
        assert(crate::text::texts_of(names@) =~= self.file_names());
        names
    }
}

/// No status is counted twice under one heading, and every one that a heading is for
/// is counted: a heading's count is zero exactly where no status falls under it, and
/// never more than the number of statuses.
pub proof fn law_counts(statuses: Seq<u32>)
    ensures
        dirty_count(statuses) <= statuses.len(),
        staged_count(statuses) <= statuses.len(),
        untracked_count(statuses) <= statuses.len(),
        dirty_count(statuses) == 0 <==> forall|i: int|
            0 <= i < statuses.len() ==> !is_dirty(#[trigger] statuses[i]),
        staged_count(statuses) == 0 <==> forall|i: int|
            0 <= i < statuses.len() ==> !is_staged(#[trigger] statuses[i]),
        untracked_count(statuses) == 0 <==> forall|i: int|
            0 <= i < statuses.len() ==> !is_untracked(#[trigger] statuses[i]),
    decreases statuses.len(),
{
    reveal(Seq::filter);
    if statuses.len() > 0 {
        let rest = statuses.drop_last();
        law_counts(rest);
        assert(forall|i: int| 0 <= i < rest.len() ==> rest[i] == statuses[i]);
    }
}

/// A commit is shown by seven hexadecimal digits, those that its id starts with.
pub proof fn law_short_hash(commit: HeadCommit)
    ensures
        commit.short_hash().len() == 7,
        commit.short_hash().is_prefix_of(hex(commit.id@)),
        forall|i: int|
            0 <= i < 7 ==> {
                let c = #[trigger] commit.short_hash()[i];
                '0' <= c <= '9' || 'a' <= c <= 'f'
            },
{
    let hash = commit.short_hash();
    let all = hex(commit.id@);
    assert(hash =~= all.subrange(0, 7));
    assert forall|i: int| 0 <= i < 7 implies {
        let c = #[trigger] hash[i];
        '0' <= c <= '9' || 'a' <= c <= 'f'
    } by {
        assert(hash[i] == all[i]);
        let byte = commit.id@[i / 2];
        let d = if i % 2 == 0 {
            byte as int / 16
        } else {
            byte as int % 16
        };
        assert(0 <= d < 16);
        assert(all[i] == hex_char(d));
    }
}

/// Each count is the number of entries with one of its flags: modified or deleted in the
/// working tree; new, modified or deleted in the index; new in the working tree and not new
/// in the index.
pub proof fn law_counts_are_of_flags(statuses: Seq<u32>)
    ensures
        dirty_count(statuses) == statuses.filter(|bits: u32| bits & 0x300 != 0).len(),
        staged_count(statuses) == statuses.filter(|bits: u32| bits & 0x7 != 0).len(),
        untracked_count(statuses) == statuses.filter(
            |bits: u32| bits & 0x80 != 0 && bits & 0x1 == 0,
        ).len(),
{
    assert forall|bits: u32| #[trigger] is_dirty(bits) == (bits & 0x300 != 0) by {
        assert((bits & 0x100 != 0 || bits & 0x200 != 0) == (bits & 0x300 != 0)) by (bit_vector);
    }
    assert forall|bits: u32| #[trigger] is_staged(bits) == (bits & 0x7 != 0) by {
        assert((bits & 0x2 != 0 || bits & 0x1 != 0 || bits & 0x4 != 0) == (bits & 0x7 != 0))
            by (bit_vector);
    }
    assert((|bits: u32| is_dirty(bits)) =~= (|bits: u32| bits & 0x300 != 0));
    assert((|bits: u32| is_staged(bits)) =~= (|bits: u32| bits & 0x7 != 0));
    assert((|bits: u32| is_untracked(bits)) =~= (|bits: u32| bits & 0x80 != 0 && bits & 0x1 == 0));
}

/// An entry adds one to each count that it falls under, and nothing to the others, wherever
/// it stands.
pub proof fn law_counts_add_up(first: Seq<u32>, second: Seq<u32>, bits: u32)
    ensures
        dirty_count(first + second) == dirty_count(first) + dirty_count(second),
        staged_count(first + second) == staged_count(first) + staged_count(second),
        untracked_count(first + second) == untracked_count(first) + untracked_count(second),
        dirty_count(seq![bits]) == if bits & 0x300 != 0 {
            1nat
        } else {
            0nat
        },
        staged_count(seq![bits]) == if bits & 0x7 != 0 {
            1nat
        } else {
            0nat
        },
        untracked_count(seq![bits]) == if bits & 0x80 != 0 && bits & 0x1 == 0 {
            1nat
        } else {
            0nat
        },
{
    lemma_filter_add(first, second, |bits: u32| is_dirty(bits));
    lemma_filter_add(first, second, |bits: u32| is_staged(bits));
    lemma_filter_add(first, second, |bits: u32| is_untracked(bits));
    law_counts_are_of_flags(seq![bits]);
    reveal(Seq::filter);
    let one = seq![bits];
    assert(one.drop_last() =~= Seq::<u32>::empty());
    reveal_with_fuel(Seq::filter, 2);
}

proof fn lemma_filter_add(first: Seq<u32>, second: Seq<u32>, pred: spec_fn(u32) -> bool)
    ensures
        (first + second).filter(pred).len() == first.filter(pred).len() + second.filter(pred).len(),
    decreases second.len(),
{
    reveal(Seq::filter);
    if second.len() == 0 {
        assert(first + second =~= first);
    } else {
        assert((first + second).drop_last() =~= first + second.drop_last());
        lemma_filter_add(first, second.drop_last(), pred);
    }
}

/// The lines of a reading are those in the index and those in the working tree together. A
/// part that could not be read counts as none, and leaves the others as they are. Whatever
/// was read can be counted, unless there are too many entries or lines for their types.
pub proof fn law_lines_add_up(reading: GitReading)
    ensures
        ({
            let entries = if reading.statuses is Some {
                reading.statuses->0@
            } else {
                Seq::empty()
            };
            let staged = if reading.staged is Some {
                reading.staged->0
            } else {
                (0, 0)
            };
            let unstaged = if reading.unstaged is Some {
                reading.unstaged->0
            } else {
                (0, 0)
            };
            &&& reading.entries() == entries
            &&& lines_of(reading.staged) == staged
            &&& reading.additions() == staged.0 + unstaged.0
            &&& reading.deletions() == staged.1 + unstaged.1
            &&& reading.is_countable() <==> entries.len() <= 0x7fff_ffff && staged.0 + unstaged.0
                <= usize::MAX && staged.1 + unstaged.1 <= usize::MAX
        }),
{
}

/// The value of a hexadecimal digit.
pub open spec fn hex_value(c: char) -> int {
    if '0' <= c <= '9' {
        c as int - '0' as int
    } else {
        c as int - 'a' as int + 10
    }
}

/// Every byte has two hexadecimal digits that stand for it, the high one first.
pub proof fn law_hex(bytes: Seq<u8>, i: int)
    requires
        0 <= i < bytes.len(),
    ensures
        hex(bytes).len() == 2 * bytes.len(),
        16 * hex_value(hex(bytes)[2 * i]) + hex_value(hex(bytes)[2 * i + 1]) == bytes[i],
{
    let (high, low) = (bytes[i] as int / 16, bytes[i] as int % 16);
    assert((2 * i) / 2 == i && (2 * i) % 2 == 0);
    assert((2 * i + 1) / 2 == i && (2 * i + 1) % 2 == 1);
    assert(hex(bytes)[2 * i] == hex_char(high));
    assert(hex(bytes)[2 * i + 1] == hex_char(low));
    assert(hex_value(hex_char(high)) == high);
    assert(hex_value(hex_char(low)) == low);
}

/// What is shown of a commit is its own: the start of its id, the first line of its message
/// and nothing of the others, nothing where there is no message, and each of its files.
pub proof fn law_commit_texts(head: HeadCommit, line: Seq<char>, rest: Seq<char>)
    requires
        !line.contains('\n'),
        line.len() == 0 || line.last() != '\r',
    ensures
        head.short_hash() == hex(head.id@).subrange(0, 7),
        head.message is None ==> head.summary().len() == 0,
        head.message is Some ==> head.summary() == crate::text::first_line(head.message->0@),
        head.message is Some && (head.message->0@ == line || head.message->0@ == line + "\n"@ + rest
            || head.message->0@ == line + "\r\n"@ + rest) ==> head.summary() == line,
        head.file_names().len() == head.files@.len(),
        forall|i: int|
            0 <= i < head.files@.len() ==> #[trigger] head.file_names()[i]
                == crate::text::lossy_text(head.files@[i]@),
{
    crate::text::law_first_line_ends(line, rest);
    assert(head.short_hash() =~= hex(head.id@).subrange(0, 7));
}

} // verus!
