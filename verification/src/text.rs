//! Text: searching, cutting and composing it.

use vstd::prelude::*;
use vstd::utf8::*;

verus! {

/// The text of raw bytes, with a replacement character wherever they are not UTF-8.
pub uninterp spec fn lossy_text(bytes: Seq<u8>) -> Seq<char>;

/// `String::from_utf8_lossy`. Its result depends on the bytes alone, and bytes that
/// are UTF-8 come out as the text that they encode. Which replacement characters stand
/// for other bytes is left unsaid.
#[verifier::external_body]
fn lossy(bytes: &[u8]) -> (text: String)
    ensures
        text@ == lossy_text(bytes@),
        valid_utf8(bytes@) ==> text@ == decode_utf8(bytes@),
{
    String::from_utf8_lossy(bytes).into_owned()
}

/// The text of raw bytes, such as those of a path.
pub fn path_text(bytes: &[u8]) -> (text: String)
    ensures
        text@ == lossy_text(bytes@),
        valid_utf8(bytes@) ==> text@ == decode_utf8(bytes@),
{
    lossy(bytes)
}

/// The characters of `s`.
pub fn chars_of(s: &str) -> (chars: Vec<char>)
    ensures
        chars@ == s@,
{
    let mut chars: Vec<char> = Vec::new();
    for c in it: s.chars()
        invariant
            it.seq() == s@,
            chars@ == s@.take(it.index() as int),
    {
        chars.push(c);
    }
    chars
}

/// Whether `part` stands in `whole` at `i`.
pub open spec fn occurs_at(whole: Seq<char>, part: Seq<char>, i: int) -> bool {
    0 <= i && i + part.len() <= whole.len() && whole.subrange(i, i + part.len()) == part
}

/// Whether `part` stands somewhere in `whole`.
pub open spec fn occurs_in(whole: Seq<char>, part: Seq<char>) -> bool {
    exists|i: int| occurs_at(whole, part, i)
}

/// Whether `part` stands in `whole` at `i`.
fn stands_at(whole: &Vec<char>, part: &Vec<char>, i: usize) -> (r: bool)
    requires
        i + part@.len() <= whole@.len(),
    ensures
        r == occurs_at(whole@, part@, i as int),
{
    let mut k: usize = 0;
    while k < part.len()
        invariant
            k <= part@.len(),
            i + part@.len() <= whole.len(),
            forall|j: int| 0 <= j < k ==> whole@[i + j] == part@[j],
        decreases part@.len() - k,
    {
        if whole[i + k] != part[k] {
            assert(whole@.subrange(i as int, i + part@.len())[k as int] != part@[k as int]);
            return false;
        }
        k += 1;
    }
    assert(whole@.subrange(i as int, i + part@.len()) =~= part@);
    true
}

/// Whether `part` stands somewhere in `whole`.
pub fn contains(whole: &str, part: &str) -> (r: bool)
    ensures
        r == occurs_in(whole@, part@),
{
    let whole_chars: Vec<char> = chars_of(whole);
    let part_chars: Vec<char> = chars_of(part);
    if part_chars.len() > whole_chars.len() {
        return false;
    }
    let last: usize = whole_chars.len() - part_chars.len();
    let mut i: usize = 0;
    loop
        invariant
            whole_chars@ == whole@,
            part_chars@ == part@,
            last == whole@.len() - part@.len(),
            i <= last,
            forall|j: int| 0 <= j < i ==> !occurs_at(whole@, part@, j),
        decreases last - i,
    {
        if stands_at(&whole_chars, &part_chars, i) {
            return true;
        }
        if i == last {
            return false;
        }
        i += 1;
    }
}

/// Whether `whole` ends with `part`.
pub fn ends_with(whole: &str, part: &str) -> (r: bool)
    ensures
        r == part@.is_suffix_of(whole@),
{
    let whole_chars: Vec<char> = chars_of(whole);
    let part_chars: Vec<char> = chars_of(part);
    if part_chars.len() > whole_chars.len() {
        return false;
    }
    stands_at(&whole_chars, &part_chars, whole_chars.len() - part_chars.len())
}

/// Where the first line feed of `s` stands, or its length if it has none.
pub open spec fn line_feed(s: Seq<char>) -> int
    decreases s.len(),
{
    if s.len() == 0 || s[0] == '\n' {
        0
    } else {
        1 + line_feed(s.skip(1))
    }
}

/// The first line of `s`, without its line ending: a line feed, or a carriage return
/// and a line feed.
pub open spec fn first_line(s: Seq<char>) -> Seq<char> {
    let n = line_feed(s);
    if 0 < n < s.len() && s[n - 1] == '\r' {
        s.take(n - 1)
    } else {
        s.take(n)
    }
}

proof fn lemma_line_feed(s: Seq<char>, n: int)
    requires
        0 <= n <= s.len(),
        forall|i: int| 0 <= i < n ==> s[i] != '\n',
        n < s.len() ==> s[n] == '\n',
    ensures
        line_feed(s) == n,
    decreases n,
{
    if n > 0 {
        lemma_line_feed(s.skip(1), n - 1);
    }
}

/// The first line of `s`.
pub fn first_line_of(s: &str) -> (line: String)
    ensures
        line@ == first_line(s@),
{
    let chars: Vec<char> = chars_of(s);
    let mut n: usize = 0;
    while n < chars.len() && chars[n] != '\n'
        invariant
            n <= chars@.len(),
            chars@ == s@,
            forall|i: int| 0 <= i < n ==> s@[i] != '\n',
        decreases chars@.len() - n,
    {
        n += 1;
    }
    proof {
        lemma_line_feed(s@, n as int);
    }
    if 0 < n && n < chars.len() && chars[n - 1] == '\r' {
        n -= 1;
    }
    let line: &str = s.substring_char(0, n);
    assert(line@ =~= first_line(s@));
    line.to_owned()
}

/// The decimal digit of value `d`.
pub open spec fn digit_char(d: int) -> char {
    (('0' as u32) + d) as char
}

/// The decimal digits of `n`.
pub open spec fn decimal(n: nat) -> Seq<char>
    decreases n,
{
    if n < 10 {
        seq![digit_char(n as int)]
    } else {
        decimal(n / 10).push(digit_char((n % 10) as int))
    }
}

/// The decimal digit of value `d`.
fn digit(d: u64) -> (text: &'static str)
    requires
        d < 10,
    ensures
        text@ == seq![digit_char(d as int)],
{
    proof {
        reveal_strlit("0");
        reveal_strlit("1");
        reveal_strlit("2");
        reveal_strlit("3");
        reveal_strlit("4");
        reveal_strlit("5");
        reveal_strlit("6");
        reveal_strlit("7");
        reveal_strlit("8");
        reveal_strlit("9");
    }
    match d {
        0 => "0",
        1 => "1",
        2 => "2",
        3 => "3",
        4 => "4",
        5 => "5",
        6 => "6",
        7 => "7",
        8 => "8",
        _ => "9",
    }
}

/// Writes `n` in decimal.
pub fn decimal_of(n: u64) -> (text: String)
    ensures
        text@ == decimal(n as nat),
    decreases n,
{
    if n < 10 {
        digit(n).to_owned()
    } else {
        let mut text: String = decimal_of(n / 10);
        text.append(digit(n % 10));
        assert(text@ =~= decimal(n as nat));
        text
    }
}

/// The texts of strings.
pub open spec fn texts_of(parts: Seq<String>) -> Seq<Seq<char>> {
    parts.map_values(|s: String| s@)
}

/// The parts, with `separator` between them.
pub open spec fn separated(parts: Seq<Seq<char>>, separator: Seq<char>) -> Seq<char>
    decreases parts.len(),
{
    if parts.len() == 0 {
        Seq::empty()
    } else if parts.len() == 1 {
        parts[0]
    } else {
        separated(parts.drop_last(), separator) + separator + parts.last()
    }
}

/// The parts, with `separator` between them.
pub fn with_separator(parts: &Vec<String>, separator: &str) -> (text: String)
    ensures
        text@ == separated(texts_of(parts@), separator@),
{
    let ghost all = texts_of(parts@);
    let mut text: String = String::new();
    let mut i: usize = 0;
    assert(all.take(0) =~= Seq::<Seq<char>>::empty());
    while i < parts.len()
        invariant
            all == texts_of(parts@),
            i <= parts@.len(),
            text@ == separated(all.take(i as int), separator@),
        decreases parts@.len() - i,
    {
        assert(all.take(i + 1).drop_last() =~= all.take(i as int));
        if i > 0 {
            text.append(separator);
        }
        text.append(parts[i].as_str());
        assert(text@ =~= separated(all.take(i + 1), separator@));
        i += 1;
    }
    assert(all.take(i as int) =~= all);
    text
}

/// The text `part`, `n` times.
pub open spec fn repeated(part: Seq<char>, n: nat) -> Seq<char>
    decreases n,
{
    if n == 0 {
        Seq::empty()
    } else {
        repeated(part, (n - 1) as nat) + part
    }
}

/// The text `part`, `n` times.
pub fn repeat(part: &str, n: usize) -> (text: String)
    ensures
        text@ == repeated(part@, n as nat),
{
    let mut text: String = String::new();
    let mut i: usize = 0;
    while i < n
        invariant
            i <= n,
            text@ == repeated(part@, i as nat),
        decreases n - i,
    {
        text.append(part);
        i += 1;
    }
    text
}

/// The spaces after a text of `len` characters that fill a column of `width`, and at least
/// `least` of them.
pub open spec fn gap(len: nat, width: nat, least: nat) -> Seq<char> {
    repeated(
        " "@,
        if len + least <= width {
            (width - len) as nat
        } else {
            least
        },
    )
}

/// The spaces after a text that fill a column.
pub fn gap_after(text: &str, width: usize, least: usize) -> (spaces: String)
    ensures
        spaces@ == gap(text@.len(), width as nat, least as nat),
{
    let len: usize = text.unicode_len();
    if len <= width && width - len >= least {
        repeat(" ", width - len)
    } else {
        repeat(" ", least)
    }
}

/// How many bytes `s` takes.
pub open spec fn byte_len(s: Seq<char>) -> nat {
    encode_utf8(s).len()
}

/// Whether a character of `s` starts at byte `k`, or `s` ends there.
pub open spec fn cuts_at(s: Seq<char>, k: int) -> bool {
    is_char_boundary(encode_utf8(s), k)
}

/// The text in the first `k` bytes of `s`.
pub open spec fn byte_prefix(s: Seq<char>, k: int) -> Seq<char> {
    decode_utf8(encode_utf8(s).subrange(0, k))
}

/// The text in the bytes of `s` from `k` on.
pub open spec fn byte_suffix(s: Seq<char>, k: int) -> Seq<char> {
    decode_utf8(encode_utf8(s).subrange(k, encode_utf8(s).len() as int))
}

/// `n - k`, or zero where that is negative.
pub open spec fn less(n: nat, k: nat) -> nat {
    if n < k {
        0
    } else {
        (n - k) as nat
    }
}

/// Whether `s` can be shortened at its end to `max` bytes without cutting a character.
pub open spec fn end_can_be_cut(s: Seq<char>, max: nat) -> bool {
    byte_len(s) > max ==> cuts_at(s, less(max, 3) as int)
}

/// `s`, with its end replaced by dots if it takes more than `max` bytes.
pub open spec fn with_end_cut(s: Seq<char>, max: nat) -> Seq<char> {
    if byte_len(s) > max {
        byte_prefix(s, less(max, 3) as int) + "..."@
    } else {
        s
    }
}

/// The last place at or before byte `k` of `s` where a character starts.
pub open spec fn last_cut(s: Seq<char>, k: nat) -> nat
    decreases k,
{
    if k == 0 || cuts_at(s, k as int) {
        k
    } else {
        last_cut(s, (k - 1) as nat)
    }
}

/// `s`, with its end replaced by dots if it takes more than `max` bytes; no character is cut.
pub open spec fn shortened(s: Seq<char>, max: nat) -> Seq<char> {
    if byte_len(s) > max {
        byte_prefix(s, last_cut(s, less(max, 3)) as int) + "..."@
    } else {
        s
    }
}

/// Whether `s` can be shortened at its start to `max` bytes without cutting a character.
pub open spec fn start_can_be_cut(s: Seq<char>, max: nat) -> bool {
    byte_len(s) > max ==> cuts_at(s, byte_len(s) - max + 3)
}

/// `s`, with its start replaced by dots if it takes more than `max` bytes.
pub open spec fn with_start_cut(s: Seq<char>, max: nat) -> Seq<char> {
    if byte_len(s) > max {
        "..."@ + byte_suffix(s, byte_len(s) - max + 3)
    } else {
        s
    }
}

/// How many bytes `s` takes.
fn len_of(s: &str) -> (n: usize)
    ensures
        n == byte_len(s@),
{
    s.as_bytes().len()
}

/// `s` cut in two at byte `k`.
fn cut<'a>(s: &'a str, k: usize) -> (parts: (&'a str, &'a str))
    requires
        cuts_at(s@, k as int),
    ensures
        parts.0@ == byte_prefix(s@, k as int),
        parts.1@ == byte_suffix(s@, k as int),
{
    let parts: (&str, &str) = s.split_at(k);
    proof {
        encode_utf8_decode_utf8(parts.0@);
        encode_utf8_decode_utf8(parts.1@);
    }
    parts
}

/// Whether `s` can be shortened at its end to `max` bytes without cutting a character.
pub fn can_cut_end(s: &str, max: usize) -> (r: bool)
    ensures
        r == end_can_be_cut(s@, max as nat),
{
    len_of(s) <= max || s.is_char_boundary(max.saturating_sub(3))
}

/// Shortens `s` at its end to `max` bytes.
pub fn cut_end(s: &str, max: usize) -> (text: String)
    requires
        end_can_be_cut(s@, max as nat),
    ensures
        text@ == with_end_cut(s@, max as nat),
{
    if len_of(s) > max {
        let mut text: String = cut(s, max.saturating_sub(3)).0.to_owned();
        text.append("...");
        text
    } else {
        s.to_owned()
    }
}

/// Shortens `s` at its end to `max` bytes, or fewer where a character would be cut.
pub fn shorten(s: &str, max: usize) -> (text: String)
    ensures
        text@ == shortened(s@, max as nat),
{
    if len_of(s) > max {
        let mut k: usize = max.saturating_sub(3);
        while k > 0 && !s.is_char_boundary(k)
            invariant
                last_cut(s@, k as nat) == last_cut(s@, less(max as nat, 3)),
            decreases k,
        {
            k -= 1;
        }
        proof {
            encode_utf8_valid_utf8(s@);
            is_char_boundary_start_end_of_seq(encode_utf8(s@));
        }
        let mut text: String = cut(s, k).0.to_owned();
        text.append("...");
        text
    } else {
        s.to_owned()
    }
}

/// Whether `s` can be shortened at its start to `max` bytes without cutting a character.
pub fn can_cut_start(s: &str, max: usize) -> (r: bool)
    ensures
        r == start_can_be_cut(s@, max as nat),
{
    let n: usize = len_of(s);
    proof {
        encode_utf8_valid_utf8(s@);
    }
    n <= max || (max >= 3 && s.is_char_boundary(n - max + 3))
}

/// Shortens `s` at its start to `max` bytes.
pub fn cut_start(s: &str, max: usize) -> (text: String)
    requires
        start_can_be_cut(s@, max as nat),
    ensures
        text@ == with_start_cut(s@, max as nat),
{
    let n: usize = len_of(s);
    if n > max {
        proof {
            encode_utf8_valid_utf8(s@);
            lemma_boundary_bounds(encode_utf8(s@), n - max + 3);
        }
        let mut text: String = "...".to_owned();
        text.append(cut(s, n - max + 3).1);
        text
    } else {
        s.to_owned()
    }
}

proof fn lemma_boundary_bounds(bytes: Seq<u8>, k: int)
    requires
        valid_utf8(bytes),
        is_char_boundary(bytes, k),
    ensures
        0 <= k <= bytes.len(),
{
}

proof fn lemma_encode_concat(a: Seq<char>, b: Seq<char>)
    ensures
        encode_utf8(a + b) == encode_utf8(a) + encode_utf8(b),
    decreases a.len(),
{
    if a.len() == 0 {
        assert(a + b =~= b);
        assert(encode_utf8(a) + encode_utf8(b) =~= encode_utf8(b));
    } else {
        assert((a + b).drop_first() =~= a.drop_first() + b);
        lemma_encode_concat(a.drop_first(), b);
        assert(encode_utf8(a + b) =~= encode_utf8(a) + encode_utf8(b));
    }
}

proof fn lemma_dots()
    ensures
        byte_len("..."@) == 3,
{
    reveal_strlit("...");
    assert(is_ascii_chars("..."@));
    is_ascii_chars_encode_utf8("..."@);
}

/// Text that is shortened at its end takes at most the bytes it was given, as long as
/// those hold the dots.
pub proof fn law_end_cut_fits(s: Seq<char>, max: nat)
    requires
        end_can_be_cut(s, max),
        max >= 3,
    ensures
        byte_len(with_end_cut(s, max)) <= max,
{
    if byte_len(s) > max {
        let bytes = encode_utf8(s);
        let k = max - 3;
        encode_utf8_valid_utf8(s);
        valid_utf8_split(bytes, k);
        decode_utf8_encode_utf8(bytes.subrange(0, k));
        lemma_encode_concat(byte_prefix(s, k), "..."@);
        lemma_dots();
    }
}

proof fn lemma_last_cut(s: Seq<char>, k: nat)
    ensures
        last_cut(s, k) <= k,
        cuts_at(s, last_cut(s, k) as int),
    decreases k,
{
    encode_utf8_valid_utf8(s);
    is_char_boundary_start_end_of_seq(encode_utf8(s));
    if k > 0 && !cuts_at(s, k as int) {
        lemma_last_cut(s, (k - 1) as nat);
    }
}

/// Text that is shortened without cutting a character takes at most the bytes it was
/// given, as long as those hold the dots; where the cut falls between two characters
/// anyway, no more is left out than there has to be.
pub proof fn law_shortened_fits(s: Seq<char>, max: nat)
    requires
        max >= 3,
    ensures
        byte_len(shortened(s, max)) <= max,
        end_can_be_cut(s, max) ==> shortened(s, max) == with_end_cut(s, max),
{
    if byte_len(s) > max {
        let bytes = encode_utf8(s);
        let k = last_cut(s, less(max, 3)) as int;
        lemma_last_cut(s, less(max, 3));
        encode_utf8_valid_utf8(s);
        valid_utf8_split(bytes, k);
        decode_utf8_encode_utf8(bytes.subrange(0, k));
        lemma_encode_concat(byte_prefix(s, k), "..."@);
        lemma_dots();
    }
}

/// Text that is shortened at its start takes at most the bytes it was given.
pub proof fn law_start_cut_fits(s: Seq<char>, max: nat)
    requires
        start_can_be_cut(s, max),
    ensures
        byte_len(with_start_cut(s, max)) <= max,
{
    if byte_len(s) > max {
        let bytes = encode_utf8(s);
        let k = bytes.len() - max + 3;
        encode_utf8_valid_utf8(s);
        lemma_boundary_bounds(bytes, k);
        valid_utf8_split(bytes, k);
        decode_utf8_encode_utf8(bytes.subrange(k, bytes.len() as int));
        lemma_encode_concat("..."@, byte_suffix(s, k));
        lemma_dots();
    }
}

/// ASCII text can be shortened to any length, at its start as long as there is room for
/// the dots.
pub proof fn law_ascii_can_be_cut(s: Seq<char>, max: nat)
    requires
        is_ascii_chars(s),
    ensures
        end_can_be_cut(s, max),
        max >= 3 ==> start_can_be_cut(s, max),
{
    lemma_ascii_cuts(s, less(max, 3) as int);
    lemma_ascii_cuts(s, byte_len(s) - max + 3);
}

proof fn lemma_ascii_cuts(s: Seq<char>, k: int)
    requires
        is_ascii_chars(s),
    ensures
        0 <= k <= byte_len(s) ==> cuts_at(s, k),
{
    let bytes = encode_utf8(s);
    encode_utf8_valid_utf8(s);
    is_ascii_chars_encode_utf8(s);
    if 0 <= k < bytes.len() {
        assert('\0' <= s[k] <= '\u{7f}');
        assert(s[k] as u8 == bytes[k]);
        is_char_boundary_iff_not_is_continuation_byte(bytes, k);
    }
    is_char_boundary_start_end_of_seq(bytes);
}

/// The first line of a text is where the text starts, and holds no line feed.
pub proof fn law_first_line(s: Seq<char>)
    ensures
        first_line(s).is_prefix_of(s),
        !first_line(s).contains('\n'),
{
    lemma_line_feed_first(s);
    let line = first_line(s);
    assert(line =~= s.subrange(0, line.len() as int));
    if line.contains('\n') {
        let i = choose|i: int| 0 <= i < line.len() && line[i] == '\n';
        assert(s[i] == '\n');
    }
}

proof fn lemma_line_feed_first(s: Seq<char>)
    ensures
        0 <= line_feed(s) <= s.len(),
        forall|i: int| 0 <= i < line_feed(s) ==> s[i] != '\n',
    decreases s.len(),
{
    if s.len() > 0 && s[0] != '\n' {
        let rest = s.skip(1);
        lemma_line_feed_first(rest);
        assert forall|i: int| 0 <= i < line_feed(s) implies s[i] != '\n' by {
            if i > 0 {
                assert(rest[i - 1] == s[i]);
            }
        }
    }
}

/// A text occurs wherever it is put: between any two texts. And one that occurs in another
/// splits it into what stands before it, itself, and what stands behind it.
pub proof fn law_occurs(before: Seq<char>, part: Seq<char>, after: Seq<char>, whole: Seq<char>)
    ensures
        occurs_in(before + part + after, part),
        occurs_at(before + part + after, part, before.len() as int),
        occurs_in(whole, part) ==> exists|i: int|
            0 <= i && i + part.len() <= whole.len() && #[trigger] whole.take(i) + part + whole.skip(
                i + part.len(),
            ) == whole,
{
    let all = before + part + after;
    assert(all.subrange(before.len() as int, (before.len() + part.len()) as int) =~= part);
    assert(occurs_at(all, part, before.len() as int));
    if occurs_in(whole, part) {
        let i = choose|i: int| occurs_at(whole, part, i);
        assert(whole.take(i) + whole.subrange(i, i + part.len()) + whole.skip(i + part.len())
            =~= whole);
    }
}

/// What occurs in a part of a text occurs in the text.
pub proof fn law_occurs_within(whole: Seq<char>, middle: Seq<char>, part: Seq<char>)
    requires
        occurs_in(whole, middle),
        occurs_in(middle, part),
    ensures
        occurs_in(whole, part),
{
    let i = choose|i: int| occurs_at(whole, middle, i);
    let j = choose|j: int| occurs_at(middle, part, j);
    assert(whole.subrange(i + j, i + j + part.len()) =~= middle.subrange(j, j + part.len()));
    assert(occurs_at(whole, part, i + j));
}

/// The first line of a text ends where its first line ending is, whatever comes behind it;
/// a text without a line ending is one line.
pub proof fn law_first_line_ends(line: Seq<char>, rest: Seq<char>)
    requires
        !line.contains('\n'),
    ensures
        first_line(line) == line,
        first_line(line + "\r\n"@ + rest) == line,
        line.len() == 0 || line.last() != '\r' ==> first_line(line + "\n"@ + rest) == line,
{
    reveal_strlit("\r\n");
    reveal_strlit("\n");
    let n = line.len() as int;
    assert forall|i: int| 0 <= i < n implies line[i] != '\n' by {
        assert(line.contains(line[i]));
    }
    lemma_line_feed(line, n);
    assert(first_line(line) =~= line);
    let long = line + "\r\n"@ + rest;
    lemma_line_feed(long, n + 1);
    assert(first_line(long) =~= line);
    let short = line + "\n"@ + rest;
    lemma_line_feed(short, n);
    assert(short.take(n) =~= line);
    if n > 0 {
        assert(short[n - 1] == line.last());
    }
}

/// The number that decimal digits stand for.
pub open spec fn digits_value(digits: Seq<char>) -> int
    decreases digits.len(),
{
    if digits.len() == 0 {
        0
    } else {
        10 * digits_value(digits.drop_last()) + (digits.last() as int - '0' as int)
    }
}

/// A number is written in decimal digits that stand for it, with no zero in front.
pub proof fn law_decimal(n: nat)
    ensures
        digits_value(decimal(n)) == n,
        decimal(n).len() > 0,
        n > 0 ==> decimal(n)[0] != '0',
        forall|i: int| 0 <= i < decimal(n).len() ==> '0' <= #[trigger] decimal(n)[i] <= '9',
    decreases n,
{
    reveal_with_fuel(digits_value, 2);
    if n < 10 {
        assert(decimal(n).drop_last() =~= Seq::<char>::empty());
    } else {
        law_decimal(n / 10);
        let front = decimal(n / 10);
        assert(decimal(n).drop_last() =~= front);
        assert(decimal(n)[0] == front[0]);
    }
}

/// One part stands alone, and two lists of parts have one separator between them.
pub proof fn law_separated(
    first: Seq<Seq<char>>,
    second: Seq<Seq<char>>,
    part: Seq<char>,
    separator: Seq<char>,
)
    ensures
        separated(Seq::empty(), separator) == Seq::<char>::empty(),
        separated(seq![part], separator) == part,
        first.len() > 0 && second.len() > 0 ==> separated(first + second, separator) == separated(
            first,
            separator,
        ) + separator + separated(second, separator),
    decreases second.len(),
{
    if first.len() > 0 && second.len() > 0 {
        let all = first + second;
        assert(all.drop_last() =~= first + second.drop_last());
        if second.len() == 1 {
            assert(first + second.drop_last() =~= first);
        } else {
            law_separated(first, second.drop_last(), part, separator);
        }
        assert(separated(all, separator) =~= separated(first, separator) + separator + separated(
            second,
            separator,
        ));
    }
}

/// Repeating a text adds up, and once is the text.
pub proof fn law_repeated(part: Seq<char>, m: nat, n: nat)
    ensures
        repeated(part, 1) == part,
        repeated(part, m + n) == repeated(part, m) + repeated(part, n),
        part.len() == 1 ==> repeated(part, n) == Seq::new(n, |i: int| part[0]),
    decreases n,
{
    reveal_with_fuel(repeated, 2);
    assert(repeated(part, 1) =~= part);
    if n == 0 {
        assert(repeated(part, m + n) =~= repeated(part, m) + repeated(part, n));
    } else {
        law_repeated(part, m, (n - 1) as nat);
        assert(repeated(part, m + n) =~= repeated(part, m) + repeated(part, n));
    }
    if part.len() == 1 {
        assert(repeated(part, n) =~= Seq::new(n, |i: int| part[0]));
    }
}

/// A gap is made of spaces. It fills the column where that leaves the least gap, and is the
/// least gap otherwise.
pub proof fn law_gap(len: nat, width: nat, least: nat)
    ensures
        len + least <= width ==> gap(len, width, least) == Seq::new(
            (width - len) as nat,
            |i: int| ' ',
        ),
        len + least > width ==> gap(len, width, least) == Seq::new(least, |i: int| ' '),
{
    reveal_strlit(" ");
    let n = if len + least <= width {
        (width - len) as nat
    } else {
        least
    };
    law_repeated(" "@, 0, n);
    assert(Seq::new(n, |i: int| " "@[0]) =~= Seq::new(n, |i: int| ' '));
}

/// Between two characters a text can be cut, and the cut gives its two parts.
proof fn lemma_cut_between(kept: Seq<char>, left: Seq<char>)
    ensures
        cuts_at(kept + left, byte_len(kept) as int),
        byte_prefix(kept + left, byte_len(kept) as int) == kept,
        byte_suffix(kept + left, byte_len(kept) as int) == left,
        byte_len(kept + left) == byte_len(kept) + byte_len(left),
    decreases kept.len(),
{
    let all = kept + left;
    let k = byte_len(kept) as int;
    let bytes = encode_utf8(all);
    lemma_encode_concat(kept, left);
    encode_utf8_valid_utf8(all);
    assert(bytes.subrange(0, k) =~= encode_utf8(kept));
    assert(bytes.subrange(k, bytes.len() as int) =~= encode_utf8(left));
    encode_utf8_decode_utf8(kept);
    encode_utf8_decode_utf8(left);
    if kept.len() > 0 {
        encode_utf8_first_scalar(all);
        assert(all[0] == kept[0]);
        assert(all.drop_first() =~= kept.drop_first() + left);
        lemma_cut_between(kept.drop_first(), left);
        assert(pop_first_scalar(bytes) =~= encode_utf8(all.drop_first()));
    }
}

/// Where a text can be cut, it has a part of that many bytes.
proof fn lemma_cut_splits(s: Seq<char>, k: int) -> (n: int)
    requires
        cuts_at(s, k),
    ensures
        0 <= n <= s.len(),
        byte_len(s.take(n)) == k,
{
    let bytes = encode_utf8(s);
    encode_utf8_valid_utf8(s);
    lemma_boundary_bounds(bytes, k);
    valid_utf8_split(bytes, k);
    decode_utf8_encode_utf8(bytes.subrange(0, k));
    decode_utf8_encode_utf8(bytes.subrange(k, bytes.len() as int));
    let (kept, left) = (byte_prefix(s, k), byte_suffix(s, k));
    lemma_encode_concat(kept, left);
    assert(encode_utf8(kept + left) =~= bytes);
    encode_utf8_decode_utf8(s);
    encode_utf8_decode_utf8(kept + left);
    assert(s == kept + left);
    assert(s.take(kept.len() as int) =~= kept);
    kept.len() as int
}

/// More characters take more bytes.
proof fn lemma_bytes_grow(s: Seq<char>, a: int, b: int)
    requires
        0 <= a <= b <= s.len(),
    ensures
        byte_len(s.take(a)) + (b - a) <= byte_len(s.take(b)),
    decreases b - a,
{
    if a < b {
        lemma_bytes_grow(s, a, b - 1);
        let one = seq![s[b - 1]];
        assert(s.take(b) =~= s.take(b - 1) + one);
        lemma_encode_concat(s.take(b - 1), one);
        encode_utf8_first_scalar(one);
        encode_utf8_valid_utf8(one);
    }
}

/// A text that fits is left alone. One that does not is cut so that what is kept of its
/// start takes as many bytes as the dots leave: it can be cut exactly where the bytes of
/// some of its characters come to that.
pub proof fn law_end_cut(kept: Seq<char>, left: Seq<char>, max: nat)
    requires
        encode_utf8(kept).len() + 3 == max || kept.len() == 0 && max < 3,
    ensures
        encode_utf8(kept + left).len() <= max ==> with_end_cut(kept + left, max) == kept + left
            && end_can_be_cut(kept + left, max),
        encode_utf8(kept + left).len() > max ==> with_end_cut(kept + left, max) == kept + "..."@
            && end_can_be_cut(kept + left, max),
{
    lemma_cut_between(kept, left);
}

/// A text that is too long and can be cut at its end has a start for which there is room.
pub proof fn law_end_cut_splits(s: Seq<char>, max: nat)
    requires
        end_can_be_cut(s, max),
        encode_utf8(s).len() > max,
    ensures
        exists|n: int|
            0 <= n <= s.len() && encode_utf8(#[trigger] s.take(n)).len() == (if max < 3 {
                0
            } else {
                max - 3
            }),
{
    let n = lemma_cut_splits(s, less(max, 3) as int);
    assert(encode_utf8(s.take(n)).len() == less(max, 3));
}

/// A text that fits is left alone. One that does not is cut so that what is kept of its end
/// takes as many bytes as the dots leave.
pub proof fn law_start_cut(left: Seq<char>, kept: Seq<char>, max: nat)
    requires
        encode_utf8(kept).len() + 3 == max,
    ensures
        encode_utf8(left + kept).len() <= max ==> with_start_cut(left + kept, max) == left + kept
            && start_can_be_cut(left + kept, max),
        encode_utf8(left + kept).len() > max ==> with_start_cut(left + kept, max) == "..."@ + kept
            && start_can_be_cut(left + kept, max),
{
    lemma_cut_between(left, kept);
}

/// A text that is too long and can be cut at its start has an end for which there is room.
pub proof fn law_start_cut_splits(s: Seq<char>, max: nat)
    requires
        start_can_be_cut(s, max),
        encode_utf8(s).len() > max,
    ensures
        exists|n: int|
            0 <= n <= s.len() && encode_utf8(#[trigger] s.skip(n)).len() + 3 == max,
{
    let k = byte_len(s) - max + 3;
    let n = lemma_cut_splits(s, k);
    assert(s.take(n) + s.skip(n) =~= s);
    lemma_cut_between(s.take(n), s.skip(n));
    assert(encode_utf8(s.skip(n)).len() + 3 == max);
}

/// A text that fits is left alone. Of one that does not, as many characters are kept as
/// there is room for beside the dots: one more would be too many.
pub proof fn law_shortened_keeps_the_most(kept: Seq<char>, next: char, left: Seq<char>, max: nat)
    requires
        kept.len() == 0 || encode_utf8(kept).len() + 3 <= max,
        encode_utf8(kept.push(next)).len() + 3 > max,
    ensures
        ({
            let s = kept.push(next) + left;
            shortened(s, max) == if encode_utf8(s).len() <= max {
                s
            } else {
                kept + "..."@
            }
        }),
{
    let s = kept.push(next) + left;
    let room = less(max, 3);
    let k = byte_len(kept);
    assert(s =~= kept + (seq![next] + left));
    lemma_cut_between(kept, seq![next] + left);
    assert forall|j: nat| k < j <= room implies !#[trigger] cuts_at(s, j as int) by {
        if cuts_at(s, j as int) {
            let n = lemma_cut_splits(s, j as int);
            if n <= kept.len() {
                lemma_bytes_grow(s, n, kept.len() as int);
                assert(s.take(kept.len() as int) =~= kept);
            } else {
                lemma_bytes_grow(s, (kept.len() + 1) as int, n);
                assert(s.take((kept.len() + 1) as int) =~= kept.push(next));
            }
        }
    }
    lemma_last_cut_is(s, room, k);
}

proof fn lemma_last_cut_is(s: Seq<char>, from: nat, k: nat)
    requires
        k <= from,
        cuts_at(s, k as int),
        forall|j: nat| k < j <= from ==> !#[trigger] cuts_at(s, j as int),
    ensures
        last_cut(s, from) == k,
    decreases from,
{
    if from > k {
        assert(!cuts_at(s, from as int));
        lemma_last_cut_is(s, (from - 1) as nat, k);
    }
}

} // verus!
