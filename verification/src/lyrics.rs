//! Timed lyrics: the parser of the `[mm:ss.xx]text` line format.
//!
//! Text without any `[` is one unsynchronised line at time 0. Otherwise each
//! line that opens with a timestamp in brackets gives one timed line, lines
//! that do not are passed over, and timed lines that share a millisecond are
//! joined, in the order of the file, with a line feed between them. What comes
//! out is ordered by time, each millisecond at most once.

use crate::text::{
    ascii_lower, char_to_lower, find, find_in, lemma_find, lowered, to_chars, to_string, trim,
    trim_in,
};
use crate::timestamp::{timestamp_in, timestamp_millis};
use std::collections::HashMap;
use vstd::prelude::*;
use vstd::std_specs::hash::*;
use vstd::std_specs::iter::IteratorSpec;
use vstd::string::*;

verus! {

/// One line of lyrics and the time at which it is sung.
#[derive(Debug, Clone, PartialEq, Eq)]
pub struct LyricLine {
    /// Milliseconds from the start of the track.
    pub time_ms: u64,
    /// The words; several lines where timed lines were joined.
    pub text: String,
}

/// What a `LyricLine` stands for.
pub struct LyricLineView {
    pub time_ms: nat,
    pub text: Seq<char>,
}

impl View for LyricLine {
    type V = LyricLineView;

    open spec fn view(&self) -> LyricLineView {
        LyricLineView { time_ms: self.time_ms as nat, text: self.text@ }
    }
}

/// The views of a sequence of lines.
pub open spec fn lines_view(lines: Seq<LyricLine>) -> Seq<LyricLineView> {
    lines.map_values(|line: LyricLine| line@)
}

/// The timed line that one line of a file gives, if it gives one: the
/// timestamp stands between the first `[` and the first `]`, the words are
/// what follows the `]`, trimmed.
pub open spec fn line_of(line: Seq<char>) -> Option<LyricLineView> {
    let open = find(line, '[');
    let close = find(line, ']');
    if open < close < line.len() {
        match timestamp_millis(line.subrange(open + 1 as int, close as int)) {
            Some(time_ms) => Some(LyricLineView { time_ms, text: trim(line.skip(close + 1 as int)) }),
            None => None,
        }
    } else {
        None
    }
}

/// The timed lines of `text`, in the order of the file. Lines end at a line feed.
pub open spec fn timed_lines(text: Seq<char>) -> Seq<LyricLineView>
    decreases text.len(),
{
    let eol = find(text, '\n');
    let first = match line_of(text.take(eol as int)) {
        Some(line) => seq![line],
        None => Seq::empty(),
    };
    if eol < text.len() {
        first + timed_lines(text.skip(eol + 1 as int))
    } else {
        first
    }
}

/// The number of entries of `set` in front of the first whose time is `time_ms` or later.
pub open spec fn insertion_point(set: Seq<LyricLineView>, time_ms: nat) -> nat
    decreases set.len(),
{
    if set.len() == 0 || set[0].time_ms >= time_ms {
        0
    } else {
        1 + insertion_point(set.skip(1), time_ms)
    }
}

/// `words` after `earlier` at the same time: on a line of their own, unless
/// they are empty, in which case nothing is added.
pub open spec fn joined(earlier: Seq<char>, words: Seq<char>) -> Seq<char> {
    if words.len() == 0 {
        earlier
    } else {
        earlier + seq!['\n'] + words
    }
}

/// `set` with `line` merged in: joined to the entry of the same time where
/// there is one, and put in at its place in the order of time otherwise.
pub open spec fn merged(set: Seq<LyricLineView>, line: LyricLineView) -> Seq<LyricLineView> {
    let at = insertion_point(set, line.time_ms) as int;
    if at < set.len() && set[at].time_ms == line.time_ms {
        set.update(
            at,
            LyricLineView { time_ms: line.time_ms, text: joined(set[at].text, line.text) },
        )
    } else {
        set.insert(at, line)
    }
}

/// `set` with each of `lines` merged in, the first one first.
pub open spec fn merged_all(set: Seq<LyricLineView>, lines: Seq<LyricLineView>) -> Seq<
    LyricLineView,
>
    decreases lines.len(),
{
    if lines.len() == 0 {
        set
    } else {
        merged_all(merged(set, lines[0]), lines.skip(1))
    }
}

/// The lyrics that `text` holds.
pub open spec fn lyrics_of(text: Seq<char>) -> Seq<LyricLineView> {
    if text.contains('[') {
        merged_all(Seq::empty(), timed_lines(text))
    } else {
        seq![LyricLineView { time_ms: 0, text: trim(text) }]
    }
}

/// Ordered by time, each time once.
pub open spec fn is_lyric_set(set: Seq<LyricLineView>) -> bool {
    forall|i: int, j: int| 0 <= i < j < set.len() ==> set[i].time_ms < set[j].time_ms
}

/// An index with earlier times in front of it, and a time of `time_ms` or
/// later at it or nothing, is the insertion point.
proof fn lemma_insertion_point_is(set: Seq<LyricLineView>, time_ms: nat, k: int)
    requires
        0 <= k <= set.len(),
        forall|j: int| 0 <= j < k ==> set[j].time_ms < time_ms,
        k < set.len() ==> set[k].time_ms >= time_ms,
    ensures
        insertion_point(set, time_ms) == k,
    decreases k,
{
    if k > 0 {
        let rest = set.skip(1);
        assert forall|j: int| 0 <= j < k - 1 implies rest[j].time_ms < time_ms by {
            assert(rest[j] == set[j + 1]);
        }
        lemma_insertion_point_is(rest, time_ms, k - 1);
    }
}

/// The words that `set` holds at `time_ms`, if it has an entry of that time.
pub open spec fn text_at(set: Seq<LyricLineView>, time_ms: nat) -> Option<Seq<char>> {
    let at = insertion_point(set, time_ms) as int;
    if at < set.len() && set[at].time_ms == time_ms {
        Some(set[at].text)
    } else {
        None
    }
}

/// The words of those of `lines` whose time is `time_ms`, joined in their
/// order, or `None` where no line has that time.
pub open spec fn joined_at(lines: Seq<LyricLineView>, time_ms: nat) -> Option<Seq<char>>
    decreases lines.len(),
{
    if lines.len() == 0 {
        None
    } else {
        let earlier = joined_at(lines.drop_last(), time_ms);
        let line = lines.last();
        if line.time_ms != time_ms {
            earlier
        } else {
            match earlier {
                Some(words) => Some(joined(words, line.text)),
                None => Some(line.text),
            }
        }
    }
}

/// The insertion point has earlier times in front of it, and a time of
/// `time_ms` or later at it or nothing.
pub proof fn lemma_insertion_point(set: Seq<LyricLineView>, time_ms: nat)
    ensures
        insertion_point(set, time_ms) <= set.len(),
        forall|j: int| 0 <= j < insertion_point(set, time_ms) ==> set[j].time_ms < time_ms,
        insertion_point(set, time_ms) < set.len() ==> set[insertion_point(
            set,
            time_ms,
        ) as int].time_ms >= time_ms,
    decreases set.len(),
{
    if set.len() == 0 || set[0].time_ms >= time_ms {
    } else {
        let rest = set.skip(1);
        lemma_insertion_point(rest, time_ms);
        assert forall|j: int| 0 <= j < insertion_point(set, time_ms) implies set[j].time_ms
            < time_ms by {
            if j > 0 {
                assert(set[j] == rest[j - 1]);
            }
        }
        if insertion_point(set, time_ms) < set.len() {
            assert(set[insertion_point(set, time_ms) as int] == rest[insertion_point(
                rest,
                time_ms,
            ) as int]);
        }
    }
}

/// Merging a line into a set that is ordered by time leaves it ordered, each time once.
pub proof fn lemma_merged_is_lyric_set(set: Seq<LyricLineView>, line: LyricLineView)
    requires
        is_lyric_set(set),
    ensures
        is_lyric_set(merged(set, line)),
{
    lemma_insertion_point(set, line.time_ms);
    let at = insertion_point(set, line.time_ms) as int;
    let after = merged(set, line);
    if at < set.len() && set[at].time_ms == line.time_ms {
        assert forall|i: int, j: int| 0 <= i < j < after.len() implies after[i].time_ms
            < after[j].time_ms by {
            assert(after[i].time_ms == set[i].time_ms);
            assert(after[j].time_ms == set[j].time_ms);
        }
    } else {
        assert forall|i: int, j: int| 0 <= i < j < after.len() implies after[i].time_ms
            < after[j].time_ms by {
            if j < at {
                assert(after[i] == set[i] && after[j] == set[j]);
            } else if j == at {
                assert(after[i] == set[i]);
            } else if i < at {
                assert(after[i] == set[i] && after[j] == set[j - 1]);
                if at < j - 1 {
                    assert(set[at].time_ms < set[j - 1].time_ms);
                }
            } else if i == at {
                assert(after[j] == set[j - 1]);
                if at < j - 1 {
                    assert(set[at].time_ms < set[j - 1].time_ms);
                }
            } else {
                assert(after[i] == set[i - 1] && after[j] == set[j - 1]);
            }
        }
    }
}

/// Merging one line changes the words at that line's time and at no other.
pub proof fn lemma_merged_text_at(set: Seq<LyricLineView>, line: LyricLineView, time_ms: nat)
    ensures
        text_at(merged(set, line), time_ms) == if line.time_ms != time_ms {
            text_at(set, time_ms)
        } else {
            match text_at(set, time_ms) {
                Some(words) => Some(joined(words, line.text)),
                None => Some(line.text),
            }
        },
{
    lemma_insertion_point(set, line.time_ms);
    lemma_insertion_point(set, time_ms);
    let at = insertion_point(set, line.time_ms) as int;
    let q = insertion_point(set, time_ms) as int;
    let after = merged(set, line);
    if at < set.len() && set[at].time_ms == line.time_ms {
        assert forall|j: int| 0 <= j < after.len() implies after[j].time_ms
            == set[j].time_ms by {}
        lemma_insertion_point_is(after, time_ms, q);
    } else if time_ms == line.time_ms {
        lemma_insertion_point_is(after, time_ms, at);
    } else if time_ms < line.time_ms {
        assert(q <= at) by {
            if q > at {
                assert(set[at].time_ms < time_ms);
            }
        }
        if q < at {
            assert(after[q] == set[q]);
        }
        lemma_insertion_point_is(after, time_ms, q);
    } else {
        assert(q >= at) by {
            if q < at {
                assert(set[q].time_ms < line.time_ms);
            }
        }
        assert forall|j: int| 0 <= j < q + 1 implies after[j].time_ms < time_ms by {
            if j < at {
                assert(after[j] == set[j]);
            } else if j > at {
                assert(after[j] == set[j - 1]);
            }
        }
        if q < set.len() {
            assert(after[q + 1] == set[q]);
        }
        lemma_insertion_point_is(after, time_ms, q + 1);
    }
}

/// Merging lines one after another: the last line is merged into what the others gave.
pub proof fn lemma_merged_all_push(
    set: Seq<LyricLineView>,
    lines: Seq<LyricLineView>,
    line: LyricLineView,
)
    ensures
        merged_all(set, lines.push(line)) == merged(merged_all(set, lines), line),
    decreases lines.len(),
{
    let all = lines.push(line);
    if lines.len() == 0 {
        assert(all.skip(1) =~= Seq::empty());
        assert(merged_all(merged(set, line), all.skip(1)) == merged(set, line));
    } else {
        assert(all.skip(1) =~= lines.skip(1).push(line));
        lemma_merged_all_push(merged(set, lines[0]), lines.skip(1), line);
    }
}

/// Lines merged into an empty set come out ordered by time, each time once,
/// and the words at each time are those of the lines of that time, joined in
/// their order.
pub proof fn lemma_merged_all(lines: Seq<LyricLineView>, time_ms: nat)
    ensures
        is_lyric_set(merged_all(Seq::empty(), lines)),
        text_at(merged_all(Seq::empty(), lines), time_ms) == joined_at(lines, time_ms),
    decreases lines.len(),
{
    if lines.len() > 0 {
        let earlier = lines.drop_last();
        let set = merged_all(Seq::empty(), earlier);
        lemma_merged_all(earlier, time_ms);
        assert(earlier.push(lines.last()) =~= lines);
        lemma_merged_all_push(Seq::empty(), earlier, lines.last());
        lemma_merged_is_lyric_set(set, lines.last());
        lemma_merged_text_at(set, lines.last(), time_ms);
    }
}

/// Parsed lyrics are ordered by time, and no two entries share a millisecond.
pub proof fn lemma_lyrics_ordered(text: Seq<char>)
    ensures
        is_lyric_set(lyrics_of(text)),
{
    lemma_merged_all(timed_lines(text), 0);
}

/// In text that holds a `[`, the words that the lyrics give at a time are
/// those of the timed lines of that time, joined in the order of the file; a
/// time that no timed line has is not among the lyrics.
pub proof fn lemma_lyrics_join(text: Seq<char>, time_ms: nat)
    requires
        text.contains('['),
    ensures
        text_at(lyrics_of(text), time_ms) == joined_at(timed_lines(text), time_ms),
{
    lemma_merged_all(timed_lines(text), time_ms);
}

/// In a set that is ordered by time, the words at an entry's time are that entry's words.
pub proof fn lemma_text_at_entry(set: Seq<LyricLineView>, i: int)
    requires
        is_lyric_set(set),
        0 <= i < set.len(),
    ensures
        text_at(set, set[i].time_ms) == Some(set[i].text),
{
    assert forall|j: int| 0 <= j < i implies set[j].time_ms < set[i].time_ms by {}
    lemma_insertion_point_is(set, set[i].time_ms, i);
}

/// Without its first entry, a set that is ordered by time holds the words
/// that it held, but for those of the first entry's time.
proof fn lemma_text_at_rest(set: Seq<LyricLineView>, time_ms: nat)
    requires
        is_lyric_set(set),
        set.len() > 0,
    ensures
        is_lyric_set(set.skip(1)),
        text_at(set.skip(1), time_ms) == if time_ms == set[0].time_ms {
            None
        } else {
            text_at(set, time_ms)
        },
{
    let rest = set.skip(1);
    assert forall|i: int, j: int| 0 <= i < j < rest.len() implies rest[i].time_ms
        < rest[j].time_ms by {
        assert(rest[i] == set[i + 1] && rest[j] == set[j + 1]);
    }
    lemma_insertion_point(rest, time_ms);
    if time_ms <= set[0].time_ms {
        assert forall|j: int| 0 <= j < rest.len() implies rest[j].time_ms > time_ms by {
            assert(rest[j] == set[j + 1]);
        }
        lemma_insertion_point_is(rest, time_ms, 0);
    } else {
        let at = insertion_point(rest, time_ms) as int;
        if at < rest.len() {
            assert(rest[at] == set[at + 1]);
        }
    }
}

/// Two sets that are ordered by time and hold the same words at every time
/// are the same set.
pub proof fn lemma_lyric_set_unique(a: Seq<LyricLineView>, b: Seq<LyricLineView>)
    requires
        is_lyric_set(a),
        is_lyric_set(b),
        forall|time_ms: nat| text_at(a, time_ms) == text_at(b, time_ms),
    ensures
        a == b,
    decreases a.len(),
{
    if a.len() == 0 {
        if b.len() > 0 {
            lemma_text_at_entry(b, 0);
            assert(text_at(a, b[0].time_ms) is None);
        }
        assert(a =~= b);
    } else {
        lemma_text_at_entry(a, 0);
        let t = a[0].time_ms;
        assert(text_at(b, t) == Some(a[0].text));
        lemma_insertion_point(b, t);
        let j = insertion_point(b, t) as int;
        assert(b[j].time_ms == t && b[j].text == a[0].text);
        lemma_text_at_entry(b, 0);
        assert(text_at(a, b[0].time_ms) == Some(b[0].text));
        lemma_insertion_point(a, b[0].time_ms);
        let i = insertion_point(a, b[0].time_ms) as int;
        assert(a[i].time_ms == b[0].time_ms);
        assert(j == 0) by {
            if j > 0 {
                assert(b[0].time_ms < b[j].time_ms);
                if i > 0 {
                    assert(a[0].time_ms < a[i].time_ms);
                }
            }
        }
        assert(a[0] == b[0]);
        assert forall|time_ms: nat| text_at(a.skip(1), time_ms) == text_at(
            b.skip(1),
            time_ms,
        ) by {
            lemma_text_at_rest(a, time_ms);
            lemma_text_at_rest(b, time_ms);
        }
        lemma_text_at_rest(a, 0);
        lemma_text_at_rest(b, 0);
        lemma_lyric_set_unique(a.skip(1), b.skip(1));
        assert(a =~= seq![a[0]] + a.skip(1));
        assert(b =~= seq![b[0]] + b.skip(1));
    }
}

/// Two timed lines of different times can change places: merged in either
/// order they give the same set.
pub proof fn lemma_merge_order(set: Seq<LyricLineView>, a: LyricLineView, b: LyricLineView)
    requires
        is_lyric_set(set),
        a.time_ms != b.time_ms,
    ensures
        merged(merged(set, a), b) == merged(merged(set, b), a),
{
    lemma_merged_is_lyric_set(set, a);
    lemma_merged_is_lyric_set(set, b);
    lemma_merged_is_lyric_set(merged(set, a), b);
    lemma_merged_is_lyric_set(merged(set, b), a);
    assert forall|time_ms: nat| text_at(merged(merged(set, a), b), time_ms) == text_at(
        merged(merged(set, b), a),
        time_ms,
    ) by {
        lemma_merged_text_at(set, a, time_ms);
        lemma_merged_text_at(set, b, time_ms);
        lemma_merged_text_at(merged(set, a), b, time_ms);
        lemma_merged_text_at(merged(set, b), a, time_ms);
    }
    lemma_lyric_set_unique(merged(merged(set, a), b), merged(merged(set, b), a));
}

/// What text holds is fixed by what its timed lines hold at each time: two
/// texts whose timed lines give the same words at every time, in whatever
/// order the lines of different times stand, hold the same lyrics.
pub proof fn lemma_lyrics_by_time(first: Seq<char>, second: Seq<char>)
    requires
        first.contains('['),
        second.contains('['),
        forall|time_ms: nat|
            joined_at(timed_lines(first), time_ms) == joined_at(timed_lines(second), time_ms),
    ensures
        lyrics_of(first) == lyrics_of(second),
{
    lemma_lyrics_ordered(first);
    lemma_lyrics_ordered(second);
    assert forall|time_ms: nat| text_at(lyrics_of(first), time_ms) == text_at(
        lyrics_of(second),
        time_ms,
    ) by {
        lemma_lyrics_join(first, time_ms);
        lemma_lyrics_join(second, time_ms);
    }
    lemma_lyric_set_unique(lyrics_of(first), lyrics_of(second));
}

/// The timed line in the range `from..to` of `chars`, if that line gives one.
fn line_in(chars: &Vec<char>, from: usize, to: usize) -> (line: Option<LyricLine>)
    requires
        from <= to <= chars.len(),
    ensures
        line is Some <==> line_of(chars@.subrange(from as int, to as int)) is Some,
        line matches Some(l) ==> Some(l@) == line_of(chars@.subrange(from as int, to as int)),
{
    let ghost s = chars@.subrange(from as int, to as int);
    let open = find_in(chars, from, to, '[');
    let close = find_in(chars, from, to, ']');
    if !(open < close && close < to) {
        return None;
    }
    proof {
        assert(s.subrange(open - from + 1, close - from) =~= chars@.subrange(
            open + 1,
            close as int,
        ));
        assert(s.skip(close - from + 1) =~= chars@.subrange(close + 1, to as int));
    }
    match timestamp_in(chars, open + 1, close) {
        None => None,
        Some(time_ms) => {
            let (a, b) = trim_in(chars, close + 1, to);
            Some(LyricLine { time_ms, text: to_string(chars, a, b) })
        },
    }
}

/// Merges `line` into `set`: joins it to the entry of the same time where
/// there is one, and puts it in at its place in the order of time otherwise.
pub fn merge_line(set: &mut Vec<LyricLine>, line: LyricLine)
    ensures
        lines_view(final(set)@) == merged(lines_view(old(set)@), line@),
{
    let ghost before = lines_view(set@);
    let mut at: usize = 0;
    while at < set.len() && set[at].time_ms < line.time_ms
        invariant
            at <= set.len(),
            set@ == old(set)@,
            forall|j: int| 0 <= j < at ==> set[j].time_ms < line.time_ms,
        decreases set.len() - at,
    {
        at += 1;
    }
    proof {
        lemma_insertion_point_is(before, line@.time_ms, at as int);
    }
    if at < set.len() && set[at].time_ms == line.time_ms {
        if !line.text.as_str().is_empty() {
            let mut entry = set.remove(at);
            entry.text.push('\n');
            entry.text.append(line.text.as_str());
            proof {
                let earlier = before[at as int].text;
                assert(earlier.push('\n') + line.text@ =~= earlier + seq!['\n'] + line.text@);
            }
            set.insert(at, entry);
        }
        assert(lines_view(set@) =~= merged(before, line@));
    } else {
        set.insert(at, line);
        assert(lines_view(set@) =~= merged(before, line@));
    }
}

/// Parses lyrics.
///
/// Text without a `[` comes back as one line at time 0 that holds the trimmed
/// text. Otherwise the timed lines of the text come back merged: ordered by
/// time, with the lines of one millisecond joined in the order of the file.
pub fn load_lyrics_from_str(content: String) -> (lines: Vec<LyricLine>)
    ensures
        lines_view(lines@) == lyrics_of(content@),
        is_lyric_set(lines_view(lines@)),
        !content@.contains('[') ==> lines.len() == 1 && lines[0].time_ms == 0 && lines[0].text@
            == trim(content@),
{
    proof {
        lemma_lyrics_ordered(content@);
    }
    let chars = to_chars(content.as_str());
    let n = chars.len();
    let bracket = find_in(&chars, 0, n, '[');
    proof {
        assert(chars@.subrange(0, n as int) =~= chars@);
        lemma_find(chars@, '[');
    }
    if bracket == n {
        let mut set: Vec<LyricLine> = Vec::new();
        let (a, b) = trim_in(&chars, 0, n);
        set.push(LyricLine { time_ms: 0, text: to_string(&chars, a, b) });
        assert(lines_view(set@) =~= lyrics_of(content@));
        return set;
    }
    let by_time = gather(&chars);
    let set = ordered(&by_time);
    proof {
        assert forall|time_ms: nat| text_at(lines_view(set@), time_ms) == text_at(
            lyrics_of(content@),
            time_ms,
        ) by {
            lemma_lyrics_join(content@, time_ms);
            assert(text_at(lines_view(set@), time_ms) == held_at(by_time@, time_ms));
            assert(held_at(by_time@, time_ms) == joined_at(timed_lines(chars@), time_ms));
        }
        lemma_lyric_set_unique(lines_view(set@), lyrics_of(content@));
    }
    set
}

/// The words that a table of lines by time holds at `time_ms`.
spec fn held_at(by_time: Map<u64, String>, time_ms: nat) -> Option<Seq<char>> {
    if time_ms <= u64::MAX && by_time.contains_key(time_ms as u64) {
        Some(by_time[time_ms as u64]@)
    } else {
        None
    }
}

/// Keeps `line` in the table: joined to the words of its time where there
/// are some, and as the first words of its time otherwise.
fn keep(by_time: &mut HashMap<u64, String>, line: LyricLine, Ghost(done): Ghost<Seq<LyricLineView>>)
    requires
        forall|time_ms: nat| held_at(old(by_time)@, time_ms) == joined_at(done, time_ms),
    ensures
        forall|time_ms: nat|
            held_at(final(by_time)@, time_ms) == joined_at(done.push(line@), time_ms),
{
    broadcast use group_hash_axioms;

    let ghost before = by_time@;
    let time_ms = line.time_ms;
    let ghost added = line@;
    proof {
        assert(done.push(added).drop_last() =~= done);
    }
    match by_time.remove(&time_ms) {
        Some(words) => {
            let mut words = words;
            if !line.text.as_str().is_empty() {
                let ghost earlier = words@;
                words.push('\n');
                words.append(line.text.as_str());
                assert(words@ =~= earlier + seq!['\n'] + line.text@);
            }
            by_time.insert(time_ms, words);
        },
        None => {
            by_time.insert(time_ms, line.text);
        },
    }
    assert forall|t: nat| held_at(by_time@, t) == joined_at(done.push(added), t) by {
        assert(held_at(before, t) == joined_at(done, t));
    }
}

/// The timed lines of `chars` by their time, those of one time joined in the
/// order of the file.
fn gather(chars: &Vec<char>) -> (by_time: HashMap<u64, String>)
    ensures
        forall|time_ms: nat| held_at(by_time@, time_ms) == joined_at(timed_lines(chars@), time_ms),
{
    let n = chars.len();
    let mut by_time: HashMap<u64, String> = HashMap::new();
    let mut start: usize = 0;
    let ghost mut done: Seq<LyricLineView> = Seq::empty();
    proof {
        assert(chars@.skip(0) =~= chars@);
        assert(done + timed_lines(chars@) =~= timed_lines(chars@));
    }
    loop
        invariant_except_break
            timed_lines(chars@) == done + timed_lines(chars@.skip(start as int)),
        invariant
            start <= n == chars.len(),
            forall|time_ms: nat| held_at(by_time@, time_ms) == joined_at(done, time_ms),
        ensures
            timed_lines(chars@) == done,
        decreases n - start,
    {
        let ghost rest = chars@.skip(start as int);
        let ghost before = done;
        let eol = find_in(chars, start, n, '\n');
        proof {
            assert(chars@.subrange(start as int, n as int) =~= rest);
            assert(rest.take(eol - start) =~= chars@.subrange(start as int, eol as int));
        }
        match line_in(chars, start, eol) {
            Some(line) => {
                keep(&mut by_time, line, Ghost(done));
                proof {
                    done = done.push(line@);
                }
            },
            None => {},
        }
        proof {
            let first: Seq<LyricLineView> = match line_of(rest.take(eol - start)) {
                Some(l) => seq![l],
                None => Seq::empty(),
            };
            let tail: Seq<LyricLineView> = if eol < n {
                timed_lines(rest.skip(eol - start + 1))
            } else {
                Seq::empty()
            };
            assert(timed_lines(rest) =~= first + tail);
            assert(before + (first + tail) =~= done + tail);
            if eol < n {
                assert(rest.skip(eol - start + 1) =~= chars@.skip(eol + 1));
            } else {
                assert(done + tail =~= done);
            }
        }
        if eol == n {
            break ;
        }
        start = eol + 1;
    }
    by_time
}

/// The lines of a table by time, in the order of time.
fn ordered(by_time: &HashMap<u64, String>) -> (set: Vec<LyricLine>)
    ensures
        is_lyric_set(lines_view(set@)),
        forall|time_ms: nat| text_at(lines_view(set@), time_ms) == held_at(by_time@, time_ms),
{
    broadcast use group_hash_axioms;

    let mut set: Vec<LyricLine> = Vec::new();
    assert(lines_view(set@) =~= Seq::empty());
    let entries = by_time.iter();
    let ghost all = entries.remaining();
    for entry in it: entries
        invariant
            it.seq() == all,
            all == spec_hash_map_iter(by_time).remaining(),
            all.no_duplicates(),
            is_lyric_set(lines_view(set@)),
            forall|j: int|
                0 <= j < it.index() ==> text_at(lines_view(set@), *(#[trigger] all[j]).0 as nat)
                    == Some((*all[j].1)@),
            forall|time_ms: nat|
                text_at(lines_view(set@), time_ms) is Some ==> exists|j: int|
                    0 <= j < it.index() && *(#[trigger] all[j]).0 == time_ms,
    {
        let ghost before = lines_view(set@);
        let ghost at = it.index();
        let line = LyricLine { time_ms: *entry.0, text: entry.1.clone() };
        proof {
            assert(entry == all[at]);
            lemma_merged_is_lyric_set(before, line@);
            assert forall|j: int| 0 <= j < at implies *(#[trigger] all[j]).0 != *entry.0 by {
                if *all[j].0 == *entry.0 {
                    assert(by_time@[*all[j].0] == *all[j].1);
                    assert(by_time@[*all[at].0] == *all[at].1);
                    assert(all[j] == all[at]);
                }
            }
            assert(text_at(before, line@.time_ms) is None);
            assert forall|time_ms: nat| true implies #[trigger] text_at(
                merged(before, line@),
                time_ms,
            ) == if line@.time_ms != time_ms {
                text_at(before, time_ms)
            } else {
                Some(line@.text)
            } by {
                lemma_merged_text_at(before, line@, time_ms);
            }
        }
        merge_line(&mut set, line);
    }
    proof {
        assert forall|time_ms: nat| text_at(lines_view(set@), time_ms) == held_at(
            by_time@,
            time_ms,
        ) by {
            if time_ms <= u64::MAX && by_time@.contains_key(time_ms as u64) {
                let k = time_ms as u64;
                assert(all.contains((&k, &by_time@[k])));
                let j = choose|j: int| 0 <= j < all.len() && all[j] == (&k, &by_time@[k]);
                assert(text_at(lines_view(set@), *all[j].0 as nat) == Some((*all[j].1)@));
            } else if text_at(lines_view(set@), time_ms) is Some {
                let j = choose|j: int| 0 <= j < all.len() && *(#[trigger] all[j]).0 == time_ms;
                assert(by_time@.contains_key(*all[j].0));
            }
        }
    }
    set
}

/// The tag formats that can carry lyrics.
#[derive(Debug, Clone, Copy, PartialEq, Eq, Structural)]
pub enum TagFormat {
    /// ID3, with lyrics in the unsynchronised lyrics frame.
    Id3,
    /// Vorbis comments in FLAC, with lyrics in the field `LYRICS`.
    Flac,
    /// MP4, with lyrics in the lyrics atom.
    Mp4,
}

/// The name of the Vorbis comment field that holds lyrics.
pub const VORBIS_LYRICS_FIELD: &'static str = "LYRICS";

/// The tag format in which a file with the given extension carries lyrics,
/// whatever the case of the extension: `mp3` has ID3, `flac` Vorbis comments,
/// `m4a` and `mp4` the MP4 atoms. Every other extension has none.
pub open spec fn format_of(extension: Seq<char>) -> Option<TagFormat> {
    let ext = lowered(extension);
    if ext == "mp3"@ {
        Some(TagFormat::Id3)
    } else if ext == "flac"@ {
        Some(TagFormat::Flac)
    } else if ext == "m4a"@ || ext == "mp4"@ {
        Some(TagFormat::Mp4)
    } else {
        None
    }
}

/// The lyrics in text that was found, or `None` where none was found.
pub open spec fn lyrics_in(found: Option<String>) -> Option<Seq<LyricLineView>> {
    match found {
        Some(text) => Some(lyrics_of(text@)),
        None => None,
    }
}

/// What a result of lyrics stands for.
pub open spec fn lyrics_view(lyrics: Option<Vec<LyricLine>>) -> Option<Seq<LyricLineView>> {
    match lyrics {
        Some(lines) => Some(lines_view(lines@)),
        None => None,
    }
}

/// The tag format in which a file with the given extension carries lyrics.
/// `None` for a file without an extension.
pub fn lyrics_tag_format(extension: Option<&str>) -> (format: Option<TagFormat>)
    ensures
        format == match extension {
            Some(ext) => format_of(ext@),
            None => None,
        },
{
    match extension {
        None => None,
        Some(ext) => {
            let chars = to_chars(ext);
            let mut lower = String::new();
            let mut i: usize = 0;
            while i < chars.len()
                invariant
                    i <= chars.len(),
                    lower@ == lowered(chars@.take(i as int)),
                decreases chars.len() - i,
            {
                lower.push(char_to_lower(chars[i]));
                proof {
                    assert(lowered(chars@.take(i as int)).push(ascii_lower(chars[i as int]))
                        =~= lowered(chars@.take(i + 1)));
                }
                i += 1;
            }
            assert(chars@.take(i as int) =~= chars@);
            let word = lower.as_str();
            if str_eq(word, "mp3") {
                Some(TagFormat::Id3)
            } else if str_eq(word, "flac") {
                Some(TagFormat::Flac)
            } else if str_eq(word, "m4a") || str_eq(word, "mp4") {
                Some(TagFormat::Mp4)
            } else {
                None
            }
        },
    }
}

/// Whether two strings hold the same text.
fn str_eq(a: &str, b: &str) -> (same: bool)
    ensures
        same == (a@ == b@),
{
    let x = to_chars(a);
    let y = to_chars(b);
    if x.len() != y.len() {
        return false;
    }
    let mut i: usize = 0;
    while i < x.len()
        invariant
            i <= x.len() == y.len(),
            x@ == a@,
            y@ == b@,
            forall|j: int| 0 <= j < i ==> x[j] == y[j],
        decreases x.len() - i,
    {
        if x[i] != y[i] {
            return false;
        }
        i += 1;
    }
    assert(x@ =~= y@);
    true
}

/// The lyrics in a sidecar file: `sidecar` is the text of the `.lrc` file
/// beside the track, or `None` where there is none that can be read.
pub fn load_lyrics_from_lrc(sidecar: Option<String>) -> (lyrics: Option<Vec<LyricLine>>)
    ensures
        lyrics_view(lyrics) == lyrics_in(sidecar),
{
    match sidecar {
        Some(text) => Some(load_lyrics_from_str(text)),
        None => None,
    }
}

/// Whether `lyrics` is what reading the tag of a file with the given
/// extension gives, `read` being what reads a tag of a given format: for an
/// extension with a format that carries lyrics, the parsed text of something
/// that `read` returns for that format; otherwise no lyrics.
pub open spec fn is_embedded_lyrics<F: FnOnce(TagFormat) -> Option<String>>(
    extension: Option<&str>,
    read: F,
    lyrics: Option<Vec<LyricLine>>,
) -> bool {
    match extension {
        Some(ext) => match format_of(ext@) {
            Some(format) => exists|found: Option<String>|
                call_ensures(read, (format,), found) && lyrics_view(lyrics) == lyrics_in(found),
            None => lyrics is None,
        },
        None => lyrics is None,
    }
}

/// The lyrics embedded in a track's tag.
///
/// The extension of the file decides which tag format is read. `read` is
/// called with that format, once, and returns the raw lyrics that the tag
/// holds, if any; they are parsed. For an extension without a format that
/// carries lyrics nothing is read and there are no lyrics.
pub fn load_lyrics_from_song<F: FnOnce(TagFormat) -> Option<String>>(
    extension: Option<&str>,
    read: F,
) -> (lyrics: Option<Vec<LyricLine>>)
    requires
        forall|format: TagFormat| call_requires(read, (format,)),
    ensures
        is_embedded_lyrics(extension, read, lyrics),
{
    match lyrics_tag_format(extension) {
        Some(format) => {
            let found = read(format);
            let ghost seen = found;
            let lyrics = load_lyrics_from_lrc(found);
            assert(call_ensures(read, (format,), seen) && lyrics_view(lyrics) == lyrics_in(seen));
            lyrics
        },
        None => None,
    }
}

/// The lyrics of a track, looked for in order: first in the sidecar file,
/// then in the track's tag, each only where the one before has nothing.
///
/// `read_sidecar` returns the text of the sidecar file, or `None` where there
/// is none. Where it returns text, that text is parsed and the tag is not
/// read. Otherwise the lyrics are those embedded in the tag, as
/// `load_lyrics_from_song` finds them; `None` where there are none either.
pub fn resolve_lyrics<S: FnOnce() -> Option<String>, F: FnOnce(TagFormat) -> Option<String>>(
    read_sidecar: S,
    extension: Option<&str>,
    read_tag: F,
) -> (lyrics: Option<Vec<LyricLine>>)
    requires
        call_requires(read_sidecar, ()),
        forall|format: TagFormat| call_requires(read_tag, (format,)),
    ensures
        exists|sidecar: Option<String>|
            call_ensures(read_sidecar, (), sidecar) && if sidecar is Some {
                lyrics_view(lyrics) == lyrics_in(sidecar)
            } else {
                is_embedded_lyrics(extension, read_tag, lyrics)
            },
{
    let sidecar = read_sidecar();
    let ghost seen = sidecar;
    let lyrics = match sidecar {
        Some(text) => Some(load_lyrics_from_str(text)),
        None => load_lyrics_from_song(extension, read_tag),
    };
    assert(call_ensures(read_sidecar, (), seen) && if seen is Some {
        lyrics_view(lyrics) == lyrics_in(seen)
    } else {
        is_embedded_lyrics(extension, read_tag, lyrics)
    });
    lyrics
}

} // verus!
