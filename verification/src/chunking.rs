//! Splitting a document's text into spans.
//!
//! Spans are byte ranges of the UTF-8 encoding of the text and never cut a
//! character in two. [`fixed_utf8_chunks`] makes spans of a fixed size;
//! [`structure_chunks`] prefers to end a span where the text has a natural break:
//! a heading, a code fence, a rule, a blank line, a list item, a line.

use crate::binary64::{
    greater, of_integer, one_plus, product, quotient, spec_of_integer, spec_one_plus, spec_product,
    spec_quotient, Binary64, Number,
};
use crate::text::{byte_offset, chars_of, lemma_encode_concat, trim, trimmed, width};
use vstd::prelude::*;
use vstd::utf8::{
    encode_utf8, encode_utf8_first_scalar, encode_utf8_valid_utf8, is_char_boundary,
    is_char_boundary_start_end_of_seq, pop_first_scalar, valid_utf8,
};

verus! {

/// A byte range of the text: `start` is in it, `end` is not.
#[derive(Clone, Copy, Debug, PartialEq, Eq, Structural)]
pub struct ChunkSpan {
    pub start: usize,
    pub end: usize,
}

/// How a text was split.
#[derive(Clone, Copy, Debug, PartialEq, Eq, Structural)]
pub enum ChunkStrategy {
    FixedUtf8,
    Structure,
}

impl ChunkStrategy {
    pub open spec fn spec_as_str(self) -> Seq<char> {
        match self {
            ChunkStrategy::FixedUtf8 => "fixed_utf8"@,
            ChunkStrategy::Structure => "structure"@,
        }
    }

    /// The strategy's name.
    pub fn as_str(self) -> (name: &'static str)
        ensures
            name@ == self.spec_as_str(),
    {
        match self {
            ChunkStrategy::FixedUtf8 => "fixed_utf8",
            ChunkStrategy::Structure => "structure",
        }
    }
}

/// The spans of a text, and the name of the strategy that they were made by.
#[derive(Clone, Debug, PartialEq, Eq)]
pub struct ChunkPlan {
    pub strategy: &'static str,
    pub spans: Vec<ChunkSpan>,
}

/// The last character boundary of `bytes` at or before `i`.
pub open spec fn floor_boundary(bytes: Seq<u8>, i: int) -> int
    decreases i,
{
    if i <= 0 || is_char_boundary(bytes, i) {
        i
    } else {
        floor_boundary(bytes, i - 1)
    }
}

/// The first character boundary of `bytes` at or after `i`.
pub open spec fn ceil_boundary(bytes: Seq<u8>, i: int) -> int
    decreases bytes.len() - i,
{
    if i >= bytes.len() || is_char_boundary(bytes, i) {
        i
    } else {
        ceil_boundary(bytes, i + 1)
    }
}

pub open spec fn smaller(a: int, b: int) -> int {
    if a <= b {
        a
    } else {
        b
    }
}

pub open spec fn larger(a: int, b: int) -> int {
    if a >= b {
        a
    } else {
        b
    }
}

/// What `floor_boundary` is: a boundary, with none between it and `i`.
pub proof fn lemma_floor_boundary(bytes: Seq<u8>, i: int)
    requires
        valid_utf8(bytes),
        0 <= i <= bytes.len(),
    ensures
        0 <= floor_boundary(bytes, i) <= i,
        is_char_boundary(bytes, floor_boundary(bytes, i)),
        forall|j: int| floor_boundary(bytes, i) < j <= i ==> !is_char_boundary(bytes, j),
    decreases i,
{
    is_char_boundary_start_end_of_seq(bytes);
    if !(i <= 0 || is_char_boundary(bytes, i)) {
        lemma_floor_boundary(bytes, i - 1);
    }
}

/// What `ceil_boundary` is: a boundary, with none between `i` and it.
pub proof fn lemma_ceil_boundary(bytes: Seq<u8>, i: int)
    requires
        valid_utf8(bytes),
        0 <= i <= bytes.len(),
    ensures
        i <= ceil_boundary(bytes, i) <= bytes.len(),
        is_char_boundary(bytes, ceil_boundary(bytes, i)),
        forall|j: int| i <= j < ceil_boundary(bytes, i) ==> !is_char_boundary(bytes, j),
    decreases bytes.len() - i,
{
    is_char_boundary_start_end_of_seq(bytes);
    if !(i >= bytes.len() || is_char_boundary(bytes, i)) {
        lemma_ceil_boundary(bytes, i + 1);
    }
}

/// The last character boundary at or before `index`, or before the end.
pub fn floor_char_boundary(content: &str, index: usize) -> (boundary: usize)
    ensures
        boundary == floor_boundary(
            encode_utf8(content@),
            smaller(index as int, encode_utf8(content@).len() as int),
        ),
        boundary <= index,
        boundary <= encode_utf8(content@).len(),
        is_char_boundary(encode_utf8(content@), boundary as int),
{
    let len: usize = content.as_bytes().len();
    let ghost bytes = encode_utf8(content@);
    let mut at: usize = if index < len { index } else { len };
    proof {
        encode_utf8_valid_utf8(content@);
        is_char_boundary_start_end_of_seq(bytes);
    }
    while at > 0 && !content.is_char_boundary(at)
        invariant
            bytes == encode_utf8(content@),
            at <= len,
            at <= index,
            len == bytes.len(),
            floor_boundary(bytes, at as int) == floor_boundary(
                bytes,
                smaller(index as int, bytes.len() as int),
            ),
        decreases at,
    {
        at = at - 1;
    }
    at
}

/// The first character boundary at or after `index`, or the end.
pub fn ceil_char_boundary(content: &str, index: usize) -> (boundary: usize)
    ensures
        boundary == ceil_boundary(
            encode_utf8(content@),
            smaller(index as int, encode_utf8(content@).len() as int),
        ),
        boundary <= encode_utf8(content@).len(),
        is_char_boundary(encode_utf8(content@), boundary as int),
{
    let len: usize = content.as_bytes().len();
    let ghost bytes = encode_utf8(content@);
    let mut at: usize = if index < len { index } else { len };
    proof {
        encode_utf8_valid_utf8(content@);
        is_char_boundary_start_end_of_seq(bytes);
    }
    while at < len && !content.is_char_boundary(at)
        invariant
            bytes == encode_utf8(content@),
            at <= len,
            len == bytes.len(),
            ceil_boundary(bytes, at as int) == ceil_boundary(
                bytes,
                smaller(index as int, bytes.len() as int),
            ),
        decreases len - at,
    {
        at = at + 1;
    }
    at
}

/// Where a span of `size` bytes from `start` ends: at the last boundary that keeps
/// it within `size`, or after one character where no character fits.
pub open spec fn spec_fixed_end(bytes: Seq<u8>, start: int, size: int) -> int {
    let end = floor_boundary(bytes, smaller(start + size, bytes.len() as int));
    if end > start {
        end
    } else {
        ceil_boundary(bytes, start + 1)
    }
}

/// Where the span after `[start, end)` starts: `overlap` bytes before its end, moved
/// back to a boundary, but at least one character after `start`.
pub open spec fn spec_next_start(bytes: Seq<u8>, start: int, end: int, overlap: int) -> int {
    let next = floor_boundary(bytes, larger(end - overlap, 0));
    if next > start {
        next
    } else {
        ceil_boundary(bytes, start + 1)
    }
}

fn fixed_end(content: &str, start: usize, chunk_size: usize) -> (end: usize)
    requires
        start < encode_utf8(content@).len(),
    ensures
        end == spec_fixed_end(encode_utf8(content@), start as int, chunk_size as int),
        start < end <= encode_utf8(content@).len(),
        is_char_boundary(encode_utf8(content@), end as int),
{
    let len: usize = content.as_bytes().len();
    let desired_end: usize = if chunk_size < len - start { start + chunk_size } else { len };
    let end: usize = floor_char_boundary(content, desired_end);
    proof {
        encode_utf8_valid_utf8(content@);
        lemma_ceil_boundary(encode_utf8(content@), start + 1);
    }
    if end > start {
        end
    } else {
        ceil_char_boundary(content, start + 1)
    }
}

fn next_start(content: &str, start: usize, end: usize, overlap: usize) -> (next: usize)
    requires
        start < end < encode_utf8(content@).len(),
        is_char_boundary(encode_utf8(content@), end as int),
    ensures
        next == spec_next_start(encode_utf8(content@), start as int, end as int, overlap as int),
        start < next <= end,
        is_char_boundary(encode_utf8(content@), next as int),
{
    let desired_start: usize = if overlap < end { end - overlap } else { 0 };
    let next: usize = floor_char_boundary(content, desired_start);
    proof {
        encode_utf8_valid_utf8(content@);
        let bytes = encode_utf8(content@);
        lemma_ceil_boundary(bytes, start + 1);
    }
    if next > start {
        next
    } else {
        ceil_char_boundary(content, start + 1)
    }
}

/// The spans from `start` on, where `end_of` gives the end of the span that starts at
/// a position.
pub open spec fn spans_from(
    bytes: Seq<u8>,
    end_of: spec_fn(int) -> int,
    overlap: int,
    start: int,
) -> Seq<ChunkSpan>
    decreases larger(bytes.len() - start, 0),
    via spans_from_decreases
{
    if start >= bytes.len() {
        seq![]
    } else {
        let end = end_of(start);
        let span = ChunkSpan { start: start as usize, end: end as usize };
        if end >= bytes.len() {
            seq![span]
        } else {
            seq![span] + spans_from(
                bytes,
                end_of,
                overlap,
                spec_next_start(bytes, start, end, overlap),
            )
        }
    }
}

#[via_fn]
proof fn spans_from_decreases(
    bytes: Seq<u8>,
    end_of: spec_fn(int) -> int,
    overlap: int,
    start: int,
) {
    lemma_ceil_advances(bytes, start + 1);
}

proof fn lemma_ceil_advances(bytes: Seq<u8>, i: int)
    ensures
        ceil_boundary(bytes, i) >= i,
    decreases bytes.len() - i,
{
    if !(i >= bytes.len() || is_char_boundary(bytes, i)) {
        lemma_ceil_advances(bytes, i + 1);
    }
}

/// The spans of `text`: none where there is no text or no room, one where the text
/// fits or spans would not advance, else those that `end_of` gives from the start on.
pub open spec fn spans(
    text: Seq<char>,
    size: int,
    overlap: int,
    end_of: spec_fn(int) -> int,
) -> Seq<ChunkSpan> {
    let bytes = encode_utf8(text);
    if bytes.len() == 0 || size == 0 {
        seq![]
    } else if size >= bytes.len() || size <= overlap {
        seq![ChunkSpan { start: 0, end: bytes.len() as usize }]
    } else {
        spans_from(bytes, end_of, overlap, 0)
    }
}

/// The spans of a fixed size.
pub open spec fn fixed_spans(text: Seq<char>, size: int, overlap: int) -> Seq<ChunkSpan> {
    let bytes = encode_utf8(text);
    spans(text, size, overlap, |start: int| spec_fixed_end(bytes, start, size))
}

/// Splits `content` into spans of at most `chunk_size` bytes, each starting `overlap`
/// bytes before the end of the one before it.
pub fn fixed_utf8_chunks(content: &str, chunk_size: usize, overlap: usize) -> (chunks: Vec<
    ChunkSpan,
>)
    ensures
        chunks@ == fixed_spans(content@, chunk_size as int, overlap as int),
{
    let len: usize = content.as_bytes().len();
    let mut chunks: Vec<ChunkSpan> = Vec::new();
    if len == 0 || chunk_size == 0 {
        return chunks;
    }
    if chunk_size >= len || chunk_size <= overlap {
        chunks.push(ChunkSpan { start: 0, end: len });
        proof {
            assert(chunks@ =~= fixed_spans(content@, chunk_size as int, overlap as int));
        }
        return chunks;
    }
    let ghost bytes = encode_utf8(content@);
    let ghost end_of = |start: int| spec_fixed_end(bytes, start, chunk_size as int);
    let ghost all = spans_from(bytes, end_of, overlap as int, 0);
    let mut start: usize = 0;
    proof {
        assert(chunks@ + all =~= all);
        encode_utf8_valid_utf8(content@);
        is_char_boundary_start_end_of_seq(bytes);
    }
    while start < len
        invariant
            bytes == encode_utf8(content@),
            len == bytes.len(),
            start <= len,
            end_of == (|start: int| spec_fixed_end(bytes, start, chunk_size as int)),
            all == chunks@ + spans_from(bytes, end_of, overlap as int, start as int),
            all == fixed_spans(content@, chunk_size as int, overlap as int),
        decreases len - start,
    {
        let end: usize = fixed_end(content, start, chunk_size);
        let ghost before = chunks@;
        chunks.push(ChunkSpan { start, end });
        if end >= len {
            proof {
                assert(all =~= chunks@);
            }
            return chunks;
        }
        let next: usize = next_start(content, start, end, overlap);
        proof {
            assert(all =~= chunks@ + spans_from(bytes, end_of, overlap as int, next as int));
        }
        start = next;
    }
    proof {
        assert(all =~= chunks@);
    }
    chunks
}

/// A place where the text may be cut, and how good a place it is.
#[derive(Clone, Copy, Debug, PartialEq, Eq, Structural)]
pub struct Breakpoint {
    pub position: usize,
    pub score: u16,
}

/// The number of `#` at the start of `line`.
pub open spec fn leading_hashes(line: Seq<char>) -> nat
    decreases line.len(),
{
    if line.len() > 0 && line[0] == '#' {
        1 + leading_hashes(line.skip(1))
    } else {
        0
    }
}

/// A heading has one to six `#` and then nothing, a space or a tab; the fewer `#`,
/// the better the break: 100 for one, 10 less for each further one.
pub open spec fn spec_heading_score(line: Seq<char>) -> Option<int> {
    let level = leading_hashes(line) as int;
    if 1 <= level <= 6 && (line.len() == level || line[level] == ' ' || line[level] == '\t') {
        Some(110 - 10 * level)
    } else {
        None
    }
}

pub open spec fn starts_with(line: Seq<char>, prefix: Seq<char>) -> bool {
    prefix.len() <= line.len() && line.take(prefix.len() as int) == prefix
}

/// A code fence starts with three backticks or three tildes.
pub open spec fn spec_is_code_fence(line: Seq<char>) -> bool {
    starts_with(line, seq!['`', '`', '`']) || starts_with(line, seq!['~', '~', '~'])
}

pub open spec fn all_equal(line: Seq<char>, c: char) -> bool {
    forall|i: int| 0 <= i < line.len() ==> line[i] == c
}

/// A horizontal rule is three or more `-`, `*` or `_` and nothing else.
pub open spec fn spec_is_horizontal_rule(line: Seq<char>) -> bool {
    line.len() >= 3 && (all_equal(line, '-') || all_equal(line, '*') || all_equal(line, '_'))
}

pub open spec fn is_digit(c: char) -> bool {
    '0' <= c <= '9'
}

/// `digits` digits, then a full stop and a space.
pub open spec fn ordered_marker(line: Seq<char>, digits: int) -> bool {
    &&& digits >= 1
    &&& digits + 2 <= line.len()
    &&& forall|i: int| 0 <= i < digits ==> is_digit(line[i])
    &&& line[digits] == '.'
    &&& line[digits + 1] == ' '
}

/// A list item starts with `- `, `* `, `+ ` or a number, a full stop and a space.
pub open spec fn spec_is_list_item(line: Seq<char>) -> bool {
    ||| starts_with(line, seq!['-', ' '])
    ||| starts_with(line, seq!['*', ' '])
    ||| starts_with(line, seq!['+', ' '])
    ||| exists|digits: int| ordered_marker(line, digits)
}

/// A break inside the text; its two ends are no breaks.
pub open spec fn inner_break(position: nat, score: int, total: nat) -> Seq<Breakpoint> {
    if 0 < position < total {
        seq![Breakpoint { position: position as usize, score: score as u16 }]
    } else {
        seq![]
    }
}

/// The break that a line outside of code makes by what it is: before a heading, a
/// rule or a list item, after a blank line.
pub open spec fn line_break(line: Seq<char>, start: nat, next: nat, total: nat) -> Seq<Breakpoint> {
    match spec_heading_score(line) {
        Some(score) => inner_break(start, score, total),
        None => if spec_is_horizontal_rule(line) {
            inner_break(start, 60, total)
        } else if line.len() == 0 {
            inner_break(next, 20, total)
        } else if spec_is_list_item(line) {
            inner_break(start, 5, total)
        } else {
            seq![]
        },
    }
}

/// The number of characters of `text` before the first line feed.
pub open spec fn line_length(text: Seq<char>) -> nat
    decreases text.len(),
{
    if text.len() == 0 || text[0] == '\n' {
        0
    } else {
        1 + line_length(text.skip(1))
    }
}

/// The number of characters of the first line of `text` with its line feed, if any.
pub open spec fn full_line_length(text: Seq<char>) -> nat {
    if line_length(text) < text.len() {
        line_length(text) + 1
    } else {
        text.len()
    }
}

/// The breaks of a text from its character `from` on, which starts a line. A fence
/// opens or closes a block of code, in which no line is a break.
pub open spec fn breaks_from(text: Seq<char>, from: int, in_fence: bool) -> Seq<Breakpoint>
    decreases text.len() - from,
    via breaks_from_decreases
{
    if from < 0 || from >= text.len() {
        seq![]
    } else {
        let rest = text.skip(from);
        let line = trimmed(rest.take(line_length(rest) as int));
        let after = from + full_line_length(rest);
        let total = byte_offset(text, text.len() as int);
        let start = byte_offset(text, from);
        let next = byte_offset(text, after);
        if spec_is_code_fence(line) {
            inner_break(start, 80, total) + breaks_from(text, after, !in_fence)
        } else if in_fence {
            breaks_from(text, after, in_fence)
        } else {
            line_break(line, start, next, total) + inner_break(next, 1, total) + breaks_from(
                text,
                after,
                in_fence,
            )
        }
    }
}

#[via_fn]
proof fn breaks_from_decreases(text: Seq<char>, from: int, in_fence: bool) {
    lemma_line_length(text.skip(from));
}

/// The first line ends before the first line feed, or with the text.
pub proof fn lemma_line_length(text: Seq<char>)
    ensures
        line_length(text) <= text.len(),
        line_length(text) < text.len() ==> text[line_length(text) as int] == '\n',
        forall|i: int| 0 <= i < line_length(text) ==> text[i] != '\n',
    decreases text.len(),
{
    if text.len() == 0 || text[0] == '\n' {
    } else {
        lemma_line_length(text.skip(1));
        assert forall|i: int| 0 <= i < line_length(text) implies text[i] != '\n' by {
            if i > 0 {
                assert(text[i] == text.skip(1)[i - 1]);
            }
        }
    }
}

/// The first `n` characters without a line feed are part of the first line.
proof fn lemma_line_prefix(text: Seq<char>, n: int)
    requires
        0 <= n <= text.len(),
        forall|i: int| 0 <= i < n ==> text[i] != '\n',
        n == text.len() || text[n] == '\n',
    ensures
        line_length(text) == n,
{
    lemma_line_length(text);
    let m = line_length(text) as int;
    if m < n {
        assert(text[m] == '\n');
    }
    if n < m {
        assert(text[n] == '\n');
    }
}

fn has_prefix(line: &[char], prefix: &[char]) -> (found: bool)
    ensures
        found == starts_with(line@, prefix@),
{
    if prefix.len() > line.len() {
        return false;
    }
    let mut i: usize = 0;
    while i < prefix.len()
        invariant
            i <= prefix.len() <= line.len(),
            forall|j: int| 0 <= j < i ==> line@[j] == prefix@[j],
        decreases prefix.len() - i,
    {
        if line[i] != prefix[i] {
            proof {
                assert(line@.take(prefix@.len() as int)[i as int] != prefix@[i as int]);
            }
            return false;
        }
        i = i + 1;
    }
    proof {
        assert(line@.take(prefix@.len() as int) =~= prefix@);
    }
    true
}

/// The score of a break before a heading; `None` for a line that is none.
pub fn heading_score(line: &[char]) -> (score: Option<u16>)
    ensures
        match spec_heading_score(line@) {
            Some(expected) => score == Some(expected as u16) && 50 <= expected <= 100,
            None => score is None,
        },
{
    let mut level: usize = 0;
    proof {
        assert(line@.skip(0) =~= line@);
    }
    while level < line.len() && line[level] == '#'
        invariant
            level <= line.len(),
            leading_hashes(line@) == level + leading_hashes(line@.skip(level as int)),
        decreases line.len() - level,
    {
        proof {
            assert(line@.skip(level as int).skip(1) =~= line@.skip(level + 1));
        }
        level = level + 1;
    }
    if level < 1 || level > 6 {
        return None;
    }
    if level < line.len() && line[level] != ' ' && line[level] != '\t' {
        return None;
    }
    Some(110 - 10 * (level as u16))
}

/// Whether a line opens or closes a block of code.
pub fn is_code_fence(line: &[char]) -> (fence: bool)
    ensures
        fence == spec_is_code_fence(line@),
{
    has_prefix(line, &['`', '`', '`']) || has_prefix(line, &['~', '~', '~'])
}

fn is_all(line: &[char], c: char) -> (all: bool)
    ensures
        all == all_equal(line@, c),
{
    let mut i: usize = 0;
    while i < line.len()
        invariant
            i <= line.len(),
            forall|j: int| 0 <= j < i ==> line@[j] == c,
        decreases line.len() - i,
    {
        if line[i] != c {
            return false;
        }
        i = i + 1;
    }
    true
}

/// Whether a line is a horizontal rule.
pub fn is_horizontal_rule(line: &[char]) -> (rule: bool)
    ensures
        rule == spec_is_horizontal_rule(line@),
{
    line.len() >= 3 && (is_all(line, '-') || is_all(line, '*') || is_all(line, '_'))
}

/// The length of the marker of an item of a numbered list: its digits, the full stop
/// and the space. `None` for a line that does not start with one.
pub fn ordered_list_marker_len(line: &[char]) -> (length: Option<usize>)
    ensures
        match length {
            Some(length) => ordered_marker(line@, length - 2),
            None => forall|digits: int| !ordered_marker(line@, digits),
        },
{
    let mut digits: usize = 0;
    while digits < line.len() && '0' <= line[digits] && line[digits] <= '9'
        invariant
            digits <= line.len(),
            forall|j: int| 0 <= j < digits ==> is_digit(line@[j]),
        decreases line.len() - digits,
    {
        digits = digits + 1;
    }
    if digits >= 1 && line.len() >= 2 && digits <= line.len() - 2 && line[digits] == '.'
        && line[digits + 1] == ' ' {
        return Some(digits + 2);
    }
    proof {
        assert forall|d: int| !ordered_marker(line@, d) by {
            if ordered_marker(line@, d) {
                if d < digits {
                    assert(is_digit(line@[d]));
                }
                if digits < d {
                    assert(is_digit(line@[digits as int]));
                }
            }
        }
    }
    None
}

/// Whether a line is an item of a list.
pub fn is_list_item(line: &[char]) -> (item: bool)
    ensures
        item == spec_is_list_item(line@),
{
    has_prefix(line, &['-', ' ']) || has_prefix(line, &['*', ' ']) || has_prefix(line, &['+', ' '])
        || ordered_list_marker_len(line).is_some()
}

fn push_breakpoint(
    breakpoints: &mut Vec<Breakpoint>,
    position: usize,
    score: u16,
    content_len: usize,
)
    ensures
        final(breakpoints)@ == old(breakpoints)@ + inner_break(
            position as nat,
            score as int,
            content_len as nat,
        ),
{
    if position != 0 && position < content_len {
        breakpoints.push(Breakpoint { position, score });
    }
    proof {
        assert(breakpoints@ =~= old(breakpoints)@ + inner_break(
            position as nat,
            score as int,
            content_len as nat,
        ));
    }
}

/// Taking one character more adds its width to the offset.
pub proof fn lemma_offset_step(text: Seq<char>, i: int)
    requires
        0 <= i < text.len(),
    ensures
        byte_offset(text, i + 1) == byte_offset(text, i) + encode_utf8(seq![text[i]]).len(),
{
    assert(text.take(i + 1) =~= text.take(i) + seq![text[i]]);
    lemma_encode_concat(text.take(i), seq![text[i]]);
}

/// Offsets grow with the index.
pub proof fn lemma_offset_monotonic(text: Seq<char>, i: int, j: int)
    requires
        0 <= i <= j <= text.len(),
    ensures
        byte_offset(text, i) <= byte_offset(text, j),
{
    assert(text.take(j) =~= text.take(i) + text.subrange(i, j));
    lemma_encode_concat(text.take(i), text.subrange(i, j));
}

/// The places where `content` may be cut, line by line.
pub fn scan_breakpoints(content: &str) -> (breakpoints: Vec<Breakpoint>)
    ensures
        breakpoints@ == breaks_from(content@, 0, false),
{
    let total: usize = content.as_bytes().len();
    let chars: Vec<char> = chars_of(content);
    let ghost text = content@;
    let mut breakpoints: Vec<Breakpoint> = Vec::new();
    let mut from: usize = 0;
    let mut line_start: usize = 0;
    let mut in_fence = false;
    proof {
        assert(text.take(0) =~= Seq::<char>::empty());
        assert(text.take(text.len() as int) =~= text);
        assert(encode_utf8(Seq::<char>::empty()).len() == 0);
        assert(breakpoints@ + breaks_from(text, 0, false) =~= breaks_from(text, 0, false));
    }
    while from < chars.len()
        invariant
            text == content@,
            chars@ == text,
            from <= chars.len(),
            total == byte_offset(text, text.len() as int),
            line_start == byte_offset(text, from as int),
            breaks_from(text, 0, false) == breakpoints@ + breaks_from(text, from as int, in_fence),
        decreases chars.len() - from,
    {
        let ghost rest = text.skip(from as int);
        let mut to: usize = from;
        let mut line_end: usize = line_start;
        while to < chars.len() && chars[to] != '\n'
            invariant
                text == content@,
                chars@ == text,
                from <= to <= chars.len(),
                total == byte_offset(text, text.len() as int),
                line_end == byte_offset(text, to as int),
                forall|j: int| from <= j < to ==> text[j] != '\n',
            decreases chars.len() - to,
        {
            proof {
                lemma_offset_step(text, to as int);
                lemma_offset_monotonic(text, to + 1, text.len() as int);
            }
            line_end = line_end + width(chars[to]);
            to = to + 1;
        }
        let next: usize;
        let next_line_start: usize;
        proof {
            lemma_line_prefix(rest, to - from);
            assert(rest.take(line_length(rest) as int) =~= text.subrange(from as int, to as int));
        }
        if to < chars.len() {
            proof {
                lemma_offset_step(text, to as int);
                lemma_offset_monotonic(text, to + 1, text.len() as int);
            }
            next_line_start = line_end + width(chars[to]);
            next = to + 1;
        } else {
            next_line_start = line_end;
            next = to;
        }
        let line: &[char] = trim(vstd::slice::slice_subrange(chars.as_slice(), from, to));
        let ghost before = breakpoints@;
        let ghost tail = breaks_from(text, from as int, in_fence);
        if is_code_fence(line) {
            push_breakpoint(&mut breakpoints, line_start, 80, total);
            in_fence = !in_fence;
        } else if !in_fence {
            if let Some(score) = heading_score(line) {
                push_breakpoint(&mut breakpoints, line_start, score, total);
            } else if is_horizontal_rule(line) {
                push_breakpoint(&mut breakpoints, line_start, 60, total);
            } else if line.len() == 0 {
                push_breakpoint(&mut breakpoints, next_line_start, 20, total);
            } else if is_list_item(line) {
                push_breakpoint(&mut breakpoints, line_start, 5, total);
            } else {
                proof {
                    assert(breakpoints@ =~= before + Seq::<Breakpoint>::empty());
                }
            }
            push_breakpoint(&mut breakpoints, next_line_start, 1, total);
        }
        proof {
            assert(before + tail =~= breakpoints@ + breaks_from(text, next as int, in_fence));
        }
        from = next;
        line_start = next_line_start;
    }
    proof {
        assert(breakpoints@ + Seq::<Breakpoint>::empty() =~= breakpoints@);
    }
    breakpoints
}

/// `0.7` in binary64.
pub open spec fn distance_decay() -> Number {
    Number { significand: 0x16_6666_6666_6666, exponent: -53 }
}

/// `1` in binary64.
pub open spec fn one() -> Number {
    Number { significand: 0x10_0000_0000_0000, exponent: -52 }
}

/// A break's score, divided by `1 + 0.7 * (distance / window)^2`, step by step in
/// binary64 arithmetic.
pub open spec fn spec_decayed_score(score: nat, distance: nat, window: nat) -> Number {
    let divisor = if distance == 0 {
        one()
    } else {
        let normalized = spec_quotient(
            spec_of_integer(distance),
            spec_of_integer(larger(window as int, 1) as nat),
        );
        spec_one_plus(spec_product(distance_decay(), spec_product(normalized, normalized)))
    };
    spec_quotient(spec_of_integer(score), divisor)
}

/// The score of a break for a span that would best end at `target`.
pub open spec fn break_score(breakpoint: Breakpoint, target: int, window: int) -> Number {
    spec_decayed_score(
        breakpoint.score as nat,
        larger(target - breakpoint.position, 0) as nat,
        window as nat,
    )
}

fn decayed_score(breakpoint: Breakpoint, target: usize, break_window: usize) -> (score: Binary64)
    requires
        breakpoint.score > 0,
    ensures
        score@ == break_score(breakpoint, target as int, break_window as int),
{
    let distance: usize = if target > breakpoint.position {
        target - breakpoint.position
    } else {
        0
    };
    let window: usize = if break_window > 1 { break_window } else { 1 };
    let divisor: Binary64 = if distance == 0 {
        Binary64 { significand: 0x10_0000_0000_0000, exponent: -52 }
    } else {
        let normalized: Binary64 = quotient(of_integer(distance), of_integer(window));
        let decay: Binary64 = Binary64 { significand: 0x16_6666_6666_6666, exponent: -53 };
        one_plus(product(decay, product(normalized, normalized)))
    };
    quotient(of_integer(breakpoint.score as usize), divisor)
}

/// Whether a span from `start` may end at a break: after `start`, and at most `window`
/// bytes before `target`.
pub open spec fn eligible(breakpoint: Breakpoint, start: int, target: int, window: int) -> bool {
    start < breakpoint.position <= target && breakpoint.position >= target - window
}

/// The index of the eligible break with the highest score among the first `n`; of
/// equal ones, the last.
pub open spec fn best_index(
    breakpoints: Seq<Breakpoint>,
    n: int,
    start: int,
    target: int,
    window: int,
) -> Option<int>
    decreases n,
{
    if n <= 0 {
        None
    } else {
        let best = best_index(breakpoints, n - 1, start, target, window);
        let last = breakpoints[n - 1];
        if !eligible(last, start, target, window) {
            best
        } else {
            match best {
                Some(k) if break_score(breakpoints[k], target, window).greater(
                    break_score(last, target, window),
                ) => Some(k),
                _ => Some(n - 1),
            }
        }
    }
}

/// The position of the best break for a span from `start` that should end near
/// `target`.
pub open spec fn spec_best_breakpoint(
    breakpoints: Seq<Breakpoint>,
    start: int,
    target: int,
    window: int,
) -> Option<int> {
    match best_index(breakpoints, breakpoints.len() as int, start, target, window) {
        Some(k) => Some(breakpoints[k].position as int),
        None => None,
    }
}

/// What `best_index` is: eligible, and no eligible break has a higher score.
pub proof fn lemma_best_index(
    breakpoints: Seq<Breakpoint>,
    n: int,
    start: int,
    target: int,
    window: int,
)
    requires
        0 <= n <= breakpoints.len(),
    ensures
        match best_index(breakpoints, n, start, target, window) {
            Some(k) => {
                &&& 0 <= k < n
                &&& eligible(breakpoints[k], start, target, window)
                &&& forall|j: int|
                    0 <= j < n && #[trigger] eligible(breakpoints[j], start, target, window)
                        ==> !break_score(breakpoints[j], target, window).greater(
                        break_score(breakpoints[k], target, window),
                    )
            },
            None => forall|j: int|
                0 <= j < n ==> !#[trigger] eligible(breakpoints[j], start, target, window),
        },
    decreases n,
{
    if n > 0 {
        lemma_best_index(breakpoints, n - 1, start, target, window);
    }
}

fn best_breakpoint(
    breakpoints: &[Breakpoint],
    start: usize,
    target: usize,
    break_window: usize,
) -> (position: Option<usize>)
    requires
        forall|i: int| 0 <= i < breakpoints@.len() ==> (#[trigger] breakpoints@[i]).score > 0,
    ensures
        match spec_best_breakpoint(
            breakpoints@,
            start as int,
            target as int,
            break_window as int,
        ) {
            Some(expected) => position == Some(expected as usize),
            None => position is None,
        },
{
    let lower: usize = if target > break_window { target - break_window } else { 0 };
    let mut best: Option<usize> = None;
    let mut i: usize = 0;
    while i < breakpoints.len()
        invariant
            i <= breakpoints.len(),
            lower == larger(target - break_window, 0),
            forall|j: int| 0 <= j < breakpoints@.len() ==> (#[trigger] breakpoints@[j]).score > 0,
            match best_index(
                breakpoints@,
                i as int,
                start as int,
                target as int,
                break_window as int,
            ) {
                Some(k) => best == Some(k as usize) && 0 <= k < i,
                None => best is None,
            },
        decreases breakpoints.len() - i,
    {
        let candidate: Breakpoint = breakpoints[i];
        if candidate.position > start && candidate.position <= target && candidate.position
            >= lower {
            match best {
                Some(k) => {
                    let best_score: Binary64 = decayed_score(breakpoints[k], target, break_window);
                    let score: Binary64 = decayed_score(candidate, target, break_window);
                    if !greater(best_score, score) {
                        best = Some(i);
                    }
                },
                None => {
                    best = Some(i);
                },
            }
        }
        i = i + 1;
    }
    match best {
        Some(k) => Some(breakpoints[k].position),
        None => None,
    }
}

/// Every character starts at a boundary of the encoding.
pub proof fn lemma_offset_is_boundary(text: Seq<char>, i: int)
    requires
        0 <= i <= text.len(),
    ensures
        is_char_boundary(encode_utf8(text), byte_offset(text, i) as int),
    decreases i,
{
    let bytes = encode_utf8(text);
    encode_utf8_valid_utf8(text);
    if i == 0 {
        assert(text.take(0) =~= Seq::<char>::empty());
        is_char_boundary_start_end_of_seq(bytes);
    } else {
        let tail = text.drop_first();
        encode_utf8_first_scalar(text);
        assert(pop_first_scalar(bytes) =~= encode_utf8(tail));
        lemma_offset_is_boundary(tail, i - 1);
        assert(text.take(i).drop_first() =~= tail.take(i - 1));
        assert(text.take(i)[0] == text[0]);
        lemma_offset_monotonic(text, i, text.len() as int);
        assert(text.take(text.len() as int) =~= text);
    }
}

/// A break with a positive score, at a character boundary inside the text.
pub open spec fn sound_break(text: Seq<char>, b: Breakpoint) -> bool {
    &&& b.score > 0
    &&& 0 < b.position < encode_utf8(text).len()
    &&& is_char_boundary(encode_utf8(text), b.position as int)
}

pub open spec fn sound_breaks(text: Seq<char>, breaks: Seq<Breakpoint>) -> bool {
    forall|i: int| 0 <= i < breaks.len() ==> sound_break(text, #[trigger] breaks[i])
}

proof fn lemma_sound_concat(text: Seq<char>, a: Seq<Breakpoint>, b: Seq<Breakpoint>)
    requires
        sound_breaks(text, a),
        sound_breaks(text, b),
    ensures
        sound_breaks(text, a + b),
{
}

proof fn lemma_inner_break_sound(text: Seq<char>, i: int, score: int)
    requires
        encode_utf8(text).len() <= usize::MAX,
        0 <= i <= text.len(),
        0 < score <= 100,
    ensures
        sound_breaks(
            text,
            inner_break(byte_offset(text, i), score, byte_offset(text, text.len() as int)),
        ),
{
    lemma_offset_is_boundary(text, i);
    assert(text.take(text.len() as int) =~= text);
}

/// Every break has a positive score and lies at a boundary inside the text.
pub proof fn lemma_breaks(text: Seq<char>, from: int, in_fence: bool)
    requires
        encode_utf8(text).len() <= usize::MAX,
    ensures
        sound_breaks(text, breaks_from(text, from, in_fence)),
    decreases text.len() - from,
{
    if 0 <= from < text.len() {
        let rest = text.skip(from);
        lemma_line_length(rest);
        let after = from + full_line_length(rest);
        let line = trimmed(rest.take(line_length(rest) as int));
        let total = byte_offset(text, text.len() as int);
        let start = byte_offset(text, from);
        let next = byte_offset(text, after);
        lemma_breaks(text, after, in_fence);
        lemma_breaks(text, after, !in_fence);
        lemma_inner_break_sound(text, from, 80);
        lemma_inner_break_sound(text, from, 60);
        lemma_inner_break_sound(text, from, 5);
        lemma_inner_break_sound(text, after, 20);
        lemma_inner_break_sound(text, after, 1);
        if let Some(score) = spec_heading_score(line) {
            lemma_inner_break_sound(text, from, score);
        }
        lemma_sound_concat(
            text,
            inner_break(start, 80, total),
            breaks_from(text, after, !in_fence),
        );
        lemma_sound_concat(
            text,
            line_break(line, start, next, total),
            inner_break(next, 1, total),
        );
        lemma_sound_concat(
            text,
            line_break(line, start, next, total) + inner_break(next, 1, total),
            breaks_from(text, after, in_fence),
        );
    }
}

/// Where a span of about `size` bytes from `start` ends: at the end of the text if it
/// is within reach, at the best break if there is one, else as a span of a fixed size.
pub open spec fn structure_end(text: Seq<char>, start: int, size: int, window: int) -> int {
    let bytes = encode_utf8(text);
    if start + size >= bytes.len() {
        bytes.len() as int
    } else {
        match spec_best_breakpoint(breaks_from(text, 0, false), start, start + size, window) {
            Some(position) => position,
            None => spec_fixed_end(bytes, start, size),
        }
    }
}

/// The spans that follow the structure of the text.
pub open spec fn structure_spans(text: Seq<char>, size: int, overlap: int, window: int) -> Seq<
    ChunkSpan,
> {
    if breaks_from(text, 0, false).len() == 0 {
        fixed_spans(text, size, overlap)
    } else {
        spans(text, size, overlap, |start: int| structure_end(text, start, size, window))
    }
}

/// The best break is after `start` and not after `target`, at a boundary.
pub proof fn lemma_structure_end(text: Seq<char>, start: int, size: int, window: int)
    requires
        encode_utf8(text).len() <= usize::MAX,
        0 <= start < encode_utf8(text).len(),
        size > 0,
    ensures
        start < structure_end(text, start, size, window) <= encode_utf8(text).len(),
        is_char_boundary(encode_utf8(text), structure_end(text, start, size, window)),
{
    let bytes = encode_utf8(text);
    let breaks = breaks_from(text, 0, false);
    encode_utf8_valid_utf8(text);
    is_char_boundary_start_end_of_seq(bytes);
    lemma_breaks(text, 0, false);
    lemma_best_index(breaks, breaks.len() as int, start, start + size, window);
    lemma_fixed_end(bytes, start, size);
}

/// A span of a fixed size is not empty and ends at a boundary; it is longer than
/// `size` only where it is one character.
pub proof fn lemma_fixed_end(bytes: Seq<u8>, start: int, size: int)
    requires
        valid_utf8(bytes),
        0 <= start < bytes.len(),
        size >= 0,
    ensures
        start < spec_fixed_end(bytes, start, size) <= bytes.len(),
        is_char_boundary(bytes, spec_fixed_end(bytes, start, size)),
        spec_fixed_end(bytes, start, size) <= start + size || (forall|j: int|
            start < j < spec_fixed_end(bytes, start, size) ==> !is_char_boundary(bytes, j)),
{
    lemma_floor_boundary(bytes, smaller(start + size, bytes.len() as int));
    lemma_ceil_boundary(bytes, start + 1);
}

/// Splits `content` into spans of about `chunk_size` bytes that end at natural breaks,
/// each starting `overlap` bytes before the end of the one before it. A break is taken
/// where it lies at most `break_window` bytes before the full size.
pub fn structure_chunks(
    content: &str,
    chunk_size: usize,
    overlap: usize,
    break_window: usize,
) -> (chunks: Vec<ChunkSpan>)
    ensures
        chunks@ == structure_spans(
            content@,
            chunk_size as int,
            overlap as int,
            break_window as int,
        ),
{
    let len: usize = content.as_bytes().len();
    let mut chunks: Vec<ChunkSpan> = Vec::new();
    if len == 0 || chunk_size == 0 {
        return chunks;
    }
    if chunk_size >= len || chunk_size <= overlap {
        chunks.push(ChunkSpan { start: 0, end: len });
        proof {
            assert(chunks@ =~= fixed_spans(content@, chunk_size as int, overlap as int));
        }
        return chunks;
    }
    let breakpoints: Vec<Breakpoint> = scan_breakpoints(content);
    if breakpoints.len() == 0 {
        return fixed_utf8_chunks(content, chunk_size, overlap);
    }
    let ghost text = content@;
    let ghost bytes = encode_utf8(text);
    let ghost end_of = |start: int|
        structure_end(text, start, chunk_size as int, break_window as int);
    let ghost all = spans_from(bytes, end_of, overlap as int, 0);
    let mut start: usize = 0;
    proof {
        assert(chunks@ + all =~= all);
        lemma_breaks(text, 0, false);
    }
    while start < len
        invariant
            text == content@,
            bytes == encode_utf8(text),
            len == bytes.len(),
            start <= len,
            chunk_size > 0,
            breakpoints@ == breaks_from(text, 0, false),
            sound_breaks(text, breakpoints@),
            all == structure_spans(text, chunk_size as int, overlap as int, break_window as int),
            end_of == (|start: int|
                structure_end(text, start, chunk_size as int, break_window as int)),
            all == chunks@ + spans_from(bytes, end_of, overlap as int, start as int),
        decreases len - start,
    {
        let end: usize = if chunk_size >= len - start {
            len
        } else {
            match best_breakpoint(
                breakpoints.as_slice(),
                start,
                start + chunk_size,
                break_window,
            ) {
                Some(position) => position,
                None => fixed_end(content, start, chunk_size),
            }
        };
        proof {
            lemma_structure_end(text, start as int, chunk_size as int, break_window as int);
            lemma_best_index(
                breakpoints@,
                breakpoints@.len() as int,
                start as int,
                start + chunk_size,
                break_window as int,
            );
            assert(end == end_of(start as int));
        }
        chunks.push(ChunkSpan { start, end });
        if end >= len {
            proof {
                assert(all =~= chunks@);
            }
            return chunks;
        }
        let next: usize = next_start(content, start, end, overlap);
        proof {
            assert(all =~= chunks@ + spans_from(bytes, end_of, overlap as int, next as int));
        }
        start = next;
    }
    proof {
        assert(all =~= chunks@);
    }
    chunks
}

/// A span that is not empty, inside the text, and cuts no character.
pub open spec fn sound_span(bytes: Seq<u8>, span: ChunkSpan) -> bool {
    &&& span.start < span.end <= bytes.len()
    &&& is_char_boundary(bytes, span.start as int)
    &&& is_char_boundary(bytes, span.end as int)
}

/// A span of at most `size` bytes, or of one character.
pub open spec fn fits(bytes: Seq<u8>, span: ChunkSpan, size: int) -> bool {
    span.end - span.start <= size || forall|j: int|
        span.start < j < span.end ==> !is_char_boundary(bytes, j)
}

/// The span `next` goes on where `span` ends: with no gap, further on in the text, and
/// sharing `overlap` bytes with it unless that would hold it back.
pub open spec fn follows(bytes: Seq<u8>, span: ChunkSpan, next: ChunkSpan, overlap: int) -> bool {
    &&& span.start < next.start <= span.end
    &&& overlap == 0 ==> next.start == span.end
    &&& next.start <= span.end - overlap || forall|j: int|
        span.start < j < next.start ==> !is_char_boundary(bytes, j)
}

/// Spans that together hold the text from `from` to its end.
pub open spec fn covers(
    bytes: Seq<u8>,
    spans: Seq<ChunkSpan>,
    from: int,
    size: int,
    overlap: int,
) -> bool {
    &&& spans.len() > 0
    &&& spans[0].start == from
    &&& spans.last().end == bytes.len()
    &&& forall|i: int|
        0 <= i < spans.len() ==> sound_span(bytes, #[trigger] spans[i]) && fits(
            bytes,
            spans[i],
            size,
        )
    &&& forall|i: int|
        0 < i < spans.len() ==> #[trigger] follows(bytes, spans[i - 1], spans[i], overlap)
}

/// Whether `end_of` ends spans at boundaries, within `size`.
pub open spec fn ends_soundly(bytes: Seq<u8>, end_of: spec_fn(int) -> int, size: int) -> bool {
    forall|start: int|
        0 <= start < bytes.len() && is_char_boundary(bytes, start) ==> {
            let end = #[trigger] end_of(start);
            &&& start < end <= bytes.len()
            &&& is_char_boundary(bytes, end)
            &&& fits(bytes, ChunkSpan { start: start as usize, end: end as usize }, size)
        }
}

proof fn lemma_spans_from_cover(
    bytes: Seq<u8>,
    end_of: spec_fn(int) -> int,
    size: int,
    overlap: int,
    start: int,
)
    requires
        valid_utf8(bytes),
        bytes.len() <= usize::MAX,
        0 <= start < bytes.len(),
        0 <= overlap,
        is_char_boundary(bytes, start),
        ends_soundly(bytes, end_of, size),
    ensures
        covers(bytes, spans_from(bytes, end_of, overlap, start), start, size, overlap),
    decreases bytes.len() - start,
{
    let end = end_of(start);
    let span = ChunkSpan { start: start as usize, end: end as usize };
    if end < bytes.len() {
        let next = spec_next_start(bytes, start, end, overlap);
        lemma_floor_boundary(bytes, larger(end - overlap, 0));
        lemma_ceil_boundary(bytes, start + 1);
        lemma_spans_from_cover(bytes, end_of, size, overlap, next);
        let tail = spans_from(bytes, end_of, overlap, next);
        let all = seq![span] + tail;
        assert forall|i: int| 0 <= i < all.len() implies sound_span(bytes, #[trigger] all[i])
            && fits(bytes, all[i], size) by {
            if i > 0 {
                assert(all[i] == tail[i - 1]);
            }
        }
        assert forall|i: int| 0 < i < all.len() implies #[trigger] follows(
            bytes,
            all[i - 1],
            all[i],
            overlap,
        ) by {
            if i > 1 {
                assert(all[i] == tail[i - 1]);
                assert(all[i - 1] == tail[i - 2]);
                assert(follows(bytes, tail[i - 2], tail[i - 1], overlap));
            }
        }
        assert(all.last() == tail.last());
    }
}

/// The spans of a fixed size hold the whole text: the first starts at its start, the
/// last ends at its end, each goes on where the one before it ends, and none is empty
/// or cuts a character. Each is at most `size` bytes long or one character, save where
/// `size <= overlap` leaves one span for the whole text.
pub proof fn lemma_fixed_spans_cover(text: Seq<char>, size: int, overlap: int)
    requires
        0 < encode_utf8(text).len() <= usize::MAX,
        0 < size,
        0 <= overlap,
    ensures
        covers(
            encode_utf8(text),
            fixed_spans(text, size, overlap),
            0,
            if size <= overlap {
                encode_utf8(text).len() as int
            } else {
                size
            },
            overlap,
        ),
{
    let bytes = encode_utf8(text);
    encode_utf8_valid_utf8(text);
    is_char_boundary_start_end_of_seq(bytes);
    if !(size >= bytes.len() || size <= overlap) {
        let end_of = |start: int| spec_fixed_end(bytes, start, size);
        assert forall|start: int|
            0 <= start < bytes.len() && is_char_boundary(bytes, start) implies {
            let end = #[trigger] end_of(start);
            &&& start < end <= bytes.len()
            &&& is_char_boundary(bytes, end)
            &&& fits(bytes, ChunkSpan { start: start as usize, end: end as usize }, size)
        } by {
            lemma_fixed_end(bytes, start, size);
        }
        lemma_spans_from_cover(bytes, end_of, size, overlap, 0);
    }
}

/// The spans that follow the structure of the text hold it in the same way.
pub proof fn lemma_structure_spans_cover(text: Seq<char>, size: int, overlap: int, window: int)
    requires
        0 < encode_utf8(text).len() <= usize::MAX,
        0 < size,
        0 <= overlap,
    ensures
        covers(
            encode_utf8(text),
            structure_spans(text, size, overlap, window),
            0,
            if size <= overlap {
                encode_utf8(text).len() as int
            } else {
                size
            },
            overlap,
        ),
{
    let bytes = encode_utf8(text);
    encode_utf8_valid_utf8(text);
    is_char_boundary_start_end_of_seq(bytes);
    lemma_fixed_spans_cover(text, size, overlap);
    if !(size >= bytes.len() || size <= overlap) {
        let end_of = |start: int| structure_end(text, start, size, window);
        assert forall|start: int|
            0 <= start < bytes.len() && is_char_boundary(bytes, start) implies {
            let end = #[trigger] end_of(start);
            &&& start < end <= bytes.len()
            &&& is_char_boundary(bytes, end)
            &&& fits(bytes, ChunkSpan { start: start as usize, end: end as usize }, size)
        } by {
            let breaks = breaks_from(text, 0, false);
            lemma_structure_end(text, start, size, window);
            lemma_best_index(breaks, breaks.len() as int, start, start + size, window);
            lemma_fixed_end(bytes, start, size);
        }
        lemma_spans_from_cover(bytes, end_of, size, overlap, 0);
    }
}

/// The ranges that [`chunk_content`] gives: the `k`-th starts `k * (size - overlap)`
/// bytes into the text, and the last is the first that reaches its end.
pub open spec fn byte_ranges(len: int, size: int, overlap: int) -> Seq<(usize, usize)> {
    if len == 0 || size == 0 {
        seq![]
    } else if size <= overlap {
        seq![(0usize, len as usize)]
    } else {
        let step = size - overlap;
        let count = if size >= len { 1 } else { 1 + (len - size + step - 1) / step };
        Seq::new(
            count as nat,
            |k: int| ((k * step) as usize, smaller(k * step + size, len) as usize),
        )
    }
}

/// Splits `content` into ranges of `chunk_size` bytes that share `overlap` bytes with
/// the one before, wherever characters start.
pub fn chunk_content(content: &str, chunk_size: usize, overlap: usize) -> (chunks: Vec<
    (usize, usize),
>)
    ensures
        chunks@ == byte_ranges(
            encode_utf8(content@).len() as int,
            chunk_size as int,
            overlap as int,
        ),
{
    let len: usize = content.as_bytes().len();
    let mut chunks: Vec<(usize, usize)> = Vec::new();
    if len == 0 || chunk_size == 0 {
        return chunks;
    }
    if chunk_size <= overlap {
        chunks.push((0, len));
        return chunks;
    }
    let step: usize = chunk_size - overlap;
    let mut start: usize = 0;
    loop
        invariant
            start < len == encode_utf8(content@).len(),
            step == chunk_size - overlap,
            step > 0,
            start == chunks@.len() * step,
            chunks@.len() == 0 || start + overlap < len,
            forall|k: int|
                0 <= k < chunks@.len() ==> #[trigger] chunks@[k] == (
                    (k * step) as usize,
                    smaller(k * step + chunk_size, len as int) as usize,
                ),
        decreases len - start,
    {
        let end: usize = if chunk_size < len - start { start + chunk_size } else { len };
        let ghost k = chunks@.len() as int;
        chunks.push((start, end));
        if end >= len {
            proof {
                assert((k - 1) * step == k * step - step) by (nonlinear_arith);
                lemma_range_count(len as int, chunk_size as int, step as int, k);
                assert(chunks@ =~= byte_ranges(len as int, chunk_size as int, overlap as int));
            }
            return chunks;
        }
        proof {
            assert((k + 1) * step == k * step + step) by (nonlinear_arith);
        }
        start = start + step;
    }
}

/// The range that reaches the end is the last one.
proof fn lemma_range_count(len: int, size: int, step: int, k: int)
    requires
        0 < step <= size,
        0 < len,
        k >= 0,
        k * step + size >= len,
        k == 0 || (k - 1) * step + size < len,
    ensures
        k + 1 == if size >= len {
            1
        } else {
            1 + (len - size + step - 1) / step
        },
{
    if size >= len {
        if k > 0 {
            assert((k - 1) * step >= 0) by (nonlinear_arith)
                requires
                    k > 0,
                    step > 0,
            ;
        }
    } else {
        let n = len - size + step - 1;
        if k == 0 {
            assert(k * step == 0);
        }
        assert(k * step <= n < (k + 1) * step) by (nonlinear_arith)
            requires
                n == len - size + step - 1,
                k * step + size >= len,
                (k - 1) * step + size < len,
        ;
        vstd::arithmetic::div_mod::lemma_fundamental_div_mod_converse(n, step, k, n - k * step);
    }
}

/// A way to split texts.
pub trait ChunkPlanner {
    /// The strategy of this planner.
    spec fn strategy(&self) -> ChunkStrategy;

    /// The spans that this planner gives.
    spec fn planned(&self, text: Seq<char>, size: int, overlap: int) -> Seq<ChunkSpan>;

    /// Splits `content` into spans.
    fn plan(&self, content: &str, chunk_size: usize, overlap: usize) -> (plan: ChunkPlan)
        ensures
            plan.strategy@ == self.strategy().spec_as_str(),
            plan.spans@ == self.planned(content@, chunk_size as int, overlap as int),
    ;
}

/// Splits texts into spans of a fixed size.
#[derive(Clone, Copy, Debug)]
pub struct FixedUtf8ChunkPlanner;

impl ChunkPlanner for FixedUtf8ChunkPlanner {
    open spec fn strategy(&self) -> ChunkStrategy {
        ChunkStrategy::FixedUtf8
    }

    open spec fn planned(&self, text: Seq<char>, size: int, overlap: int) -> Seq<ChunkSpan> {
        fixed_spans(text, size, overlap)
    }

    fn plan(&self, content: &str, chunk_size: usize, overlap: usize) -> ChunkPlan {
        ChunkPlan {
            strategy: ChunkStrategy::FixedUtf8.as_str(),
            spans: fixed_utf8_chunks(content, chunk_size, overlap),
        }
    }
}

/// The spans that a document is split into, with breaks taken from the second half of
/// each.
pub open spec fn planned_spans(text: Seq<char>, size: int, overlap: int) -> Seq<ChunkSpan> {
    structure_spans(text, size, overlap, larger(size / 2, 1))
}

/// Splits the content of the document at `path`, whatever its path is, by its
/// structure.
pub fn plan_chunks(path: &str, content: &str, chunk_size: usize, overlap: usize) -> (plan:
    ChunkPlan)
    ensures
        plan.strategy@ == ChunkStrategy::Structure.spec_as_str(),
        plan.spans@ == planned_spans(content@, chunk_size as int, overlap as int),
{
    let break_window: usize = if chunk_size / 2 > 1 { chunk_size / 2 } else { 1 };
    ChunkPlan {
        strategy: ChunkStrategy::Structure.as_str(),
        spans: structure_chunks(content, chunk_size, overlap, break_window),
    }
}

} // verus!
