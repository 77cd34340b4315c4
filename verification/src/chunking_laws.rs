//! What the breaks of a text are, told from the text itself: its lines, and which of them
//! lie in code.

use crate::chunking::{
    best_index, break_score, breaks_from, byte_ranges, eligible, fixed_spans, floor_boundary,
    full_line_length, inner_break, is_digit, larger, leading_hashes, lemma_best_index,
    lemma_ceil_boundary, lemma_fixed_end, lemma_floor_boundary, lemma_line_length,
    lemma_offset_monotonic, lemma_offset_step, lemma_structure_end, line_break, line_length,
    ordered_marker, planned_spans, smaller, spans_from, spec_fixed_end, spec_heading_score,
    spec_is_code_fence, spec_is_horizontal_rule, spec_is_list_item, spec_next_start, starts_with,
    structure_end, structure_spans, Breakpoint, ChunkSpan,
};
use crate::text::{byte_offset, is_space, lemma_trimmed, lemma_width, trimmed};
use vstd::prelude::*;
use vstd::utf8::{
    encode_utf8, encode_utf8_valid_utf8, is_char_boundary, is_char_boundary_start_end_of_seq,
    valid_utf8,
};

verus! {

/// Whether a line starts at `p`: at the start of the text, or after a line feed.
pub open spec fn line_starts(text: Seq<char>, p: int) -> bool {
    0 <= p < text.len() && (p == 0 || text[p - 1] == '\n')
}

/// Whether the line that starts at `p` ends before `e`: at a line feed, or with the text.
pub open spec fn line_ends(text: Seq<char>, p: int, e: int) -> bool {
    &&& p <= e <= text.len()
    &&& forall|i: int| p <= i < e ==> text[i] != '\n'
    &&& e == text.len() || text[e] == '\n'
}

/// Whether there is nothing but white space from `a` to `b`.
pub open spec fn blank(text: Seq<char>, a: int, b: int) -> bool {
    forall|i: int| a <= i < b ==> is_space(#[trigger] text[i])
}

/// Whether the line from `p` to `e` is a fence: three backticks or three tildes after
/// white space.
pub open spec fn fence_line(text: Seq<char>, p: int, e: int) -> bool {
    exists|k: int|
        {
            &&& p <= k && k + 3 <= e
            &&& #[trigger] blank(text, p, k)
            &&& text[k] == '`' && text[k + 1] == '`' && text[k + 2] == '`' || text[k] == '~'
                && text[k + 1] == '~' && text[k + 2] == '~'
        }
}

/// Whether the line at `p` is a fence.
pub open spec fn fence_at(text: Seq<char>, p: int) -> bool {
    exists|e: int| #[trigger] line_ends(text, p, e) && fence_line(text, p, e)
}

/// The number of fence lines that start before `p`.
pub open spec fn fences_before(text: Seq<char>, p: int) -> nat
    decreases p,
{
    if p <= 0 {
        0
    } else {
        fences_before(text, p - 1) + if line_starts(text, p - 1) && fence_at(text, p - 1) {
            1nat
        } else {
            0nat
        }
    }
}

/// Whether the line at `p` lies in code: the number of fence lines before it is odd.
pub open spec fn in_code(text: Seq<char>, p: int) -> bool {
    fences_before(text, p) % 2 == 1
}

/// Whether the line from `p` to `e` is a heading with `level` signs: these after white
/// space and, after them, a space, a tab or nothing but white space.
pub open spec fn heading_line(text: Seq<char>, p: int, e: int, level: int) -> bool {
    1 <= level <= 6 && exists|k: int|
        {
            &&& p <= k && k + level <= e
            &&& #[trigger] blank(text, p, k)
            &&& forall|i: int| k <= i < k + level ==> text[i] == '#'
            &&& blank(text, k + level, e) || text[k + level] == ' ' || text[k + level] == '\t'
        }
}

/// Whether the line from `p` to `e` is a rule: three or more times the same of three
/// signs, with white space around them.
pub open spec fn rule_line(text: Seq<char>, p: int, e: int) -> bool {
    exists|a: int, b: int|
        {
            &&& p <= a && a + 3 <= b <= e
            &&& #[trigger] blank(text, p, a)
            &&& #[trigger] blank(text, b, e)
            &&& text[a] == '-' || text[a] == '*' || text[a] == '_'
            &&& forall|i: int| a <= i < b ==> text[i] == text[a]
        }
}

/// Whether the line from `p` to `e` is an item of a list: after white space a hyphen, an
/// asterisk or a plus sign, or digits and a full stop; then a space, and more than white
/// space after it.
pub open spec fn item_line(text: Seq<char>, p: int, e: int) -> bool {
    exists|k: int, d: int|
        {
            &&& p <= k <= d && d + 1 < e
            &&& #[trigger] blank(text, p, k)
            &&& text[d + 1] == ' '
            &&& !(#[trigger] blank(text, d + 1, e))
            &&& d == k && (text[k] == '-' || text[k] == '*' || text[k] == '+') || d > k && text[d]
                == '.' && forall|i: int| k <= i < d ==> '0' <= #[trigger] text[i] <= '9'
        }
}

/// The score of a break before a heading, by the number of its signs.
pub open spec fn heading_value(level: int) -> int {
    seq![100int, 90, 80, 70, 60, 50][level - 1]
}

/// Whether the line from `p` to `e` makes a break of this score before the character at
/// `q`. Any fence makes one before it. A line outside of code makes one before it if it is
/// a heading, a rule or an item of a list, and one after it, with a higher score if it is
/// blank.
pub open spec fn line_makes(text: Seq<char>, p: int, e: int, q: int, score: int) -> bool {
    if fence_line(text, p, e) {
        q == p && score == 80
    } else if in_code(text, p) {
        false
    } else {
        ||| q == p && (exists|level: int|
            #[trigger] heading_line(text, p, e, level) && score == heading_value(level))
        ||| q == p && rule_line(text, p, e) && score == 60
        ||| q == p && item_line(text, p, e) && score == 5
        ||| q == e + 1 && blank(text, p, e) && score == 20
        ||| q == e + 1 && score == 1
    }
}

/// Whether some line makes a break of this score before the character at `q`.
pub open spec fn some_line_makes(text: Seq<char>, from: int, q: int, score: int) -> bool {
    exists|p: int, e: int|
        from <= p && #[trigger] line_starts(text, p) && #[trigger] line_ends(text, p, e)
            && line_makes(text, p, e, q, score)
}

/// A line ends at one place.
proof fn lemma_one_end(text: Seq<char>, p: int, e: int, f: int)
    requires
        line_ends(text, p, e),
        line_ends(text, p, f),
    ensures
        e == f,
{
    if e < f {
        assert(text[e] == '\n');
    }
    if f < e {
        assert(text[f] == '\n');
    }
}

/// How the trimmed line lies in the text.
proof fn lemma_line(text: Seq<char>, p: int, e: int, line: Seq<char>) -> (range: (int, int))
    requires
        0 <= p <= e <= text.len(),
        line == trimmed(text.subrange(p, e)),
    ensures
        p <= range.0 <= range.1 <= e,
        line == text.subrange(range.0, range.1),
        blank(text, p, range.0),
        blank(text, range.1, e),
        range.0 < range.1 ==> !is_space(text[range.0]) && !is_space(text[range.1 - 1]),
        range.0 == range.1 ==> blank(text, p, e),
{
    let part = text.subrange(p, e);
    let (a, b) = lemma_trimmed(part);
    assert(part.subrange(a, b) =~= text.subrange(p + a, p + b));
    assert forall|i: int| p <= i < p + a implies is_space(#[trigger] text[i]) by {
        assert(part[i - p] == text[i]);
    }
    assert forall|i: int| p + b <= i < e implies is_space(#[trigger] text[i]) by {
        assert(part[i - p] == text[i]);
    }
    if a == b {
        assert forall|i: int| p <= i < e implies is_space(#[trigger] text[i]) by {
            assert(part[i - p] == text[i]);
        }
    }
    (p + a, p + b)
}

proof fn lemma_fence_line(text: Seq<char>, p: int, e: int, line: Seq<char>)
    requires
        0 <= p <= e <= text.len(),
        line == trimmed(text.subrange(p, e)),
    ensures
        fence_line(text, p, e) <==> spec_is_code_fence(line),
{
    let (a, b) = lemma_line(text, p, e, line);
    let ticks = seq!['`', '`', '`'];
    let tildes = seq!['~', '~', '~'];
    if spec_is_code_fence(line) {
        let mark = if starts_with(line, ticks) {
            ticks
        } else {
            tildes
        };
        assert(line.take(3) == mark);
        assert(line.take(3)[0] == mark[0] && line.take(3)[1] == mark[1] && line.take(3)[2]
            == mark[2]);
        assert(text[a] == mark[0] && text[a + 1] == mark[1] && text[a + 2] == mark[2]);
        assert(blank(text, p, a));
        assert(fence_line(text, p, e));
    }
    if fence_line(text, p, e) {
        let k = choose|k: int|
            {
                &&& p <= k && k + 3 <= e
                &&& #[trigger] blank(text, p, k)
                &&& text[k] == '`' && text[k + 1] == '`' && text[k + 2] == '`' || text[k] == '~'
                    && text[k + 1] == '~' && text[k + 2] == '~'
            };
        assert(!is_space(text[k]));
        assert(!is_space(text[k + 2]));
        if k < a {
            assert(is_space(text[k]));
        }
        if a < k {
            assert(is_space(text[a]));
        }
        if b <= k + 2 {
            assert(is_space(text[k + 2]));
        }
        if text[k] == '`' {
            assert(line.take(3) =~= ticks);
        } else {
            assert(line.take(3) =~= tildes);
        }
    }
}

proof fn lemma_leading_hashes(line: Seq<char>)
    ensures
        leading_hashes(line) <= line.len(),
        forall|i: int| 0 <= i < leading_hashes(line) ==> line[i] == '#',
        leading_hashes(line) < line.len() ==> line[leading_hashes(line) as int] != '#',
    decreases line.len(),
{
    if line.len() > 0 && line[0] == '#' {
        let rest = line.skip(1);
        lemma_leading_hashes(rest);
        assert forall|i: int| 0 <= i < leading_hashes(line) implies line[i] == '#' by {
            if i > 0 {
                assert(rest[i - 1] == line[i]);
            }
        }
        if leading_hashes(line) < line.len() {
            assert(rest[leading_hashes(rest) as int] == line[leading_hashes(line) as int]);
        }
    }
}

proof fn lemma_heading_line(text: Seq<char>, p: int, e: int, line: Seq<char>, level: int)
    requires
        0 <= p <= e <= text.len(),
        line == trimmed(text.subrange(p, e)),
    ensures
        heading_line(text, p, e, level) ==> spec_heading_score(line) == Some(heading_value(level)),
        spec_heading_score(line) is Some && level == leading_hashes(line) ==> heading_line(
            text,
            p,
            e,
            level,
        ) && spec_heading_score(line) == Some(heading_value(level)),
{
    let (a, b) = lemma_line(text, p, e, line);
    lemma_leading_hashes(line);
    let n = leading_hashes(line) as int;
    if heading_line(text, p, e, level) {
        let k = choose|k: int|
            {
                &&& p <= k && k + level <= e
                &&& #[trigger] blank(text, p, k)
                &&& forall|i: int| k <= i < k + level ==> text[i] == '#'
                &&& blank(text, k + level, e) || text[k + level] == ' ' || text[k + level] == '\t'
            };
        assert(text[k] == '#');
        assert(text[k + level - 1] == '#');
        if k < a {
            assert(is_space(text[k]));
        }
        if a < k {
            assert(is_space(text[a]));
        }
        if b < k + level {
            assert(is_space(text[k + level - 1]));
        }
        if n < level {
            assert(line[n] == text[a + n]);
        }
        if n > level {
            assert(line[level] == text[a + level]);
        }
        assert(n == level);
        if line.len() > level {
            assert(line[level] == text[a + level]);
            if blank(text, k + level, e) {
                assert(is_space(text[b - 1]));
            }
        }
    }
    if spec_heading_score(line) is Some && level == n {
        assert(blank(text, p, a));
        assert forall|i: int| a <= i < a + level implies text[i] == '#' by {
            assert(line[i - a] == text[i]);
        }
        if line.len() > level {
            assert(line[level] == text[a + level]);
        } else {
            assert(a + level == b);
        }
        assert(heading_line(text, p, e, level));
    }
}

proof fn lemma_rule_line(text: Seq<char>, p: int, e: int, line: Seq<char>)
    requires
        0 <= p <= e <= text.len(),
        line == trimmed(text.subrange(p, e)),
    ensures
        rule_line(text, p, e) <==> spec_is_horizontal_rule(line),
{
    let (a, b) = lemma_line(text, p, e, line);
    if spec_is_horizontal_rule(line) {
        assert(line[0] == text[a]);
        assert forall|i: int| a <= i < b implies text[i] == text[a] by {
            assert(line[i - a] == text[i]);
        }
        assert(blank(text, p, a) && blank(text, b, e));
        assert(rule_line(text, p, e));
    }
    if rule_line(text, p, e) {
        let (x, y) = choose|x: int, y: int|
            {
                &&& p <= x && x + 3 <= y <= e
                &&& #[trigger] blank(text, p, x)
                &&& #[trigger] blank(text, y, e)
                &&& text[x] == '-' || text[x] == '*' || text[x] == '_'
                &&& forall|i: int| x <= i < y ==> text[i] == text[x]
            };
        assert(text[y - 1] == text[x]);
        if x < a {
            assert(is_space(text[x]));
        }
        if a < x {
            assert(is_space(text[a]));
        }
        if b < y {
            assert(is_space(text[y - 1]));
        }
        if y < b {
            assert(is_space(text[b - 1]));
        }
        assert forall|i: int| 0 <= i < line.len() implies line[i] == text[x] by {
            assert(line[i] == text[a + i]);
        }
    }
}

proof fn lemma_item_line(text: Seq<char>, p: int, e: int, line: Seq<char>)
    requires
        0 <= p <= e <= text.len(),
        line == trimmed(text.subrange(p, e)),
    ensures
        item_line(text, p, e) <==> spec_is_list_item(line),
{
    let (a, b) = lemma_line(text, p, e, line);
    if spec_is_list_item(line) {
        let d = if exists|digits: int| ordered_marker(line, digits) {
            choose|digits: int| ordered_marker(line, digits)
        } else {
            0
        };
        if exists|digits: int| ordered_marker(line, digits) {
            assert(ordered_marker(line, d));
            assert(text[a + d] == line[d]);
            assert(text[a + d + 1] == line[d + 1]);
            assert forall|i: int| a <= i < a + d implies '0' <= #[trigger] text[i] <= '9' by {
                assert(line[i - a] == text[i]);
                assert(is_digit(line[i - a]));
            }
        } else {
            assert(line.take(2)[0] == line[0] && line.take(2)[1] == line[1]);
            assert(text[a] == line[0]);
            assert(text[a + 1] == line[1]);
        }
        assert(!is_space(text[b - 1]));
        assert(is_space(text[a + d + 1]));
        assert(a + d + 1 < b - 1);
        assert(!blank(text, a + d + 1, e));
        assert(blank(text, p, a));
        assert(item_line(text, p, e));
    }
    if item_line(text, p, e) {
        let (k, d) = choose|k: int, d: int|
            {
                &&& p <= k <= d && d + 1 < e
                &&& #[trigger] blank(text, p, k)
                &&& text[d + 1] == ' '
                &&& !(#[trigger] blank(text, d + 1, e))
                &&& d == k && (text[k] == '-' || text[k] == '*' || text[k] == '+') || d > k
                    && text[d] == '.' && forall|i: int| k <= i < d ==> '0' <= #[trigger] text[i] <= '9'
            };
        assert(!is_space(text[k]));
        if k < a {
            assert(is_space(text[k]));
        }
        if a < k {
            assert(is_space(text[a]));
        }
        assert(k == a);
        let j = choose|j: int| d + 1 <= j < e && !is_space(#[trigger] text[j]);
        if b <= j {
            assert(is_space(text[j]));
        }
        assert(d + 1 < b);
        assert(line[d - a] == text[d]);
        assert(line[d + 1 - a] == text[d + 1]);
        assert(line[0] == text[a]);
        if d == k {
            let mark = seq![text[k], ' '];
            assert(line.take(2) =~= mark);
            assert(starts_with(line, mark));
        } else {
            assert forall|i: int| 0 <= i < d - a implies is_digit(line[i]) by {
                assert(line[i] == text[a + i]);
            }
            assert(ordered_marker(line, d - a));
        }
    }
}

/// Lines and fences from one line to the next.
proof fn lemma_next_line(text: Seq<char>, p: int, e: int, next: int)
    requires
        line_starts(text, p),
        line_ends(text, p, e),
        next == if e < text.len() {
            e + 1
        } else {
            e
        },
    ensures
        next < text.len() ==> line_starts(text, next),
        forall|i: int| p < i < next ==> !line_starts(text, i),
        fences_before(text, next) == fences_before(text, p) + if fence_line(text, p, e) {
            1nat
        } else {
            0nat
        },
{
    assert(fence_at(text, p) == fence_line(text, p, e)) by {
        if fence_at(text, p) {
            let f = choose|f: int| #[trigger] line_ends(text, p, f) && fence_line(text, p, f);
            lemma_one_end(text, p, e, f);
        }
    }
    assert forall|i: int| p < i < next implies !line_starts(text, i) by {
        assert(text[i - 1] != '\n');
    }
    assert(p < next);
    assert(fences_before(text, p + 1) == fences_before(text, p) + if fence_line(text, p, e) {
        1nat
    } else {
        0nat
    });
    lemma_no_fences(text, p + 1, next);
}

proof fn lemma_no_fences(text: Seq<char>, from: int, to: int)
    requires
        0 < from <= to,
        forall|i: int| from <= i < to ==> !line_starts(text, i),
    ensures
        fences_before(text, to) == fences_before(text, from),
    decreases to - from,
{
    if from < to {
        lemma_no_fences(text, from, to - 1);
    }
}

/// Characters start at different places.
proof fn lemma_offsets_differ(text: Seq<char>, i: int, j: int)
    requires
        0 <= i < j <= text.len(),
    ensures
        byte_offset(text, i) < byte_offset(text, j),
{
    lemma_offset_step(text, i);
    lemma_width(text[i]);
    lemma_offset_monotonic(text, i + 1, j);
}

/// A break stands inside of the text, before the character at `q`.
pub open spec fn stands_before(text: Seq<char>, b: Breakpoint, q: int) -> bool {
    0 < q < text.len() && b.position == byte_offset(text, q)
}

/// Whether a break is one that some line from `from` on makes.
pub open spec fn is_made(text: Seq<char>, from: int, b: Breakpoint) -> bool {
    exists|q: int|
        #[trigger] stands_before(text, b, q) && some_line_makes(text, from, q, b.score as int)
}

proof fn lemma_inner_break(text: Seq<char>, i: int, score: int, b: Breakpoint)
    requires
        encode_utf8(text).len() <= usize::MAX,
        0 <= i <= text.len(),
        0 < score <= 100,
    ensures
        inner_break(
            byte_offset(text, i),
            score,
            byte_offset(text, text.len() as int),
        ).contains(b) <==> stands_before(text, b, i) && b.score == score,
{
    let total = byte_offset(text, text.len() as int);
    assert(text.take(text.len() as int) =~= text);
    assert(text.take(0) =~= Seq::<char>::empty());
    lemma_offset_monotonic(text, i, text.len() as int);
    if i > 0 {
        lemma_offsets_differ(text, 0, i);
    }
    if i < text.len() {
        lemma_offsets_differ(text, i, text.len() as int);
    }
    let all = inner_break(byte_offset(text, i), score, total);
    if stands_before(text, b, i) && b.score == score {
        assert(all[0] == b);
    }
}

/// What one line adds to the breaks.
proof fn lemma_line_adds(
    text: Seq<char>,
    p: int,
    e: int,
    next: int,
    line: Seq<char>,
    b: Breakpoint,
)
    requires
        encode_utf8(text).len() <= usize::MAX,
        line_starts(text, p),
        line_ends(text, p, e),
        line == trimmed(text.subrange(p, e)),
        next == if e < text.len() {
            e + 1
        } else {
            e
        },
        !fence_line(text, p, e),
        !in_code(text, p),
    ensures
        ({
            let total = byte_offset(text, text.len() as int);
            let start = byte_offset(text, p);
            let after = byte_offset(text, next);
            (line_break(line, start, after, total) + inner_break(after, 1, total)).contains(b)
        }) <==> exists|q: int|
            #[trigger] stands_before(text, b, q) && line_makes(text, p, e, q, b.score as int),
{
    let total = byte_offset(text, text.len() as int);
    let start = byte_offset(text, p);
    let after = byte_offset(text, next);
    let own = line_break(line, start, after, total);
    let tail = inner_break(after, 1, total);
    let n = leading_hashes(line) as int;
    let (a, z) = lemma_line(text, p, e, line);
    lemma_heading_line(text, p, e, line, n);
    lemma_rule_line(text, p, e, line);
    lemma_item_line(text, p, e, line);
    lemma_leading_hashes(line);
    lemma_inner_break(text, next, 1, b);
    lemma_inner_break(text, next, 20, b);
    lemma_inner_break(text, p, 60, b);
    lemma_inner_break(text, p, 5, b);
    if let Some(score) = spec_heading_score(line) {
        lemma_inner_break(text, p, score, b);
    }
    assert((own + tail).contains(b) <==> own.contains(b) || tail.contains(b)) by {
        lemma_concat_contains(own, tail, b);
    }
    assert(blank(text, p, e) <==> line.len() == 0) by {
        if line.len() > 0 {
            assert(!is_space(text[a]));
        }
    }
    if line.len() > 0 {
        assert(line[0] == text[a]);
    }
    // No line is two of these.
    assert(spec_heading_score(line) is Some ==> line.len() > 0 && line[0] == '#');
    assert(spec_is_horizontal_rule(line) ==> line[0] == '-' || line[0] == '*' || line[0] == '_');
    assert(spec_is_list_item(line) ==> line.len() >= 2 && line[0] != '#'
        && !spec_is_horizontal_rule(line)) by {
        if spec_is_list_item(line) {
            if exists|digits: int| ordered_marker(line, digits) {
                let d = choose|digits: int| ordered_marker(line, digits);
                assert(is_digit(line[0]));
            } else {
                assert(line.take(2)[0] == line[0] && line.take(2)[1] == line[1]);
                assert(line[1] == ' ');
            }
        }
    }
    if (own + tail).contains(b) {
        if tail.contains(b) {
            assert(line_makes(text, p, e, next, 1));
            assert(stands_before(text, b, next));
        } else if spec_heading_score(line) is Some {
            assert(heading_line(text, p, e, n));
            assert(line_makes(text, p, e, p, b.score as int));
            assert(stands_before(text, b, p));
        } else if spec_is_horizontal_rule(line) {
            assert(line_makes(text, p, e, p, 60));
            assert(stands_before(text, b, p));
        } else if line.len() == 0 {
            assert(line_makes(text, p, e, next, 20));
            assert(stands_before(text, b, next));
        } else {
            assert(line_makes(text, p, e, p, 5));
            assert(stands_before(text, b, p));
        }
    }
    if exists|q: int|
        #[trigger] stands_before(text, b, q) && line_makes(text, p, e, q, b.score as int) {
        let q = choose|q: int|
            #[trigger] stands_before(text, b, q) && line_makes(text, p, e, q, b.score as int);
        if q == p {
            if exists|level: int|
                #[trigger] heading_line(text, p, e, level) && b.score == heading_value(level) {
                let level = choose|level: int|
                    #[trigger] heading_line(text, p, e, level) && b.score == heading_value(level);
                lemma_heading_line(text, p, e, line, level);
            }
            assert(own.contains(b));
        } else {
            assert(next == q);
        }
    }
}

proof fn lemma_concat_contains<A>(a: Seq<A>, b: Seq<A>, x: A)
    ensures
        (a + b).contains(x) <==> a.contains(x) || b.contains(x),
{
    let all = a + b;
    if a.contains(x) {
        let i = choose|i: int| 0 <= i < a.len() && a[i] == x;
        assert(all[i] == x);
    }
    if b.contains(x) {
        let i = choose|i: int| 0 <= i < b.len() && b[i] == x;
        assert(all[a.len() + i] == x);
    }
    if all.contains(x) {
        let i = choose|i: int| 0 <= i < all.len() && all[i] == x;
        if i < a.len() {
            assert(a[i] == x);
        } else {
            assert(b[i - a.len()] == x);
        }
    }
}

proof fn lemma_breaks_made(text: Seq<char>, from: int, b: Breakpoint)
    requires
        encode_utf8(text).len() <= usize::MAX,
        from == text.len() || line_starts(text, from),
    ensures
        breaks_from(text, from, in_code(text, from)).contains(b) <==> is_made(text, from, b),
    decreases text.len() - from,
{
    if from < text.len() {
        let rest = text.skip(from);
        lemma_line_length(rest);
        let n = line_length(rest) as int;
        let e = from + n;
        let next = from + full_line_length(rest);
        let line = trimmed(rest.take(n));
        assert(rest.take(n) =~= text.subrange(from, e));
        assert forall|i: int| from <= i < e implies text[i] != '\n' by {
            assert(rest[i - from] == text[i]);
        }
        if e < text.len() {
            assert(rest[n] == text[e]);
        }
        assert(line_ends(text, from, e));
        lemma_fence_line(text, from, e, line);
        lemma_next_line(text, from, e, next);
        lemma_breaks_made(text, next, b);
        let total = byte_offset(text, text.len() as int);
        let start = byte_offset(text, from);
        let after = byte_offset(text, next);
        let tail = breaks_from(text, next, in_code(text, next));
        let mine = exists|q: int|
            #[trigger] stands_before(text, b, q) && line_makes(text, from, e, q, b.score as int);
        assert(is_made(text, from, b) <==> mine || is_made(text, next, b)) by {
            if is_made(text, from, b) {
                let q = choose|q: int|
                    #[trigger] stands_before(text, b, q) && some_line_makes(
                        text,
                        from,
                        q,
                        b.score as int,
                    );
                let (p, f) = choose|p: int, f: int|
                    from <= p && #[trigger] line_starts(text, p) && #[trigger] line_ends(
                        text,
                        p,
                        f,
                    ) && line_makes(text, p, f, q, b.score as int);
                if p == from {
                    lemma_one_end(text, p, e, f);
                } else {
                    assert(next <= p);
                    assert(some_line_makes(text, next, q, b.score as int));
                }
            }
            if is_made(text, next, b) {
                let q = choose|q: int|
                    #[trigger] stands_before(text, b, q) && some_line_makes(
                        text,
                        next,
                        q,
                        b.score as int,
                    );
                let (p, f) = choose|p: int, f: int|
                    next <= p && #[trigger] line_starts(text, p) && #[trigger] line_ends(
                        text,
                        p,
                        f,
                    ) && line_makes(text, p, f, q, b.score as int);
                assert(some_line_makes(text, from, q, b.score as int));
            }
            if mine {
                let q = choose|q: int|
                    #[trigger] stands_before(text, b, q) && line_makes(
                        text,
                        from,
                        e,
                        q,
                        b.score as int,
                    );
                assert(some_line_makes(text, from, q, b.score as int));
            }
        }
        if fence_line(text, from, e) {
            assert(in_code(text, next) == !in_code(text, from));
            lemma_inner_break(text, from, 80, b);
            lemma_concat_contains(inner_break(start, 80, total), tail, b);
            assert(mine <==> stands_before(text, b, from) && b.score == 80) by {
                if stands_before(text, b, from) && b.score == 80 {
                    assert(line_makes(text, from, e, from, 80));
                }
            }
        } else if in_code(text, from) {
            assert(!mine);
        } else {
            lemma_line_adds(text, from, e, next, line, b);
            let own = line_break(line, start, after, total) + inner_break(after, 1, total);
            lemma_concat_contains(own, tail, b);
        }
    } else {
        assert(!is_made(text, from, b)) by {
            if is_made(text, from, b) {
                let q = choose|q: int|
                    #[trigger] stands_before(text, b, q) && some_line_makes(
                        text,
                        from,
                        q,
                        b.score as int,
                    );
            }
        }
    }
}

/// The breaks of a text are those that its lines make, and no others. A line lies in code
/// where the number of fence lines before it is odd.
pub proof fn lemma_breaks_are_made_by_lines(text: Seq<char>, b: Breakpoint)
    requires
        encode_utf8(text).len() <= usize::MAX,
    ensures
        breaks_from(text, 0, false).contains(b) <==> exists|q: int|
            #[trigger] stands_before(text, b, q) && some_line_makes(text, 0, q, b.score as int),
{
    assert(fences_before(text, 0) == 0);
    lemma_breaks_made(text, 0, b);
}

/// Breaks stand in the order of the text.
proof fn lemma_breaks_in_order(text: Seq<char>, from: int, in_fence: bool, i: int, j: int)
    requires
        encode_utf8(text).len() <= usize::MAX,
        0 <= from <= text.len(),
        0 <= i <= j < breaks_from(text, from, in_fence).len(),
    ensures
        breaks_from(text, from, in_fence)[i].position <= breaks_from(
            text,
            from,
            in_fence,
        )[j].position,
        byte_offset(text, from) <= breaks_from(text, from, in_fence)[i].position,
    decreases text.len() - from,
{
    if from < text.len() {
        let rest = text.skip(from);
        lemma_line_length(rest);
        let n = line_length(rest) as int;
        let next = from + full_line_length(rest);
        let line = trimmed(rest.take(n));
        let total = byte_offset(text, text.len() as int);
        let start = byte_offset(text, from);
        let after = byte_offset(text, next);
        lemma_offset_monotonic(text, from, next);
        lemma_offset_monotonic(text, next, text.len() as int);
        assert(text.take(text.len() as int) =~= text);
        let fence = spec_is_code_fence(line);
        let own = if fence {
            inner_break(start, 80, total)
        } else if in_fence {
            seq![]
        } else {
            line_break(line, start, after, total) + inner_break(after, 1, total)
        };
        let inside = if fence {
            !in_fence
        } else {
            in_fence
        };
        let tail = breaks_from(text, next, inside);
        assert(breaks_from(text, from, in_fence) =~= own + tail);
        let m = own.len() as int;
        if i >= m {
            lemma_breaks_in_order(text, next, inside, i - m, j - m);
        } else if j >= m {
            lemma_breaks_in_order(text, next, inside, j - m, j - m);
        }
    }
}

/// Whether a span from `start` to `end` is as long as it can be: no boundary lies after
/// its end that would keep it within `size`; or it is one character.
pub open spec fn longest(bytes: Seq<u8>, start: int, end: int, size: int) -> bool {
    &&& start < end <= bytes.len()
    &&& is_char_boundary(bytes, end)
    &&& end <= start + size || forall|j: int| start < j < end ==> !is_char_boundary(bytes, j)
    &&& forall|j: int| end < j <= bytes.len() && j <= start + size ==> !is_char_boundary(bytes, j)
}

/// Whether `next` is where the span after one from `start` to `end` has to start: at the
/// last boundary that leaves `overlap` bytes to share, if that is after `start`; else at
/// the first one after `start`.
pub open spec fn goes_on(bytes: Seq<u8>, start: int, end: int, overlap: int, next: int) -> bool {
    &&& start < next
    &&& is_char_boundary(bytes, next)
    &&& if exists|j: int| start < j <= end - overlap && is_char_boundary(bytes, j) {
        next <= end - overlap && forall|j: int|
            next < j <= end - overlap ==> !is_char_boundary(bytes, j)
    } else {
        forall|j: int| start < j < next ==> !is_char_boundary(bytes, j)
    }
}

proof fn lemma_fixed_end_is_longest(bytes: Seq<u8>, start: int, size: int)
    requires
        valid_utf8(bytes),
        0 <= start < bytes.len(),
        size >= 0,
    ensures
        longest(bytes, start, spec_fixed_end(bytes, start, size), size),
{
    let limit = smaller(start + size, bytes.len() as int);
    lemma_fixed_end(bytes, start, size);
    lemma_floor_boundary(bytes, limit);
    lemma_ceil_boundary(bytes, start + 1);
    let end = spec_fixed_end(bytes, start, size);
    assert forall|j: int| end < j <= bytes.len() && j <= start + size implies !is_char_boundary(
        bytes,
        j,
    ) by {
        assert(floor_boundary(bytes, limit) < j <= limit);
    }
}

proof fn lemma_next_start_goes_on(bytes: Seq<u8>, start: int, end: int, overlap: int)
    requires
        valid_utf8(bytes),
        0 <= start < end < bytes.len(),
        0 <= overlap,
    ensures
        goes_on(bytes, start, end, overlap, spec_next_start(bytes, start, end, overlap)),
{
    let limit = larger(end - overlap, 0);
    lemma_floor_boundary(bytes, limit);
    lemma_ceil_boundary(bytes, start + 1);
    let floor = floor_boundary(bytes, limit);
    if floor > start {
        assert(start < floor <= end - overlap && is_char_boundary(bytes, floor));
    } else {
        if exists|j: int| start < j <= end - overlap && is_char_boundary(bytes, j) {
            let j = choose|j: int| start < j <= end - overlap && is_char_boundary(bytes, j);
            assert(floor < j <= limit);
        }
    }
}

/// Whether spans go on from `from` to the end of the text as `ends` and the overlap say:
/// each but the last ends before the end of the text, where `ends` puts its end.
pub open spec fn run(
    bytes: Seq<u8>,
    spans: Seq<ChunkSpan>,
    from: int,
    overlap: int,
    ends: spec_fn(int, int) -> bool,
) -> bool {
    &&& spans.len() > 0
    &&& spans[0].start == from
    &&& spans.last().end == bytes.len()
    &&& forall|i: int|
        0 <= i < spans.len() ==> ends((#[trigger] spans[i]).start as int, spans[i].end as int)
    &&& forall|i: int|
        0 <= i < spans.len() - 1 ==> (#[trigger] spans[i]).end < bytes.len() && goes_on(
            bytes,
            spans[i].start as int,
            spans[i].end as int,
            overlap,
            spans[i + 1].start as int,
        )
}

proof fn lemma_spans_run(
    bytes: Seq<u8>,
    end_of: spec_fn(int) -> int,
    overlap: int,
    start: int,
    ends: spec_fn(int, int) -> bool,
)
    requires
        valid_utf8(bytes),
        bytes.len() <= usize::MAX,
        0 <= start < bytes.len(),
        0 <= overlap,
        is_char_boundary(bytes, start),
        forall|s: int|
            0 <= s < bytes.len() && is_char_boundary(bytes, s) ==> s < #[trigger] end_of(s)
                <= bytes.len() && is_char_boundary(bytes, end_of(s)) && ends(s, end_of(s)),
    ensures
        run(bytes, spans_from(bytes, end_of, overlap, start), start, overlap, ends),
    decreases bytes.len() - start,
{
    let end = end_of(start);
    let span = ChunkSpan { start: start as usize, end: end as usize };
    if end < bytes.len() {
        let next = spec_next_start(bytes, start, end, overlap);
        lemma_floor_boundary(bytes, larger(end - overlap, 0));
        lemma_ceil_boundary(bytes, start + 1);
        lemma_next_start_goes_on(bytes, start, end, overlap);
        lemma_spans_run(bytes, end_of, overlap, next, ends);
        let tail = spans_from(bytes, end_of, overlap, next);
        let all = seq![span] + tail;
        assert forall|i: int| 0 <= i < all.len() implies ends(
            (#[trigger] all[i]).start as int,
            all[i].end as int,
        ) by {
            if i > 0 {
                assert(all[i] == tail[i - 1]);
            }
        }
        assert forall|i: int| 0 <= i < all.len() - 1 implies (#[trigger] all[i]).end < bytes.len()
            && goes_on(
            bytes,
            all[i].start as int,
            all[i].end as int,
            overlap,
            all[i + 1].start as int,
        ) by {
            if i > 0 {
                assert(all[i] == tail[i - 1]);
                assert(all[i + 1] == tail[i]);
            }
        }
        assert(all.last() == tail.last());
    }
}

/// The spans of a fixed size, told from the text. There are none of an empty text or for
/// no size; there is one, of the whole text, where that fits or where spans would share
/// all of their bytes. Else each is as long as it can be, and the next one starts
/// `overlap` bytes before its end, or as near to that as characters allow.
pub proof fn lemma_fixed_spans_are(text: Seq<char>, size: int, overlap: int)
    requires
        encode_utf8(text).len() <= usize::MAX,
        0 <= size,
        0 <= overlap,
    ensures
        ({
            let bytes = encode_utf8(text);
            let spans = fixed_spans(text, size, overlap);
            if bytes.len() == 0 || size == 0 {
                spans.len() == 0
            } else if bytes.len() <= size || size <= overlap {
                spans.len() == 1 && spans[0].start == 0 && spans[0].end == bytes.len()
            } else {
                run(
                    bytes,
                    spans,
                    0,
                    overlap,
                    |start: int, end: int| longest(bytes, start, end, size),
                )
            }
        }),
{
    let bytes = encode_utf8(text);
    encode_utf8_valid_utf8(text);
    is_char_boundary_start_end_of_seq(bytes);
    if !(bytes.len() == 0 || size == 0) && !(bytes.len() <= size || size <= overlap) {
        let end_of = |start: int| spec_fixed_end(bytes, start, size);
        let ends = |start: int, end: int| longest(bytes, start, end, size);
        assert forall|s: int| 0 <= s < bytes.len() && is_char_boundary(bytes, s) implies s
            < #[trigger] end_of(s) <= bytes.len() && is_char_boundary(bytes, end_of(s)) && ends(
            s,
            end_of(s),
        ) by {
            lemma_fixed_end_is_longest(bytes, s, size);
        }
        lemma_spans_run(bytes, end_of, overlap, 0, ends);
    }
}

/// Whether a span from `start` that should end at `target` may end at a break: it lies
/// after `start`, and in the last `window` bytes before `target`.
pub open spec fn in_window(b: Breakpoint, start: int, target: int, window: int) -> bool {
    start < b.position && target - window <= b.position <= target
}

/// Whether a span from `start` ends where it has to. Within `size` of the end of the text
/// it ends there. Else it ends at a break in its window, if there is one: none there has
/// a higher score, and none further on has as high a one. Without a break it is as long
/// as it can be.
pub open spec fn ends_at_best(
    text: Seq<char>,
    start: int,
    end: int,
    size: int,
    window: int,
) -> bool {
    let bytes = encode_utf8(text);
    let breaks = breaks_from(text, 0, false);
    let target = start + size;
    if target >= bytes.len() {
        end == bytes.len()
    } else if exists|b: Breakpoint|
        #[trigger] breaks.contains(b) && in_window(b, start, target, window) {
        exists|b: Breakpoint|
            {
                &&& #[trigger] breaks.contains(b)
                &&& in_window(b, start, target, window)
                &&& end == b.position
                &&& forall|c: Breakpoint| #[trigger]
                    breaks.contains(c) && in_window(c, start, target, window) ==> {
                        &&& !break_score(c, target, window).greater(break_score(b, target, window))
                        &&& c.position > b.position ==> break_score(b, target, window).greater(
                            break_score(c, target, window),
                        )
                    }
            }
    } else {
        longest(bytes, start, end, size)
    }
}

/// The last of the best breaks is taken.
proof fn lemma_last_best(
    breakpoints: Seq<Breakpoint>,
    n: int,
    start: int,
    target: int,
    window: int,
)
    requires
        0 <= n <= breakpoints.len(),
    ensures
        best_index(breakpoints, n, start, target, window) matches Some(k) ==> forall|j: int|
            k < j < n && #[trigger] eligible(breakpoints[j], start, target, window) ==> break_score(
                breakpoints[k],
                target,
                window,
            ).greater(break_score(breakpoints[j], target, window)),
    decreases n,
{
    if n > 0 {
        lemma_last_best(breakpoints, n - 1, start, target, window);
        lemma_best_index(breakpoints, n - 1, start, target, window);
    }
}

proof fn lemma_structure_end_is_best(text: Seq<char>, start: int, size: int, window: int)
    requires
        encode_utf8(text).len() <= usize::MAX,
        0 <= start < encode_utf8(text).len(),
        size > 0,
    ensures
        ends_at_best(text, start, structure_end(text, start, size, window), size, window),
{
    let bytes = encode_utf8(text);
    let breaks = breaks_from(text, 0, false);
    let target = start + size;
    let n = breaks.len() as int;
    encode_utf8_valid_utf8(text);
    lemma_best_index(breaks, n, start, target, window);
    lemma_last_best(breaks, n, start, target, window);
    lemma_fixed_end_is_longest(bytes, start, size);
    if target < bytes.len() {
        match best_index(breaks, n, start, target, window) {
            Some(k) => {
                let b = breaks[k];
                assert(breaks.contains(b));
                assert(in_window(b, start, target, window));
                assert forall|c: Breakpoint| #[trigger]
                    breaks.contains(c) && in_window(c, start, target, window) implies {
                    &&& !break_score(c, target, window).greater(break_score(b, target, window))
                    &&& c.position > b.position ==> break_score(b, target, window).greater(
                        break_score(c, target, window),
                    )
                } by {
                    let j = choose|j: int| 0 <= j < breaks.len() && breaks[j] == c;
                    assert(eligible(breaks[j], start, target, window));
                    if c.position > b.position && j <= k {
                        lemma_breaks_in_order(text, 0, false, j, k);
                    }
                }
            },
            None => {
                assert forall|b: Breakpoint| #[trigger] breaks.contains(b) implies !in_window(
                    b,
                    start,
                    target,
                    window,
                ) by {
                    let j = choose|j: int| 0 <= j < breaks.len() && breaks[j] == b;
                    assert(!eligible(breaks[j], start, target, window));
                }
            },
        }
    }
}

/// The spans that follow the structure of a text, told from the text and its breaks. There
/// are none, or one, where there are none or one of a fixed size. Else each ends at the
/// best break of its window or, without one, is as long as it can be.
pub proof fn lemma_structure_spans_are(text: Seq<char>, size: int, overlap: int, window: int)
    requires
        encode_utf8(text).len() <= usize::MAX,
        0 <= size,
        0 <= overlap,
    ensures
        ({
            let bytes = encode_utf8(text);
            let spans = structure_spans(text, size, overlap, window);
            if bytes.len() == 0 || size == 0 {
                spans.len() == 0
            } else if bytes.len() <= size || size <= overlap {
                spans.len() == 1 && spans[0].start == 0 && spans[0].end == bytes.len()
            } else {
                run(
                    bytes,
                    spans,
                    0,
                    overlap,
                    |start: int, end: int| ends_at_best(text, start, end, size, window),
                )
            }
        }),
{
    let bytes = encode_utf8(text);
    let breaks = breaks_from(text, 0, false);
    encode_utf8_valid_utf8(text);
    is_char_boundary_start_end_of_seq(bytes);
    if !(bytes.len() == 0 || size == 0) && !(bytes.len() <= size || size <= overlap) {
        let ends = |start: int, end: int| ends_at_best(text, start, end, size, window);
        let end_of = if breaks.len() == 0 {
            |start: int| spec_fixed_end(bytes, start, size)
        } else {
            |start: int| structure_end(text, start, size, window)
        };
        assert forall|s: int| 0 <= s < bytes.len() && is_char_boundary(bytes, s) implies s
            < #[trigger] end_of(s) <= bytes.len() && is_char_boundary(bytes, end_of(s)) && ends(
            s,
            end_of(s),
        ) by {
            lemma_structure_end(text, s, size, window);
            lemma_structure_end_is_best(text, s, size, window);
            lemma_fixed_end(bytes, s, size);
            lemma_fixed_end_is_longest(bytes, s, size);
            if breaks.len() == 0 {
                let end = spec_fixed_end(bytes, s, size);
                if s + size >= bytes.len() && end < bytes.len() {
                    assert(!is_char_boundary(bytes, bytes.len() as int));
                }
            }
        }
        lemma_spans_run(bytes, end_of, overlap, 0, ends);
    }
}

/// The breaks of a document are looked for in the second half of each span.
pub proof fn lemma_planned_spans_are(text: Seq<char>, size: int, overlap: int)
    requires
        size >= 0,
    ensures
        size >= 2 ==> exists|window: int|
            2 * window <= size < 2 * (window + 1) && planned_spans(text, size, overlap)
                == #[trigger] structure_spans(text, size, overlap, window),
        size < 2 ==> planned_spans(text, size, overlap) == structure_spans(text, size, overlap, 1),
{
    if size >= 2 {
        let window = size / 2;
        assert(planned_spans(text, size, overlap) == structure_spans(text, size, overlap, window));
    }
}

/// The ranges that go by bytes alone, told by their ends: the first starts at the start,
/// each next one `size - overlap` bytes after the one before, each is `size` bytes long or
/// ends with the text, and the first that ends with it is the last.
pub proof fn lemma_byte_ranges_are(len: int, size: int, overlap: int)
    requires
        0 < len <= usize::MAX,
        0 <= overlap < size <= usize::MAX,
    ensures
        ({
            let ranges = byte_ranges(len, size, overlap);
            &&& ranges.len() > 0
            &&& ranges[0].0 == 0
            &&& ranges.last().1 == len
            &&& forall|i: int|
                0 <= i < ranges.len() - 1 ==> (#[trigger] ranges[i]).1 < len && ranges[i].1
                    == ranges[i].0 + size && ranges[i + 1].0 + overlap == ranges[i].1
            &&& ranges.last().0 + size >= len
        }),
{
    let step = size - overlap;
    let ranges = byte_ranges(len, size, overlap);
    let n = ranges.len() as int;
    if size >= len {
        assert(0 * step == 0);
    } else {
        let m = len - size + step - 1;
        let q = m / step;
        vstd::arithmetic::div_mod::lemma_fundamental_div_mod(m, step);
        assert(m == step * q + m % step && 0 <= m % step < step) by {
            vstd::arithmetic::div_mod::lemma_mod_bound(m, step);
        }
        assert(q >= 1) by (nonlinear_arith)
            requires
                m == step * q + m % step,
                m % step < step,
                m >= step,
                step > 0,
        ;
        assert(n == 1 + q);
        assert(q * step == step * q) by (nonlinear_arith);
        assert(q * step + size >= len);
        assert(q * step + overlap < len);
        assert forall|i: int| 0 <= i < n - 1 implies (#[trigger] ranges[i]).1 < len && ranges[i].1
            == ranges[i].0 + size && ranges[i + 1].0 + overlap == ranges[i].1 by {
            assert(i * step + step <= q * step && i * step >= 0) by (nonlinear_arith)
                requires
                    0 <= i,
                    i + 1 <= q,
                    step > 0,
            ;
            assert((i + 1) * step == i * step + step) by (nonlinear_arith);
        }
        assert(0 * step == 0);
        assert(q * step >= 0) by (nonlinear_arith)
            requires
                q >= 1,
                step > 0,
        ;
    }
}

} // verus!
