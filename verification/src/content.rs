//! Reading the content of a file: how much of it is read, whether it is text, and how
//! much of it is indexed.

use crate::chunking::{floor_boundary, floor_char_boundary, lemma_floor_boundary, smaller};
use vstd::prelude::*;
use vstd::utf8::{
    encode_utf8, is_char_boundary, is_char_boundary_iff_not_is_continuation_byte,
    is_char_boundary_start_end_of_seq, is_continuation_byte, length_of_first_scalar,
    partial_valid_partial_invalid_utf8, pop_first_scalar, valid_first_scalar, valid_utf8,
    valid_utf8_split,
};

verus! {

/// The number of bytes at the start of a file in which a zero byte shows that it is no
/// text.
pub const CONTENT_PROBE_BYTES: usize = 8192;

/// The number of bytes of a file that are indexed.
pub const CONTENT_BYTE_BUDGET: usize = 1048576;

/// The greatest number of bytes of one character.
pub const UTF8_MAX_SCALAR_BYTES: usize = 4;

/// What was read of a file.
#[derive(Clone, Debug, PartialEq, Eq)]
pub struct ContentReadPlan {
    pub content: Option<String>,
    pub content_utf8: bool,
    pub content_truncated: bool,
    pub content_bytes_indexed: usize,
    pub content_byte_budget: usize,
}

/// The view of a [`ContentReadPlan`], with the content as its bytes.
pub struct ReadPlan {
    pub content: Option<Seq<u8>>,
    pub content_utf8: bool,
    pub content_truncated: bool,
    pub content_bytes_indexed: int,
    pub content_byte_budget: int,
}

impl View for ContentReadPlan {
    type V = ReadPlan;

    open spec fn view(&self) -> ReadPlan {
        ReadPlan {
            content: match self.content {
                Some(content) => Some(encode_utf8(content@)),
                None => None,
            },
            content_utf8: self.content_utf8,
            content_truncated: self.content_truncated,
            content_bytes_indexed: self.content_bytes_indexed as int,
            content_byte_budget: self.content_byte_budget as int,
        }
    }
}

/// `core::str::from_utf8`: the text that `bytes` encode, if they are valid UTF-8.
#[verifier::external_body]
fn utf8_text(bytes: &[u8]) -> (text: Option<String>)
    ensures
        match text {
            Some(text) => valid_utf8(bytes@) && encode_utf8(text@) == bytes@,
            None => !valid_utf8(bytes@),
        },
{
    match core::str::from_utf8(bytes) {
        Ok(text) => Some(text.to_owned()),
        Err(_) => None,
    }
}

/// Whether `tail` is the start of the encoding of a character that goes on after it.
pub open spec fn opens_character(tail: Seq<u8>) -> bool {
    tail.len() > 0 && exists|rest: Seq<u8>|
        #[trigger] valid_first_scalar(tail + rest) && length_of_first_scalar(tail + rest)
            > tail.len()
}

/// Whether `bytes` are text up to `k`, and then break off within a character.
pub open spec fn breaks_off_at(bytes: Seq<u8>, k: int) -> bool {
    0 <= k < bytes.len() && valid_utf8(bytes.take(k)) && opens_character(bytes.skip(k))
}

/// The part of `bytes` that is text: all of them or, where more bytes follow that were
/// not read, those before a character that breaks off at their end.
pub open spec fn readable(bytes: Seq<u8>, truncated: bool) -> Option<Seq<u8>> {
    if valid_utf8(bytes) {
        Some(bytes)
    } else if truncated && exists|k: int| breaks_off_at(bytes, k) {
        Some(bytes.take(choose|k: int| breaks_off_at(bytes, k)))
    } else {
        None
    }
}

/// The text at the start of `bytes` that fits into `budget`.
pub open spec fn bounded_prefix(bytes: Seq<u8>, budget: int, truncated: bool) -> Option<Seq<u8>> {
    if bytes.len() == 0 || budget == 0 {
        Some(seq![])
    } else {
        match readable(bytes, truncated) {
            Some(text) => Some(
                text.take(floor_boundary(text, smaller(text.len() as int, budget))),
            ),
            None => None,
        }
    }
}

proof fn lemma_scalar_2(b1: u8, b2: u8)
    requires
        0xc0 <= b1 <= 0xdf,
        0x80 <= b2 <= 0xbf,
    ensures
        0x80 <= ((((b1 & 0x1f) as u32) << 6) | ((b2 & 0x3f) as u32)) <= 0x7ff <==> b1 >= 0xc2,
        ((((b1 & 0x1f) as u32) << 6) | ((b2 & 0x3f) as u32)) <= 0x7ff,
{
    assert(0x80 <= ((((b1 & 0x1f) as u32) << 6) | ((b2 & 0x3f) as u32)) <==> b1 >= 0xc2)
        by (bit_vector)
        requires
            0xc0 <= b1 <= 0xdf,
            0x80 <= b2 <= 0xbf,
    ;
    assert(((((b1 & 0x1f) as u32) << 6) | ((b2 & 0x3f) as u32)) <= 0x7ff) by (bit_vector);
}

proof fn lemma_scalar_3(b1: u8, b2: u8, b3: u8)
    requires
        0xe0 <= b1 <= 0xef,
        0x80 <= b2 <= 0xbf,
        0x80 <= b3 <= 0xbf,
    ensures
        ({
            let c = (((b1 & 0x0f) as u32) << 12) | (((b2 & 0x3f) as u32) << 6) | ((b3 & 0x3f)
                as u32);
            0x800 <= c && !(0xd800 <= c <= 0xdfff) <==> !(b1 == 0xe0 && b2 < 0xa0) && !(b1 == 0xed
                && b2 >= 0xa0)
        }),
{
    let c = (((b1 & 0x0f) as u32) << 12) | (((b2 & 0x3f) as u32) << 6) | ((b3 & 0x3f) as u32);
    assert(0x800 <= c && !(0xd800 <= c && c <= 0xdfff) <==> !(b1 == 0xe0 && b2 < 0xa0) && !(b1
        == 0xed && b2 >= 0xa0)) by (bit_vector)
        requires
            0xe0 <= b1 <= 0xef,
            0x80 <= b2 <= 0xbf,
            0x80 <= b3 <= 0xbf,
            c == (((b1 & 0x0f) as u32) << 12) | (((b2 & 0x3f) as u32) << 6) | ((b3 & 0x3f) as u32),
    ;
}

proof fn lemma_scalar_4(b1: u8, b2: u8, b3: u8, b4: u8)
    requires
        0xf0 <= b1 <= 0xf7,
        0x80 <= b2 <= 0xbf,
        0x80 <= b3 <= 0xbf,
        0x80 <= b4 <= 0xbf,
    ensures
        ({
            let c = (((b1 & 0x07) as u32) << 18) | (((b2 & 0x3f) as u32) << 12) | (((b3 & 0x3f)
                as u32) << 6) | ((b4 & 0x3f) as u32);
            0x10000 <= c <= 0x10ffff <==> !(b1 == 0xf0 && b2 < 0x90) && !(b1 == 0xf4 && b2 >= 0x90)
                && b1 <= 0xf4
        }),
{
    let c = (((b1 & 0x07) as u32) << 18) | (((b2 & 0x3f) as u32) << 12) | (((b3 & 0x3f) as u32)
        << 6) | ((b4 & 0x3f) as u32);
    assert(0x10000 <= c && c <= 0x10ffff <==> !(b1 == 0xf0 && b2 < 0x90) && !(b1 == 0xf4 && b2
        >= 0x90) && b1 <= 0xf4) by (bit_vector)
        requires
            0xf0 <= b1 <= 0xf7,
            0x80 <= b2 <= 0xbf,
            0x80 <= b3 <= 0xbf,
            0x80 <= b4 <= 0xbf,
            c == (((b1 & 0x07) as u32) << 18) | (((b2 & 0x3f) as u32) << 12) | (((b3 & 0x3f)
                as u32) << 6) | ((b4 & 0x3f) as u32),
    ;
}

/// Whether `b2` may follow the first byte `b1` of a character of three or four bytes.
spec fn may_follow(b1: u8, b2: u8) -> bool {
    &&& 0x80 <= b2 <= 0xbf
    &&& !(b1 == 0xe0 && b2 < 0xa0)
    &&& !(b1 == 0xed && b2 >= 0xa0)
    &&& !(b1 == 0xf0 && b2 < 0x90)
    &&& !(b1 == 0xf4 && b2 >= 0x90)
}

/// The start of a character that goes on, by its bytes.
spec fn opening(tail: Seq<u8>) -> bool {
    ||| tail.len() == 1 && 0xc2 <= tail[0] <= 0xf4
    ||| tail.len() == 2 && 0xe0 <= tail[0] <= 0xf4 && may_follow(tail[0], tail[1])
    ||| tail.len() == 3 && 0xf0 <= tail[0] <= 0xf4 && may_follow(tail[0], tail[1]) && 0x80
        <= tail[2] <= 0xbf
}

/// A byte that may follow the first byte of a character of three or four bytes.
spec fn follower(b1: u8) -> u8 {
    if b1 == 0xe0 {
        0xa0
    } else if b1 == 0xf0 {
        0x90
    } else {
        0x80
    }
}

/// The valid characters, by their bytes.
proof fn lemma_valid_scalar(bytes: Seq<u8>)
    requires
        bytes.len() > 0,
    ensures
        valid_first_scalar(bytes) <==> {
            ||| bytes[0] <= 0x7f
            ||| bytes.len() >= 2 && 0xc2 <= bytes[0] <= 0xdf && 0x80 <= bytes[1] <= 0xbf
            ||| bytes.len() >= 3 && 0xe0 <= bytes[0] <= 0xef && may_follow(bytes[0], bytes[1])
                && 0x80 <= bytes[2] <= 0xbf
            ||| bytes.len() >= 4 && 0xf0 <= bytes[0] <= 0xf4 && may_follow(bytes[0], bytes[1])
                && 0x80 <= bytes[2] <= 0xbf && 0x80 <= bytes[3] <= 0xbf
        },
{
    let b1 = bytes[0];
    if b1 <= 0x7f {
        assert((b1 & 0x7f) as u32 <= 0x7f) by (bit_vector);
    }
    if bytes.len() >= 2 && 0xc0 <= b1 <= 0xdf && is_continuation_byte(bytes[1]) {
        lemma_scalar_2(b1, bytes[1]);
    }
    if bytes.len() >= 3 && 0xe0 <= b1 <= 0xef && is_continuation_byte(bytes[1])
        && is_continuation_byte(bytes[2]) {
        lemma_scalar_3(b1, bytes[1], bytes[2]);
    }
    if bytes.len() >= 4 && 0xf0 <= b1 <= 0xf7 && is_continuation_byte(bytes[1])
        && is_continuation_byte(bytes[2]) && is_continuation_byte(bytes[3]) {
        lemma_scalar_4(b1, bytes[1], bytes[2], bytes[3]);
    }
}

/// `opening` says of the bytes what `opens_character` says of the encoding.
proof fn lemma_opening(tail: Seq<u8>)
    ensures
        opening(tail) <==> opens_character(tail),
{
    if opening(tail) {
        let b1 = tail[0];
        let rest = if tail.len() == 1 {
            if b1 <= 0xdf {
                seq![0x80u8]
            } else if b1 <= 0xef {
                seq![follower(b1), 0x80u8]
            } else {
                seq![follower(b1), 0x80u8, 0x80u8]
            }
        } else if tail.len() == 2 && b1 >= 0xf0 {
            seq![0x80u8, 0x80u8]
        } else {
            seq![0x80u8]
        };
        let all = tail + rest;
        lemma_valid_scalar(all);
        assert(all[0] == b1);
        if tail.len() >= 2 {
            assert(all[1] == tail[1]);
        }
        if tail.len() == 3 {
            assert(all[2] == tail[2]);
        }
        assert(valid_first_scalar(tail + rest));
        assert(length_of_first_scalar(tail + rest) > tail.len());
    }
    if opens_character(tail) {
        let rest = choose|rest: Seq<u8>|
            #[trigger] valid_first_scalar(tail + rest) && length_of_first_scalar(tail + rest)
                > tail.len();
        let all = tail + rest;
        lemma_valid_scalar(all);
        assert(all[0] == tail[0]);
        if tail.len() >= 2 {
            assert(all[1] == tail[1]);
        }
        if tail.len() >= 3 {
            assert(all[2] == tail[2]);
        }
    }
}

fn follows(b1: u8, b2: u8) -> (yes: bool)
    ensures
        yes == may_follow(b1, b2),
{
    0x80 <= b2 && b2 <= 0xbf && !(b1 == 0xe0 && b2 < 0xa0) && !(b1 == 0xed && b2 >= 0xa0) && !(b1
        == 0xf0 && b2 < 0x90) && !(b1 == 0xf4 && b2 >= 0x90)
}

/// Whether `tail` is the start of a character that goes on after it.
fn is_opening(tail: &[u8]) -> (yes: bool)
    ensures
        yes == opens_character(tail@),
{
    proof {
        lemma_opening(tail@);
    }
    if tail.len() == 1 {
        0xc2 <= tail[0] && tail[0] <= 0xf4
    } else if tail.len() == 2 {
        0xe0 <= tail[0] && tail[0] <= 0xf4 && follows(tail[0], tail[1])
    } else if tail.len() == 3 {
        0xf0 <= tail[0] && tail[0] <= 0xf4 && follows(tail[0], tail[1]) && 0x80 <= tail[2]
            && tail[2] <= 0xbf
    } else {
        false
    }
}

/// Bytes break off at one place only.
proof fn lemma_breaks_off_once(bytes: Seq<u8>, j: int, k: int)
    requires
        breaks_off_at(bytes, j),
        breaks_off_at(bytes, k),
        j <= k,
    ensures
        j == k,
{
    if j < k {
        let head = bytes.take(k);
        let mid = head.subrange(j, k);
        assert(head.subrange(0, j) =~= bytes.take(j));
        if !valid_utf8(mid) {
            partial_valid_partial_invalid_utf8(head, j);
        }
        assert(valid_first_scalar(mid));
        let tail = bytes.skip(j);
        let rest = choose|rest: Seq<u8>|
            #[trigger] valid_first_scalar(tail + rest) && length_of_first_scalar(tail + rest)
                > tail.len();
        assert(mid[0] == (tail + rest)[0]);
        assert(length_of_first_scalar(mid) <= mid.len());
    }
}

/// The text at the start of `bytes` that fits into `content_byte_budget`; `None` where
/// they are no text. Where more bytes follow that were not read, the last character may
/// be incomplete.
pub fn decode_bounded_utf8_prefix(
    bytes: &[u8],
    content_byte_budget: usize,
    read_truncated: bool,
) -> (text: Option<String>)
    ensures
        match text {
            Some(text) => bounded_prefix(bytes@, content_byte_budget as int, read_truncated)
                == Some(encode_utf8(text@)),
            None => bounded_prefix(bytes@, content_byte_budget as int, read_truncated) is None,
        },
{
    if bytes.len() == 0 || content_byte_budget == 0 {
        proof {
            assert(encode_utf8(Seq::<char>::empty()) =~= Seq::<u8>::empty());
        }
        return Some(String::new());
    }
    let mut valid: Option<String> = utf8_text(bytes);
    if valid.is_none() && read_truncated {
        let mut tail: usize = 1;
        while tail <= 3 && tail <= bytes.len() && valid.is_none()
            invariant
                1 <= tail <= 4,
                !valid_utf8(bytes@),
                match valid {
                    Some(text) => exists|k: int|
                        #[trigger] breaks_off_at(bytes@, k) && encode_utf8(text@) == bytes@.take(k),
                    None => forall|k: int|
                        bytes@.len() - tail < k ==> !#[trigger] breaks_off_at(bytes@, k),
                },
            decreases 4 - tail,
        {
            let k: usize = bytes.len() - tail;
            let rest: &[u8] = vstd::slice::slice_subrange(bytes, k, bytes.len());
            proof {
                assert(rest@ =~= bytes@.skip(k as int));
                assert(bytes@.subrange(0, k as int) =~= bytes@.take(k as int));
            }
            if is_opening(rest) {
                valid = utf8_text(vstd::slice::slice_subrange(bytes, 0, k));
                proof {
                    if valid is Some {
                        assert(breaks_off_at(bytes@, k as int));
                    }
                }
            }
            tail = tail + 1;
        }
        proof {
            if valid is None {
                assert forall|k: int| !breaks_off_at(bytes@, k) by {
                    if breaks_off_at(bytes@, k) {
                        lemma_opening(bytes@.skip(k));
                    }
                }
            } else {
                let k = choose|k: int|
                    #[trigger] breaks_off_at(bytes@, k) && encode_utf8(valid.unwrap()@)
                        == bytes@.take(k);
                let other = choose|k: int| breaks_off_at(bytes@, k);
                if other <= k {
                    lemma_breaks_off_once(bytes@, other, k);
                } else {
                    lemma_breaks_off_once(bytes@, k, other);
                }
            }
        }
    }
    match valid {
        Some(text) => {
            let ghost encoded = encode_utf8(text@);
            let len: usize = text.as_str().as_bytes().len();
            let end: usize = floor_char_boundary(
                text.as_str(),
                if len < content_byte_budget {
                    len
                } else {
                    content_byte_budget
                },
            );
            let (prefix, _) = text.as_str().split_at(end);
            proof {
                assert(encode_utf8(prefix@) =~= encoded.take(end as int));
            }
            Some(prefix.to_owned())
        },
        None => None,
    }
}

/// The number of bytes that are read of a file to index `budget` of them: enough to
/// complete a character that starts within the budget.
pub fn content_read_limit(budget: usize) -> (limit: usize)
    ensures
        limit == smaller(budget + (UTF8_MAX_SCALAR_BYTES - 1), usize::MAX as int),
{
    if budget <= usize::MAX - (UTF8_MAX_SCALAR_BYTES - 1) {
        budget + (UTF8_MAX_SCALAR_BYTES - 1)
    } else {
        usize::MAX
    }
}

/// Whether one of the first bytes is zero.
pub open spec fn looks_binary(bytes: Seq<u8>) -> bool {
    exists|i: int| 0 <= i < bytes.len() && i < CONTENT_PROBE_BYTES && #[trigger] bytes[i] == 0
}

/// What is indexed of a file of `file_len` bytes that starts with `bytes`.
pub open spec fn spec_read_plan(bytes: Seq<u8>, file_len: int, budget: int) -> ReadPlan {
    let truncated = file_len > bytes.len();
    let nothing = ReadPlan {
        content: None,
        content_utf8: false,
        content_truncated: truncated,
        content_bytes_indexed: 0,
        content_byte_budget: budget,
    };
    if looks_binary(bytes) {
        nothing
    } else {
        match bounded_prefix(bytes, budget, truncated) {
            Some(text) => ReadPlan {
                content: if text.len() > 0 {
                    Some(text)
                } else {
                    None
                },
                content_utf8: text.len() > 0,
                content_truncated: text.len() < file_len,
                content_bytes_indexed: text.len() as int,
                content_byte_budget: budget,
            },
            None => nothing,
        }
    }
}

/// Decides what is indexed of a file of `file_len` bytes, of which `bytes` were read.
pub fn read_content_prefix_with_budget(
    bytes: &[u8],
    file_len: usize,
    content_byte_budget: usize,
) -> (plan: ContentReadPlan)
    ensures
        plan@ == spec_read_plan(bytes@, file_len as int, content_byte_budget as int),
{
    let read_truncated: bool = file_len > bytes.len();
    let mut i: usize = 0;
    while i < bytes.len() && i < CONTENT_PROBE_BYTES
        invariant
            i <= bytes.len(),
            i <= CONTENT_PROBE_BYTES,
            read_truncated == (file_len > bytes@.len()),
            forall|j: int| 0 <= j < i ==> #[trigger] bytes@[j] != 0,
        decreases bytes.len() - i,
    {
        if bytes[i] == 0 {
            proof {
                assert(looks_binary(bytes@));
            }
            return ContentReadPlan {
                content: None,
                content_utf8: false,
                content_truncated: read_truncated,
                content_bytes_indexed: 0,
                content_byte_budget,
            };
        }
        i = i + 1;
    }
    match decode_bounded_utf8_prefix(bytes, content_byte_budget, read_truncated) {
        Some(content) => {
            let indexed: usize = content.as_str().as_bytes().len();
            ContentReadPlan {
                content: if indexed > 0 {
                    Some(content)
                } else {
                    None
                },
                content_utf8: indexed > 0,
                content_truncated: indexed < file_len,
                content_bytes_indexed: indexed,
                content_byte_budget,
            }
        },
        None => ContentReadPlan {
            content: None,
            content_utf8: false,
            content_truncated: read_truncated,
            content_bytes_indexed: 0,
            content_byte_budget,
        },
    }
}

/// A boundary of a text is one of its start, and the other way round.
proof fn lemma_boundary_take(text: Seq<u8>, k: int, i: int)
    requires
        valid_utf8(text),
        0 <= i <= k <= text.len(),
        is_char_boundary(text, k),
    ensures
        valid_utf8(text.take(k)),
        is_char_boundary(text.take(k), i) <==> is_char_boundary(text, i),
{
    let head = text.take(k);
    assert(head =~= text.subrange(0, k));
    valid_utf8_split(text, k);
    is_char_boundary_start_end_of_seq(head);
    if i < k {
        is_char_boundary_iff_not_is_continuation_byte(text, i);
        is_char_boundary_iff_not_is_continuation_byte(head, i);
        assert(head[i] == text[i]);
    }
}

/// The character at a boundary ends at a boundary.
proof fn lemma_next_boundary(text: Seq<u8>, k: int)
    requires
        valid_utf8(text),
        0 <= k < text.len(),
        is_char_boundary(text, k),
    ensures
        valid_utf8(text.skip(k)),
        valid_first_scalar(text.skip(k)),
        k < k + length_of_first_scalar(text.skip(k)) <= text.len(),
        is_char_boundary(text, k + length_of_first_scalar(text.skip(k))),
{
    let rest = text.skip(k);
    assert(rest =~= text.subrange(k, text.len() as int));
    valid_utf8_split(text, k);
    let n = length_of_first_scalar(rest);
    is_char_boundary_start_end_of_seq(text);
    assert(valid_first_scalar(rest));
    assert(n <= rest.len());
    if k + n < text.len() {
        let tail = pop_first_scalar(rest);
        assert(valid_utf8(tail));
        assert(tail.len() > 0);
        assert(valid_first_scalar(tail));
        assert(tail[0] == text[k + n]);
        is_char_boundary_iff_not_is_continuation_byte(text, k + n);
    }
}

/// A text that is cut within a character breaks off there.
proof fn lemma_cut_breaks_off(text: Seq<u8>, n: int)
    requires
        valid_utf8(text),
        0 <= n <= text.len(),
        !is_char_boundary(text, n),
    ensures
        !valid_utf8(text.take(n)),
        breaks_off_at(text.take(n), floor_boundary(text, n)),
{
    let cut = text.take(n);
    let k = floor_boundary(text, n);
    lemma_floor_boundary(text, n);
    lemma_boundary_take(text, k, k);
    lemma_next_boundary(text, k);
    let tail = cut.skip(k);
    let rest = text.skip(n);
    let length = length_of_first_scalar(text.skip(k));
    assert(n < k + length);
    assert(tail + rest =~= text.skip(k));
    assert(opens_character(tail));
    assert(cut.take(k) =~= text.take(k));
    lemma_not_valid_where_it_breaks_off(cut, k);
}

/// Bytes that break off are no text.
proof fn lemma_not_valid_where_it_breaks_off(bytes: Seq<u8>, k: int)
    requires
        breaks_off_at(bytes, k),
    ensures
        !valid_utf8(bytes),
{
    let tail = bytes.skip(k);
    assert(bytes.subrange(0, k) =~= bytes.take(k));
    assert(bytes.subrange(k, bytes.len() as int) =~= tail);
    if valid_utf8(tail) {
        let rest = choose|rest: Seq<u8>|
            #[trigger] valid_first_scalar(tail + rest) && length_of_first_scalar(tail + rest)
                > tail.len();
        assert((tail + rest)[0] == tail[0]);
        assert(valid_first_scalar(tail));
        assert(length_of_first_scalar(tail) <= tail.len());
    } else {
        partial_valid_partial_invalid_utf8(bytes, k);
    }
}

/// Where bytes that go on break off, the text before is what can be read.
proof fn lemma_readable_where_it_breaks_off(bytes: Seq<u8>, k: int)
    requires
        breaks_off_at(bytes, k),
    ensures
        readable(bytes, true) == Some(bytes.take(k)),
{
    lemma_not_valid_where_it_breaks_off(bytes, k);
    let other = choose|j: int| breaks_off_at(bytes, j);
    if other <= k {
        lemma_breaks_off_once(bytes, other, k);
    } else {
        lemma_breaks_off_once(bytes, k, other);
    }
}

/// The first bytes of a file, as many as are read to index `budget` of them.
pub open spec fn read_part(file: Seq<u8>, budget: int) -> Seq<u8> {
    file.take(smaller(file.len() as int, budget + (UTF8_MAX_SCALAR_BYTES - 1)))
}

/// What was read of a start of bytes can be read of them.
proof fn lemma_shorter_read(bytes: Seq<u8>, text: Seq<u8>, truncated: bool, n: int, end: int)
    requires
        readable(bytes, truncated) == Some(text),
        0 < end <= n <= bytes.len(),
        end <= text.len(),
        is_char_boundary(text, end),
    ensures
        ({
            let part = bytes.take(n);
            let cut = n < bytes.len() || truncated;
            readable(part, cut) matches Some(short) && short.len() >= end && short =~= text.take(
                short.len() as int,
            ) && valid_utf8(short) && is_char_boundary(short, end)
        }),
{
    let part = bytes.take(n);
    let v = text.len() as int;
    lemma_readable_is_text(bytes, truncated);
    if n > v {
        let k = choose|k: int| breaks_off_at(bytes, k);
        assert(breaks_off_at(bytes, k));
        assert(text == bytes.take(k));
        let tail = bytes.skip(v);
        let rest = choose|rest: Seq<u8>|
            #[trigger] valid_first_scalar(tail + rest) && length_of_first_scalar(tail + rest)
                > tail.len();
        let short_tail = part.skip(v);
        let more = bytes.skip(n) + rest;
        assert(short_tail + more =~= tail + rest);
        assert(opens_character(short_tail));
        assert(part.take(v) =~= text);
        assert(breaks_off_at(part, v));
        lemma_readable_where_it_breaks_off(part, v);
        assert(text.take(v) =~= text);
    } else {
        assert(part =~= text.take(n));
        if is_char_boundary(text, n) {
            lemma_boundary_take(text, n, end);
        } else {
            is_char_boundary_start_end_of_seq(text);
            let k = floor_boundary(text, n);
            lemma_floor_boundary(text, n);
            lemma_cut_breaks_off(text, n);
            lemma_readable_where_it_breaks_off(part, k);
            assert(part.take(k) =~= text.take(k));
            lemma_boundary_take(text, k, end);
        }
    }
}

/// A shorter prefix of what was read, read with its length as the budget.
proof fn lemma_shorter_prefix(
    bytes: Seq<u8>,
    budget: int,
    truncated: bool,
    n: int,
    end: int,
)
    requires
        0 < budget,
        0 < bytes.len(),
        bounded_prefix(bytes, budget, truncated) is Some,
        0 < end <= n <= bytes.len(),
        end <= bounded_prefix(bytes, budget, truncated).unwrap().len(),
        is_char_boundary(bounded_prefix(bytes, budget, truncated).unwrap(), end),
    ensures
        bounded_prefix(bytes.take(n), end, n < bytes.len() || truncated) == Some(
            bounded_prefix(bytes, budget, truncated).unwrap().take(end),
        ),
{
    let whole = readable(bytes, truncated).unwrap();
    lemma_readable_is_text(bytes, truncated);
    let limit = smaller(whole.len() as int, budget);
    lemma_floor_boundary(whole, limit);
    let f = floor_boundary(whole, limit);
    let text = whole.take(f);
    lemma_boundary_take(whole, f, end);
    lemma_shorter_read(bytes, whole, truncated, n, end);
    let short = readable(bytes.take(n), n < bytes.len() || truncated).unwrap();
    assert(floor_boundary(short, end) == end);
    assert(short.take(end) =~= text.take(end));
}

/// What was indexed of a file can be read of it again, as long as it does not change:
/// to ask for the text up to the end of a chunk gives just that text.
pub proof fn lemma_read_again(file: Seq<u8>, budget: int, end: int)
    requires
        file.len() <= usize::MAX,
        0 <= budget,
        spec_read_plan(read_part(file, budget), file.len() as int, budget).content is Some,
        ({
            let text = spec_read_plan(
                read_part(file, budget),
                file.len() as int,
                budget,
            ).content.unwrap();
            0 < end <= text.len() && is_char_boundary(text, end)
        }),
    ensures
        ({
            let text = spec_read_plan(
                read_part(file, budget),
                file.len() as int,
                budget,
            ).content.unwrap();
            spec_read_plan(read_part(file, end), file.len() as int, end).content == Some(
                text.take(end),
            )
        }),
{
    let bytes = read_part(file, budget);
    let truncated = file.len() > bytes.len();
    let text = bounded_prefix(bytes, budget, truncated).unwrap();
    lemma_indexed_is_prefix(bytes, file.len() as int, budget);
    let part = read_part(file, end);
    let n = part.len() as int;
    assert(part =~= bytes.take(n));
    if looks_binary(part) {
        let i = choose|i: int|
            0 <= i < part.len() && i < CONTENT_PROBE_BYTES && #[trigger] part[i] == 0;
        assert(bytes[i] == 0);
    }
    assert((n < bytes.len() || truncated) == (file.len() > n));
    lemma_shorter_prefix(bytes, budget, truncated, n, end);
    assert(text.take(end).len() == end);
}

/// What can be read is text, and the start of the bytes.
proof fn lemma_readable_is_text(bytes: Seq<u8>, truncated: bool)
    requires
        readable(bytes, truncated) is Some,
    ensures
        valid_utf8(readable(bytes, truncated).unwrap()),
        readable(bytes, truncated).unwrap().len() <= bytes.len(),
        readable(bytes, truncated).unwrap() == bytes.take(
            readable(bytes, truncated).unwrap().len() as int,
        ),
{
    if valid_utf8(bytes) {
        assert(bytes.take(bytes.len() as int) =~= bytes);
    } else {
        let k = choose|k: int| breaks_off_at(bytes, k);
        assert(breaks_off_at(bytes, k));
    }
}

/// What is indexed is text, at the start of the file, and within the budget.
pub proof fn lemma_indexed_is_prefix(bytes: Seq<u8>, file_len: int, budget: int)
    requires
        budget >= 0,
    ensures
        match spec_read_plan(bytes, file_len, budget).content {
            Some(text) => {
                &&& valid_utf8(text)
                &&& 0 < text.len() <= budget
                &&& text.len() <= bytes.len()
                &&& text == bytes.take(text.len() as int)
            },
            None => spec_read_plan(bytes, file_len, budget).content_bytes_indexed == 0,
        },
{
    let truncated = file_len > bytes.len();
    if spec_read_plan(bytes, file_len, budget).content is Some {
        let whole = readable(bytes, truncated).unwrap();
        lemma_readable_is_text(bytes, truncated);
        let limit = smaller(whole.len() as int, budget);
        lemma_floor_boundary(whole, limit);
        let f = floor_boundary(whole, limit);
        lemma_boundary_take(whole, f, f);
        assert(whole.take(f) =~= bytes.take(f));
    }
}

/// What is text is indexed. Where a file is valid UTF-8 and no zero byte is among its first
/// 8192, what is indexed is its text up to the budget, less a last character that does not
/// fit: the longest such part. A file within the budget is indexed whole.
pub proof fn lemma_text_is_indexed(file: Seq<u8>, budget: int, end: int)
    requires
        valid_utf8(file),
        file.len() > 0,
        0 < budget,
        forall|i: int| 0 <= i < file.len() && i < 8192 ==> file[i] != 0,
        0 < end <= file.len(),
        end <= budget,
        is_char_boundary(file, end),
        forall|j: int| end < j <= file.len() && j <= budget ==> !is_char_boundary(file, j),
    ensures
        ({
            let plan = spec_read_plan(read_part(file, budget), file.len() as int, budget);
            &&& plan.content == Some(file.take(end))
            &&& plan.content_utf8
            &&& plan.content_bytes_indexed == end
            &&& plan.content_truncated == (end < file.len())
            &&& plan.content_byte_budget == budget
        }),
{
    let bytes = read_part(file, budget);
    let n = bytes.len() as int;
    let truncated = file.len() > n;
    assert(!looks_binary(bytes)) by {
        if looks_binary(bytes) {
            let i = choose|i: int|
                0 <= i < bytes.len() && i < CONTENT_PROBE_BYTES && #[trigger] bytes[i] == 0;
            assert(file[i] == 0);
        }
    }
    is_char_boundary_start_end_of_seq(file);
    lemma_floor_boundary(file, n);
    let k = floor_boundary(file, n);
    if is_char_boundary(file, n) {
        lemma_boundary_take(file, n, n);
        assert(readable(bytes, truncated) == Some(file.take(k)));
    } else {
        lemma_cut_breaks_off(file, n);
        lemma_readable_where_it_breaks_off(bytes, k);
        assert(bytes.take(k) =~= file.take(k));
    }
    let text = file.take(k);
    if k < end {
        assert(!is_char_boundary(file, end));
    }
    lemma_boundary_take(file, k, end);
    let limit = smaller(text.len() as int, budget);
    lemma_floor_boundary(text, limit);
    let f = floor_boundary(text, limit);
    lemma_boundary_take(file, k, f);
    if f < end {
        assert(!is_char_boundary(text, end));
    }
    if end < f {
        assert(!is_char_boundary(file, f));
    }
    assert(text.take(f) =~= file.take(end));
}

/// A file that is valid UTF-8, has no zero byte and fits into the budget is indexed with
/// all of its bytes.
pub proof fn lemma_whole_text_is_indexed(file: Seq<u8>, budget: int)
    requires
        valid_utf8(file),
        0 < file.len() <= budget,
        forall|i: int| 0 <= i < file.len() ==> file[i] != 0,
    ensures
        ({
            let plan = spec_read_plan(file, file.len() as int, budget);
            &&& plan.content == Some(file)
            &&& plan.content_utf8
            &&& !plan.content_truncated
            &&& plan.content_bytes_indexed == file.len()
        }),
{
    is_char_boundary_start_end_of_seq(file);
    lemma_text_is_indexed(file, budget, file.len() as int);
    assert(read_part(file, budget) =~= file);
    assert(file.take(file.len() as int) =~= file);
}

/// What is no text is not indexed: a file with a zero byte among the first 8192 that were
/// read, and one that was read whole and is not valid UTF-8.
pub proof fn lemma_binary_is_not_indexed(bytes: Seq<u8>, file_len: int, budget: int)
    requires
        0 < budget,
        0 < bytes.len() <= file_len,
        (exists|i: int| 0 <= i < bytes.len() && i < 8192 && #[trigger] bytes[i] == 0) || (
        bytes.len() == file_len && !valid_utf8(bytes)),
    ensures
        ({
            let plan = spec_read_plan(bytes, file_len, budget);
            &&& plan.content is None
            &&& !plan.content_utf8
            &&& plan.content_bytes_indexed == 0
            &&& plan.content_truncated == (bytes.len() < file_len)
        }),
{
}

/// Bytes that no text starts with are not indexed, though more of the file follows.
pub proof fn lemma_broken_text_is_not_indexed(bytes: Seq<u8>, file_len: int, budget: int)
    requires
        0 < budget,
        0 < bytes.len() < file_len,
        forall|rest: Seq<u8>| !valid_utf8(#[trigger] (bytes + rest)),
    ensures
        spec_read_plan(bytes, file_len, budget).content is None,
        !spec_read_plan(bytes, file_len, budget).content_utf8,
{
    if readable(bytes, true) is Some {
        if valid_utf8(bytes) {
            assert(bytes + Seq::<u8>::empty() =~= bytes);
            assert(valid_utf8(bytes + Seq::<u8>::empty()));
        } else {
            let k = choose|k: int| breaks_off_at(bytes, k);
            assert(breaks_off_at(bytes, k));
            let tail = bytes.skip(k);
            let rest = choose|rest: Seq<u8>|
                #[trigger] valid_first_scalar(tail + rest) && length_of_first_scalar(tail + rest)
                    > tail.len();
            let n = length_of_first_scalar(tail + rest) - tail.len();
            let short = rest.take(n as int);
            assert((tail + rest).take(tail.len() + n) =~= tail + short);
            lemma_first_scalar_alone(tail + rest);
            vstd::utf8::valid_utf8_concat(bytes.take(k), tail + short);
            assert(bytes + short =~= bytes.take(k) + (tail + short));
            assert(valid_utf8(bytes + short));
        }
    }
}

/// The first character of bytes is text by itself.
proof fn lemma_first_scalar_alone(bytes: Seq<u8>)
    requires
        valid_first_scalar(bytes),
        length_of_first_scalar(bytes) <= bytes.len(),
    ensures
        valid_utf8(bytes.take(length_of_first_scalar(bytes) as int)),
{
    let n = length_of_first_scalar(bytes) as int;
    let one = bytes.take(n);
    lemma_valid_scalar(bytes);
    lemma_valid_scalar(one);
    assert(one[0] == bytes[0]);
    if n >= 2 {
        assert(one[1] == bytes[1]);
    }
    if n >= 3 {
        assert(one[2] == bytes[2]);
    }
    if n >= 4 {
        assert(one[3] == bytes[3]);
    }
    assert(valid_first_scalar(one));
    assert(pop_first_scalar(one) =~= Seq::<u8>::empty());
    assert(valid_utf8(pop_first_scalar(one)));
}

impl ContentReadPlan {
    /// The plan for a file that could not be read: its name alone.
    pub fn filename_only() -> (plan: ContentReadPlan)
        ensures
            plan@ == (ReadPlan {
                content: None,
                content_utf8: false,
                content_truncated: false,
                content_bytes_indexed: 0,
                content_byte_budget: CONTENT_BYTE_BUDGET as int,
            }),
    {
        ContentReadPlan {
            content: None,
            content_utf8: false,
            content_truncated: false,
            content_bytes_indexed: 0,
            content_byte_budget: CONTENT_BYTE_BUDGET,
        }
    }
}

} // verus!
