//! Text as sequences of characters, and the few operations on it that the rest of
//! the library is stated over: trimming, comparison, decimal numbers.

use vstd::prelude::*;
use vstd::utf8::{encode_utf8, encode_utf8_decode_utf8};

verus! {

/// `String::push`: the character is appended to the end of the string.
pub assume_specification[ String::push ](s: &mut String, c: char)
    ensures
        final(s)@ == old(s)@.push(c),
;

/// The characters of `s`.
pub fn chars_of(s: &str) -> (chars: Vec<char>)
    ensures
        chars@ == s@,
{
    let mut chars: Vec<char> = Vec::new();
    for c in it: s.chars()
        invariant
            it.seq() == s@,
            chars@ =~= s@.take(it.index()),
    {
        chars.push(c);
    }
    chars
}

/// The string made of `chars`.
pub fn string_of(chars: &[char]) -> (s: String)
    ensures
        s@ == chars@,
{
    let mut s = String::new();
    let mut i: usize = 0;
    while i < chars.len()
        invariant
            i <= chars.len(),
            s@ =~= chars@.take(i as int),
        decreases chars.len() - i,
    {
        s.push(chars[i]);
        i = i + 1;
    }
    s
}

/// Whether two texts have the same characters.
pub fn same_text(a: &str, b: &str) -> (same: bool)
    ensures
        same == (a@ == b@),
{
    let x: &[u8] = a.as_bytes();
    let y: &[u8] = b.as_bytes();
    proof {
        encode_utf8_decode_utf8(a@);
        encode_utf8_decode_utf8(b@);
    }
    if x.len() != y.len() {
        return false;
    }
    let mut i: usize = 0;
    while i < x.len()
        invariant
            i <= x.len(),
            x.len() == y.len(),
            x@ == encode_utf8(a@),
            y@ == encode_utf8(b@),
            forall|j: int| 0 <= j < i ==> x@[j] == y@[j],
        decreases x.len() - i,
    {
        if x[i] != y[i] {
            return false;
        }
        i = i + 1;
    }
    proof {
        assert(x@ =~= y@);
    }
    true
}

/// The characters with the Unicode property `White_Space`.
pub open spec fn is_space(c: char) -> bool {
    ('\u{9}' <= c <= '\u{d}') || c == ' ' || c == '\u{85}' || c == '\u{a0}' || c == '\u{1680}' || (
    '\u{2000}' <= c <= '\u{200a}') || c == '\u{2028}' || c == '\u{2029}' || c == '\u{202f}' || c
        == '\u{205f}' || c == '\u{3000}'
}

/// Whether `c` is white space.
pub fn is_whitespace(c: char) -> (space: bool)
    ensures
        space == is_space(c),
{
    ('\u{9}' <= c && c <= '\u{d}') || c == ' ' || c == '\u{85}' || c == '\u{a0}' || c == '\u{1680}'
        || ('\u{2000}' <= c && c <= '\u{200a}') || c == '\u{2028}' || c == '\u{2029}' || c
        == '\u{202f}' || c == '\u{205f}' || c == '\u{3000}'
}

/// `s` without its leading white space.
pub open spec fn trim_start(s: Seq<char>) -> Seq<char>
    decreases s.len(),
{
    if s.len() > 0 && is_space(s[0]) {
        trim_start(s.skip(1))
    } else {
        s
    }
}

/// `s` without its trailing white space.
pub open spec fn trim_end(s: Seq<char>) -> Seq<char>
    decreases s.len(),
{
    if s.len() > 0 && is_space(s.last()) {
        trim_end(s.take(s.len() - 1))
    } else {
        s
    }
}

/// `s` without its leading and trailing white space.
pub open spec fn trimmed(s: Seq<char>) -> Seq<char> {
    trim_end(trim_start(s))
}

/// `s` without its leading and trailing white space.
pub fn trim(s: &[char]) -> (inner: &[char])
    ensures
        inner@ == trimmed(s@),
{
    let mut from: usize = 0;
    proof {
        assert(s@.skip(0) =~= s@);
    }
    while from < s.len() && is_whitespace(s[from])
        invariant
            from <= s.len(),
            trim_start(s@) == trim_start(s@.skip(from as int)),
        decreases s.len() - from,
    {
        proof {
            assert(s@.skip(from as int).skip(1) =~= s@.skip(from + 1));
        }
        from = from + 1;
    }
    let mut to: usize = s.len();
    proof {
        assert(trim_start(s@) =~= s@.subrange(from as int, to as int));
    }
    while to > from && is_whitespace(s[to - 1])
        invariant
            from <= to <= s.len(),
            trimmed(s@) == trim_end(s@.subrange(from as int, to as int)),
        decreases to,
    {
        proof {
            let part = s@.subrange(from as int, to as int);
            assert(part.take(part.len() - 1) =~= s@.subrange(from as int, to - 1));
        }
        to = to - 1;
    }
    vstd::slice::slice_subrange(s, from, to)
}

/// White space is one of these characters, given by their numbers: the tab and the four
/// controls after it, the space, the next line control, and the spaces and separators of
/// other scripts.
pub proof fn lemma_spaces(c: char)
    ensures
        is_space(c) <==> seq![
            0x9u32,
            0xa,
            0xb,
            0xc,
            0xd,
            0x20,
            0x85,
            0xa0,
            0x1680,
            0x2000,
            0x2001,
            0x2002,
            0x2003,
            0x2004,
            0x2005,
            0x2006,
            0x2007,
            0x2008,
            0x2009,
            0x200a,
            0x2028,
            0x2029,
            0x202f,
            0x205f,
            0x3000,
        ].contains(c as u32),
{
    let all = seq![
        0x9u32,
        0xa,
        0xb,
        0xc,
        0xd,
        0x20,
        0x85,
        0xa0,
        0x1680,
        0x2000,
        0x2001,
        0x2002,
        0x2003,
        0x2004,
        0x2005,
        0x2006,
        0x2007,
        0x2008,
        0x2009,
        0x200a,
        0x2028,
        0x2029,
        0x202f,
        0x205f,
        0x3000,
    ];
    let n = c as u32;
    assert(all[0] == 0x9 && all[1] == 0xa && all[2] == 0xb && all[3] == 0xc && all[4] == 0xd);
    assert(all[5] == 0x20 && all[6] == 0x85 && all[7] == 0xa0 && all[8] == 0x1680);
    assert(all[9] == 0x2000 && all[10] == 0x2001 && all[11] == 0x2002 && all[12] == 0x2003);
    assert(all[13] == 0x2004 && all[14] == 0x2005 && all[15] == 0x2006 && all[16] == 0x2007);
    assert(all[17] == 0x2008 && all[18] == 0x2009 && all[19] == 0x200a && all[20] == 0x2028);
    assert(all[21] == 0x2029 && all[22] == 0x202f && all[23] == 0x205f && all[24] == 0x3000);
    if is_space(c) {
        assert(all.contains(n));
    }
    if all.contains(n) {
        let i = choose|i: int| 0 <= i < all.len() && all[i] == n;
        assert(all[i] == n);
    }
}

/// What trimming leaves: the part from the first character that is no white space to the
/// last one. Where there is none, nothing is left.
pub proof fn lemma_trimmed(s: Seq<char>) -> (range: (int, int))
    ensures
        0 <= range.0 <= range.1 <= s.len(),
        trimmed(s) == s.subrange(range.0, range.1),
        forall|i: int| 0 <= i < range.0 ==> is_space(#[trigger] s[i]),
        forall|i: int| range.1 <= i < s.len() ==> is_space(#[trigger] s[i]),
        range.0 < range.1 ==> !is_space(s[range.0]) && !is_space(s[range.1 - 1]),
        range.0 == range.1 ==> forall|i: int| 0 <= i < s.len() ==> is_space(#[trigger] s[i]),
{
    let a = lemma_trim_start(s);
    let inner = trim_start(s);
    let n = lemma_trim_end(inner);
    let b = a + n;
    assert(trimmed(s) =~= s.subrange(a, b));
    assert forall|i: int| b <= i < s.len() implies is_space(#[trigger] s[i]) by {
        assert(inner[i - a] == s[i]);
    }
    if a < b {
        assert(inner[0] == s[a]);
        assert(inner[n - 1] == s[b - 1]);
    }
    (a, b)
}

/// A part with white space around it, and none at its own ends, is what trimming leaves.
pub proof fn lemma_trimmed_is(s: Seq<char>, a: int, b: int)
    requires
        0 <= a < b <= s.len(),
        forall|i: int| 0 <= i < a ==> is_space(#[trigger] s[i]),
        forall|i: int| b <= i < s.len() ==> is_space(#[trigger] s[i]),
        !is_space(s[a]),
        !is_space(s[b - 1]),
    ensures
        trimmed(s) == s.subrange(a, b),
{
    let (x, y) = lemma_trimmed(s);
    if x == y {
        assert(is_space(s[a]));
    }
    if x < a {
        assert(is_space(s[x]));
    }
    if a < x {
        assert(is_space(s[a]));
    }
    if y < b {
        assert(is_space(s[b - 1]));
    }
    if b < y {
        assert(is_space(s[y - 1]));
    }
}

proof fn lemma_trim_start(s: Seq<char>) -> (a: int)
    ensures
        0 <= a <= s.len(),
        trim_start(s) == s.skip(a),
        forall|i: int| 0 <= i < a ==> is_space(#[trigger] s[i]),
        a < s.len() ==> !is_space(s[a]),
    decreases s.len(),
{
    if s.len() > 0 && is_space(s[0]) {
        let rest = s.skip(1);
        let a = lemma_trim_start(rest);
        assert(rest.skip(a) =~= s.skip(a + 1));
        assert forall|i: int| 0 <= i < a + 1 implies is_space(#[trigger] s[i]) by {
            if i > 0 {
                assert(rest[i - 1] == s[i]);
            }
        }
        a + 1
    } else {
        assert(s.skip(0) =~= s);
        0
    }
}

proof fn lemma_trim_end(s: Seq<char>) -> (n: int)
    ensures
        0 <= n <= s.len(),
        trim_end(s) == s.take(n),
        forall|i: int| n <= i < s.len() ==> is_space(#[trigger] s[i]),
        n > 0 ==> !is_space(s[n - 1]),
    decreases s.len(),
{
    if s.len() > 0 && is_space(s.last()) {
        let head = s.take(s.len() - 1);
        let n = lemma_trim_end(head);
        assert(head.take(n) =~= s.take(n));
        assert forall|i: int| n <= i < s.len() implies is_space(#[trigger] s[i]) by {
            if i < s.len() - 1 {
                assert(head[i] == s[i]);
            }
        }
        n
    } else {
        assert(s.take(s.len() as int) =~= s);
        s.len() as int
    }
}

/// The number of bytes of the UTF-8 encoding of `c`.
pub open spec fn spec_width(c: char) -> nat {
    let n = c as u32;
    if n <= 0x7f {
        1
    } else if n <= 0x7ff {
        2
    } else if n <= 0xffff {
        3
    } else {
        4
    }
}

/// The number of bytes of the UTF-8 encoding of `c`.
pub fn width(c: char) -> (bytes: usize)
    ensures
        bytes == spec_width(c),
        encode_utf8(seq![c]).len() == bytes,
{
    proof {
        lemma_width(c);
    }
    let n: u32 = c as u32;
    if n <= 0x7f {
        1
    } else if n <= 0x7ff {
        2
    } else if n <= 0xffff {
        3
    } else {
        4
    }
}

/// One character takes `spec_width` bytes.
pub proof fn lemma_width(c: char)
    ensures
        encode_utf8(seq![c]).len() == spec_width(c),
{
    reveal_with_fuel(encode_utf8, 2);
    assert(seq![c].drop_first() =~= Seq::<char>::empty());
    vstd::utf8::char_is_scalar(c);
}

/// The encoding of a concatenation is the concatenation of the encodings.
pub proof fn lemma_encode_concat(a: Seq<char>, b: Seq<char>)
    ensures
        encode_utf8(a + b) == encode_utf8(a) + encode_utf8(b),
    decreases a.len(),
{
    if a.len() == 0 {
        assert(a + b =~= b);
        assert(encode_utf8(a) + encode_utf8(b) =~= encode_utf8(b));
    } else {
        assert((a + b).drop_first() =~= a.drop_first() + b);
        lemma_encode_concat(a.drop_first(), b);
        assert(encode_utf8(a + b) =~= encode_utf8(a) + encode_utf8(b));
    }
}

/// The number of bytes before the character at `i`.
pub open spec fn byte_offset(s: Seq<char>, i: int) -> nat {
    encode_utf8(s.take(i)).len()
}

/// The digit for `d`, which is below 10.
pub open spec fn digit(d: nat) -> char {
    (48 + d) as u8 as char
}

/// `n` in decimal, without leading zeros.
pub open spec fn decimal(n: nat) -> Seq<char>
    decreases n,
{
    if n < 10 {
        seq![digit(n)]
    } else {
        decimal(n / 10).push(digit(n % 10))
    }
}

/// `n` in decimal, with a minus sign if it is negative.
pub open spec fn signed_decimal(n: int) -> Seq<char> {
    if n < 0 {
        seq!['-'] + decimal((-n) as nat)
    } else {
        decimal(n as nat)
    }
}

/// Appends `n` in decimal.
pub fn push_decimal(s: &mut String, n: u64)
    ensures
        final(s)@ == old(s)@ + decimal(n as nat),
    decreases n,
{
    if n >= 10 {
        push_decimal(s, n / 10);
    }
    let d: u8 = 48 + (n % 10) as u8;
    s.push(d as char);
    proof {
        assert(s@ =~= old(s)@ + decimal(n as nat));
    }
}

/// `n` in decimal.
pub fn decimal_of(n: u64) -> (s: String)
    ensures
        s@ == decimal(n as nat),
{
    let mut s = String::new();
    push_decimal(&mut s, n);
    proof {
        assert(s@ =~= decimal(n as nat));
    }
    s
}

/// `n` in decimal.
pub fn signed_decimal_of(n: i64) -> (s: String)
    ensures
        s@ == signed_decimal(n as int),
{
    let mut s = String::new();
    if n < 0 {
        s.push('-');
        let magnitude: u64 = (-(n as i128)) as u64;
        push_decimal(&mut s, magnitude);
        proof {
            assert(s@ =~= signed_decimal(n as int));
        }
    } else {
        push_decimal(&mut s, n as u64);
        proof {
            assert(s@ =~= signed_decimal(n as int));
        }
    }
    s
}

/// The decimal form of a number determines it, and is made of digits.
pub proof fn lemma_decimal_injective(a: nat, b: nat)
    ensures
        decimal(a) == decimal(b) ==> a == b,
        decimal(a).len() > 0,
        forall|i: int| 0 <= i < decimal(a).len() ==> '0' <= #[trigger] decimal(a)[i] <= '9',
    decreases a,
{
    assert forall|d: nat, e: nat| d < 10 && e < 10 && digit(d) == digit(e) implies d == e by {
        assert((48 + d) as u8 as char as u32 == 48 + d);
        assert((48 + e) as u8 as char as u32 == 48 + e);
    }
    assert forall|d: nat| d < 10 implies '0' <= #[trigger] digit(d) <= '9' by {
        assert((48 + d) as u8 as char as u32 == 48 + d);
    }
    if a >= 10 {
        lemma_decimal_injective(a / 10, b / 10);
        lemma_decimal_injective((a / 10) as nat, 0);
    }
    if b >= 10 {
        lemma_decimal_nonempty(b / 10);
    }
    if decimal(a) == decimal(b) {
        assert(decimal(a).last() == decimal(b).last());
        if a >= 10 && b >= 10 {
            assert(decimal(a).drop_last() =~= decimal(a / 10));
            assert(decimal(b).drop_last() =~= decimal(b / 10));
        } else if a >= 10 {
            assert(decimal(b).len() == 1);
            assert(decimal(a).len() == decimal(a / 10).len() + 1);
        } else if b >= 10 {
            assert(decimal(b).len() == decimal(b / 10).len() + 1);
        }
    }
}

proof fn lemma_decimal_nonempty(a: nat)
    ensures
        decimal(a).len() > 0,
{
}

/// The signed decimal form of a number determines it, and is made of digits, after a
/// minus sign if need be.
pub proof fn lemma_signed_decimal_injective(a: int, b: int)
    ensures
        signed_decimal(a) == signed_decimal(b) ==> a == b,
        signed_decimal(a).len() > 0,
        forall|i: int|
            0 <= i < signed_decimal(a).len() ==> '0' <= #[trigger] signed_decimal(a)[i] <= '9'
                || signed_decimal(a)[i] == '-',
{
    let m = if a < 0 {
        -a
    } else {
        a
    };
    let n = if b < 0 {
        -b
    } else {
        b
    };
    lemma_decimal_injective(m as nat, n as nat);
    lemma_decimal_injective(n as nat, m as nat);
    if signed_decimal(a) == signed_decimal(b) {
        assert(signed_decimal(a)[0] == signed_decimal(b)[0]);
        if a < 0 && b < 0 {
            assert(signed_decimal(a).skip(1) =~= decimal(m as nat));
            assert(signed_decimal(b).skip(1) =~= decimal(n as nat));
        } else if a < 0 {
            assert('0' <= decimal(n as nat)[0]);
        } else if b < 0 {
            assert('0' <= decimal(m as nat)[0]);
        }
    }
}

/// The length of the longest common prefix of two texts.
pub open spec fn common_prefix(a: Seq<char>, b: Seq<char>) -> nat
    decreases a.len(),
{
    if a.len() == 0 || b.len() == 0 || a[0] != b[0] {
        0
    } else {
        1 + common_prefix(a.skip(1), b.skip(1))
    }
}

/// The order of texts by the first character in which they differ; a prefix comes
/// first.
pub open spec fn text_less(a: Seq<char>, b: Seq<char>) -> bool {
    let n = common_prefix(a, b) as int;
    n < b.len() && (n == a.len() || a[n] < b[n])
}

/// Whether `a` comes before `b`.
pub fn less_text(a: &str, b: &str) -> (less: bool)
    ensures
        less == text_less(a@, b@),
{
    let x: Vec<char> = chars_of(a);
    let y: Vec<char> = chars_of(b);
    let mut i: usize = 0;
    proof {
        assert(a@.skip(0) =~= a@);
        assert(b@.skip(0) =~= b@);
    }
    while i < x.len() && i < y.len() && x[i] == y[i]
        invariant
            x@ == a@,
            y@ == b@,
            i <= x.len(),
            i <= y.len(),
            common_prefix(a@, b@) == i + common_prefix(a@.skip(i as int), b@.skip(i as int)),
        decreases x.len() - i,
    {
        proof {
            assert(a@.skip(i as int).skip(1) =~= a@.skip(i + 1));
            assert(b@.skip(i as int).skip(1) =~= b@.skip(i + 1));
        }
        i = i + 1;
    }
    i < y.len() && (i == x.len() || x[i] < y[i])
}

/// The common prefix is common, and what follows it differs.
pub proof fn lemma_common_prefix(a: Seq<char>, b: Seq<char>)
    ensures
        common_prefix(a, b) <= a.len(),
        common_prefix(a, b) <= b.len(),
        forall|i: int| 0 <= i < common_prefix(a, b) ==> a[i] == b[i],
        common_prefix(a, b) < a.len() && common_prefix(a, b) < b.len()
            ==> a[common_prefix(a, b) as int] != b[common_prefix(a, b) as int],
    decreases a.len(),
{
    if !(a.len() == 0 || b.len() == 0 || a[0] != b[0]) {
        lemma_common_prefix(a.skip(1), b.skip(1));
        assert forall|i: int| 0 <= i < common_prefix(a, b) implies a[i] == b[i] by {
            if i > 0 {
                assert(a[i] == a.skip(1)[i - 1]);
                assert(b[i] == b.skip(1)[i - 1]);
            }
        }
    }
}

/// Where two texts first differ decides their order.
pub proof fn lemma_text_less(a: Seq<char>, b: Seq<char>, n: int)
    requires
        0 <= n <= a.len(),
        n < b.len(),
        forall|i: int| 0 <= i < n ==> a[i] == b[i],
        n == a.len() || a[n] < b[n],
    ensures
        text_less(a, b),
{
    lemma_common_prefix(a, b);
    let m = common_prefix(a, b) as int;
    if m < n {
        assert(a[m] == b[m]);
    }
    if n < m {
        assert(a[n] == b[n]);
    }
}

/// The order is total, and no text comes before itself.
pub proof fn lemma_text_order_total(a: Seq<char>, b: Seq<char>)
    ensures
        text_less(a, b) || text_less(b, a) || a == b,
        !(text_less(a, b) && text_less(b, a)),
        !text_less(a, a),
{
    lemma_common_prefix(a, b);
    lemma_common_prefix(b, a);
    lemma_common_prefix(a, a);
    let n = common_prefix(a, b) as int;
    let m = common_prefix(b, a) as int;
    if m < n {
        assert(a[m] == b[m]);
    }
    if n < m {
        assert(a[n] == b[n]);
    }
    if n == a.len() && n == b.len() {
        assert(a =~= b);
    }
}

/// The order is transitive.
pub proof fn lemma_text_order_transitive(a: Seq<char>, b: Seq<char>, c: Seq<char>)
    requires
        text_less(a, b),
        text_less(b, c),
    ensures
        text_less(a, c),
{
    lemma_common_prefix(a, b);
    lemma_common_prefix(b, c);
    let n = common_prefix(a, b) as int;
    let m = common_prefix(b, c) as int;
    let k = if n < m {
        n
    } else {
        m
    };
    assert forall|i: int| 0 <= i < k implies a[i] == c[i] by {
        assert(a[i] == b[i]);
        assert(b[i] == c[i]);
    }
    if n < m {
        assert(b[n] == c[n]);
    } else if m < n {
        assert(a[m] == b[m]);
    }
    lemma_text_less(a, c, k);
}

/// Whether `needle` occurs in `text`.
pub open spec fn contains_text(text: Seq<char>, needle: Seq<char>) -> bool {
    exists|i: int|
        0 <= i <= text.len() - needle.len() && #[trigger] text.subrange(i, i + needle.len())
            == needle
}

/// Whether `needle` occurs in `text`.
pub fn contains_chars(text: &[char], needle: &[char]) -> (found: bool)
    ensures
        found == contains_text(text@, needle@),
{
    if needle.len() > text.len() {
        return false;
    }
    let mut i: usize = 0;
    while i <= text.len() - needle.len()
        invariant
            needle.len() <= text.len(),
            i <= text.len() - needle.len() + 1,
            forall|j: int|
                0 <= j < i ==> #[trigger] text@.subrange(j, j + needle@.len()) != needle@,
        decreases text.len() - needle.len() + 1 - i,
    {
        let mut k: usize = 0;
        while k < needle.len() && text[i + k] == needle[k]
            invariant
                i + needle.len() <= text.len(),
                k <= needle.len(),
                forall|j: int| 0 <= j < k ==> text@[i + j] == needle@[j],
            decreases needle.len() - k,
        {
            k = k + 1;
        }
        if k == needle.len() {
            proof {
                assert(text@.subrange(i as int, i + needle@.len()) =~= needle@);
            }
            return true;
        }
        proof {
            assert(text@.subrange(i as int, i + needle@.len())[k as int] != needle@[k as int]);
        }
        if i == text.len() - needle.len() {
            proof {
                assert forall|j: int| 0 <= j <= text@.len() - needle@.len() implies (
                #[trigger] text@.subrange(j, j + needle@.len())) != needle@ by {}
            }
            return false;
        }
        i = i + 1;
    }
    false
}

/// Numbers in decimal: the ten digits stand for the numbers below ten, and one more digit
/// behind a number is ten times that number and the digit.
pub proof fn lemma_decimal(n: nat, d: nat)
    requires
        n > 0,
        d < 10,
    ensures
        decimal(0) == seq!['0'],
        decimal(1) == seq!['1'],
        decimal(2) == seq!['2'],
        decimal(3) == seq!['3'],
        decimal(4) == seq!['4'],
        decimal(5) == seq!['5'],
        decimal(6) == seq!['6'],
        decimal(7) == seq!['7'],
        decimal(8) == seq!['8'],
        decimal(9) == seq!['9'],
        decimal(10 * n + d) == decimal(n) + decimal(d),
{
    assert((10 * n + d) / 10 == n);
    assert((10 * n + d) % 10 == d);
    assert(decimal(10 * n + d) =~= decimal(n) + decimal(d));
}

} // verus!
