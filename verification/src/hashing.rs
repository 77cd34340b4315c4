//! Hashes of files, as text.

use crate::json::hex_digit;
use sha2::Digest;
use vstd::prelude::*;

verus! {

/// The SHA-256 hasher of the `sha2` crate.
#[verifier::external_type_specification]
#[verifier::external_body]
pub struct ExSha256(sha2::Sha256);

/// The bytes that a hasher has been given, one piece after another.
pub uninterp spec fn absorbed(hasher: sha2::Sha256) -> Seq<u8>;

/// The SHA-256 digest of `bytes`.
pub uninterp spec fn sha256_digest(bytes: Seq<u8>) -> Seq<u8>;

/// `sha2::Sha256::new`: a hasher that has been given nothing.
#[verifier::external_body]
fn new_hasher() -> (hasher: sha2::Sha256)
    ensures
        absorbed(hasher) == Seq::<u8>::empty(),
{
    sha2::Sha256::new()
}

/// `sha2::Sha256::update`: the hasher is given one more piece.
#[verifier::external_body]
fn absorb(hasher: &mut sha2::Sha256, bytes: &[u8])
    ensures
        absorbed(*final(hasher)) == absorbed(*old(hasher)) + bytes@,
{
    hasher.update(bytes);
}

/// `sha2::Sha256::finalize`: the digest, of 32 bytes, of all that the hasher was given.
#[verifier::external_body]
fn finish(hasher: sha2::Sha256) -> (digest: Vec<u8>)
    ensures
        digest@ == sha256_digest(absorbed(hasher)),
        digest@.len() == 32,
{
    hasher.finalize().to_vec()
}

/// Bytes in hexadecimal, two digits in lower case for each.
pub open spec fn hex_text(bytes: Seq<u8>) -> Seq<char>
    decreases bytes.len(),
{
    if bytes.len() == 0 {
        seq![]
    } else {
        let last = bytes.last() as nat;
        hex_text(bytes.drop_last()).push(hex_digit(last / 16)).push(hex_digit(last % 16))
    }
}

fn hex_char(d: u8) -> (c: char)
    requires
        d < 16,
    ensures
        c == hex_digit(d as nat),
{
    if d < 10 {
        (48 + d) as char
    } else {
        (87 + d) as char
    }
}

/// `digest` in hexadecimal.
pub fn hex_digest(digest: &[u8]) -> (text: String)
    ensures
        text@ == hex_text(digest@),
{
    let mut text = String::new();
    let mut i: usize = 0;
    while i < digest.len()
        invariant
            i <= digest.len(),
            text@ == hex_text(digest@.take(i as int)),
        decreases digest.len() - i,
    {
        let byte: u8 = digest[i];
        text.push(hex_char(byte / 16));
        text.push(hex_char(byte % 16));
        proof {
            assert(digest@.take(i + 1).drop_last() =~= digest@.take(i as int));
        }
        i = i + 1;
    }
    proof {
        assert(digest@.take(i as int) =~= digest@);
    }
    text
}

/// Hashes a file piece by piece.
pub struct FileHasher {
    hasher: sha2::Sha256,
}

impl View for FileHasher {
    type V = Seq<u8>;

    /// The bytes of the file so far.
    closed spec fn view(&self) -> Seq<u8> {
        absorbed(self.hasher)
    }
}

impl FileHasher {
    /// Starts a file.
    pub fn new() -> (hasher: FileHasher)
        ensures
            hasher@ == Seq::<u8>::empty(),
    {
        FileHasher { hasher: new_hasher() }
    }

    /// Goes on with the next bytes of the file.
    pub fn update(&mut self, bytes: &[u8])
        ensures
            final(self)@ == old(self)@ + bytes@,
    {
        absorb(&mut self.hasher, bytes);
    }

    /// Ends the file: the digest of its bytes, in hexadecimal.
    pub fn finish(self) -> (hash: String)
        ensures
            hash@ == hex_text(sha256_digest(self@)),
            hash@.len() == 64,
    {
        let digest: Vec<u8> = finish(self.hasher);
        proof {
            lemma_hex_text_len(digest@);
        }
        hex_digest(digest.as_slice())
    }
}

/// Two digits for each byte.
pub proof fn lemma_hex_text_len(bytes: Seq<u8>)
    ensures
        hex_text(bytes).len() == 2 * bytes.len(),
    decreases bytes.len(),
{
    if bytes.len() > 0 {
        lemma_hex_text_len(bytes.drop_last());
    }
}

/// The digest of `bytes`, in hexadecimal.
pub fn hash_bytes(bytes: &[u8]) -> (hash: String)
    ensures
        hash@ == hex_text(sha256_digest(bytes@)),
        hash@.len() == 64,
{
    let mut hasher = FileHasher::new();
    hasher.update(bytes);
    proof {
        assert(Seq::<u8>::empty() + bytes@ =~= bytes@);
    }
    hasher.finish()
}

/// Different bytes are written differently, so a hash in text stands for one digest.
pub proof fn lemma_hex_text_injective(a: Seq<u8>, b: Seq<u8>)
    requires
        hex_text(a) == hex_text(b),
    ensures
        a == b,
    decreases a.len(),
{
    lemma_hex_text_len(a);
    lemma_hex_text_len(b);
    if a.len() > 0 {
        let x = hex_text(a);
        let n = x.len() as int;
        let p = a.last() as nat;
        let q = b.last() as nat;
        assert(x[n - 1] == hex_digit(p % 16));
        assert(x[n - 1] == hex_digit(q % 16));
        assert(x[n - 2] == hex_digit(p / 16));
        assert(x[n - 2] == hex_digit(q / 16));
        lemma_hex_digit_injective(p % 16, q % 16);
        lemma_hex_digit_injective(p / 16, q / 16);
        assert(hex_text(a).take(n - 2) =~= hex_text(a.drop_last()));
        assert(hex_text(b).take(n - 2) =~= hex_text(b.drop_last()));
        lemma_hex_text_injective(a.drop_last(), b.drop_last());
        assert(a.drop_last().push(a.last()) =~= a);
        assert(b.drop_last().push(b.last()) =~= b);
    } else {
        assert(a =~= b);
    }
}

proof fn lemma_hex_digit_injective(d: nat, e: nat)
    requires
        d < 16,
        e < 16,
        hex_digit(d) == hex_digit(e),
    ensures
        d == e,
{
    assert((48 + d) as u8 as char as u32 == 48 + d);
    assert((48 + e) as u8 as char as u32 == 48 + e);
    assert((87 + d) as u8 as char as u32 == 87 + d);
    assert((87 + e) as u8 as char as u32 == 87 + e);
}

/// Bytes in hexadecimal, byte by byte: the digit of its sixteens, then that of its ones.
pub proof fn lemma_hex_digits(bytes: Seq<u8>, i: int)
    requires
        0 <= i < bytes.len(),
    ensures
        ({
            let digits = seq!['0', '1', '2', '3', '4', '5', '6', '7', '8', '9', 'a', 'b', 'c', 'd', 'e', 'f'];
            &&& hex_text(bytes).len() == 2 * bytes.len()
            &&& hex_text(bytes)[2 * i] == digits[bytes[i] as int / 16]
            &&& hex_text(bytes)[2 * i + 1] == digits[bytes[i] as int % 16]
        }),
    decreases bytes.len(),
{
    lemma_hex_text_len(bytes);
    lemma_hex_text_len(bytes.drop_last());
    let head = hex_text(bytes.drop_last());
    let all = hex_text(bytes);
    if i < bytes.len() - 1 {
        lemma_hex_digits(bytes.drop_last(), i);
        assert(all[2 * i] == head[2 * i]);
        assert(all[2 * i + 1] == head[2 * i + 1]);
    } else {
        let b = bytes.last() as nat;
        assert(all[2 * i] == hex_digit(b / 16));
        assert(all[2 * i + 1] == hex_digit(b % 16));
        lemma_hex_digit(b / 16);
        lemma_hex_digit(b % 16);
    }
}

proof fn lemma_hex_digit(d: nat)
    requires
        d < 16,
    ensures
        hex_digit(d) == seq!['0', '1', '2', '3', '4', '5', '6', '7', '8', '9', 'a', 'b', 'c', 'd', 'e', 'f'][d as int],
{
    let digits = seq!['0', '1', '2', '3', '4', '5', '6', '7', '8', '9', 'a', 'b', 'c', 'd', 'e', 'f'];
    assert((48 + d) as u8 as char as u32 == 48 + d);
    assert((87 + d) as u8 as char as u32 == 87 + d);
    if d == 0 {
        assert(digits[0] == '0');
    }
    if d == 1 {
        assert(digits[1] == '1');
    }
    if d == 2 {
        assert(digits[2] == '2');
    }
    if d == 3 {
        assert(digits[3] == '3');
    }
    if d == 4 {
        assert(digits[4] == '4');
    }
    if d == 5 {
        assert(digits[5] == '5');
    }
    if d == 6 {
        assert(digits[6] == '6');
    }
    if d == 7 {
        assert(digits[7] == '7');
    }
    if d == 8 {
        assert(digits[8] == '8');
    }
    if d == 9 {
        assert(digits[9] == '9');
    }
    if d == 10 {
        assert(digits[10] == 'a');
    }
    if d == 11 {
        assert(digits[11] == 'b');
    }
    if d == 12 {
        assert(digits[12] == 'c');
    }
    if d == 13 {
        assert(digits[13] == 'd');
    }
    if d == 14 {
        assert(digits[14] == 'e');
    }
    if d == 15 {
        assert(digits[15] == 'f');
    }
}

} // verus!
