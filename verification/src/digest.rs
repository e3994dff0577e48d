//! Fingerprinting of the reassembled payload: a SHA-256 digest, reported
//! as lower-case hex. The digest primitive is an external black box; the
//! hex rendering and the reassembly around it are verified.

use vstd::prelude::*;

use sha2::Digest;

verus! {

/// The SHA-256 digest of a byte sequence: a function of the bytes alone,
/// named but not defined here — the primitive is a black box.
pub uninterp spec fn sha256_of(data: Seq<u8>) -> Seq<u8>;

/// Relies on sha2's `Sha256`: a SHA-256 digest is 32 bytes and depends on
/// the input bytes alone.
#[verifier::external_body]
fn sha256_digest(data: &[u8]) -> (r: Vec<u8>)
    ensures
        r@ == sha256_of(data@),
        r@.len() == 32,
{
    sha2::Sha256::digest(data).to_vec()
}

/// Relies on std's `String::push`: it appends the given character.
#[verifier::external_body]
fn push_char(s: &mut String, c: char)
    ensures
        final(s)@ == old(s)@ + seq![c],
{
    s.push(c);
}

/// The lower-case hex digit of a nibble.
pub open spec fn hex_digit(d: int) -> char {
    seq!['0', '1', '2', '3', '4', '5', '6', '7', '8', '9', 'a', 'b', 'c', 'd', 'e', 'f'][d]
}

/// A byte sequence rendered as lower-case hex, two digits per byte.
pub open spec fn hex_of(data: Seq<u8>) -> Seq<char>
    decreases data.len(),
{
    if data.len() == 0 {
        Seq::empty()
    } else {
        hex_of(data.drop_last()).push(hex_digit(data.last() as int / 16)).push(
            hex_digit(data.last() as int % 16),
        )
    }
}

/// The lower-case hex digit character of a nibble.
fn hex_digit_char(d: u8) -> (c: char)
    requires
        d < 16,
    ensures
        c == hex_digit(d as int),
{
    match d {
        0 => '0',
        1 => '1',
        2 => '2',
        3 => '3',
        4 => '4',
        5 => '5',
        6 => '6',
        7 => '7',
        8 => '8',
        9 => '9',
        10 => 'a',
        11 => 'b',
        12 => 'c',
        13 => 'd',
        14 => 'e',
        _ => 'f',
    }
}

/// Render a byte sequence as lower-case hex, two digits per byte.
fn to_hex(data: &[u8]) -> (r: String)
    ensures
        r@ == hex_of(data@),
{
    let n = data.len();
    let mut r = String::new();
    let mut i: usize = 0;
    while i < n
        invariant
            0 <= i <= n,
            n == data@.len(),
            r@ == hex_of(data@.take(i as int)),
        decreases n - i,
    {
        let b = data[i];
        let hi = b / 16;
        let lo = b % 16;
        push_char(&mut r, hex_digit_char(hi));
        push_char(&mut r, hex_digit_char(lo));
        proof {
            assert(data@.take(i + 1).drop_last() =~= data@.take(i as int));
            assert(data@.take(i + 1).last() == data@[i as int]);
            assert(r@ == hex_of(data@.take(i + 1)));
        }
        i = i + 1;
    }
    proof {
        assert(data@.take(n as int) =~= data@);
    }
    r
}

/// The fingerprint of a payload: its SHA-256 digest as 64 lower-case hex
/// characters. Deterministic: a pure function of the buffer's bytes.
pub fn calculate_hash(data: &[u8]) -> (r: String)
    ensures
        r@ == hex_of(sha256_of(data@)),
        r@.len() == 64,
{
    let digest = sha256_digest(data);
    proof {
        lemma_hex_of_len(sha256_of(data@));
    }
    to_hex(digest.as_slice())
}

/// Hex rendering yields two characters per byte.
proof fn lemma_hex_of_len(data: Seq<u8>)
    ensures
        hex_of(data).len() == 2 * data.len(),
    decreases data.len(),
{
    if data.len() > 0 {
        lemma_hex_of_len(data.drop_last());
    }
}

/// The concatenation of a sequence of chunks, in order.
pub open spec fn concat_of(chunks: Seq<Seq<u8>>) -> Seq<u8>
    decreases chunks.len(),
{
    if chunks.len() == 0 {
        Seq::empty()
    } else {
        concat_of(chunks.drop_last()) + chunks.last()
    }
}

/// Append a sequence of chunks into one contiguous buffer, in order.
pub fn reassemble(chunks: &Vec<Vec<u8>>) -> (r: Vec<u8>)
    ensures
        r@ == concat_of(Seq::new(chunks@.len(), |i: int| chunks@[i]@)),
{
    let ghost views = Seq::new(chunks@.len(), |i: int| chunks@[i]@);
    let n = chunks.len();
    let mut r: Vec<u8> = Vec::new();
    let mut i: usize = 0;
    while i < n
        invariant
            0 <= i <= n,
            n == chunks@.len(),
            views == Seq::new(chunks@.len(), |i: int| chunks@[i]@),
            r@ == concat_of(views.take(i as int)),
        decreases n - i,
    {
        r.extend_from_slice(chunks[i].as_slice());
        proof {
            assert(views.take(i + 1).drop_last() =~= views.take(i as int));
            assert(views.take(i + 1).last() == chunks@[i as int]@);
        }
        i = i + 1;
    }
    proof {
        assert(views.take(n as int) =~= views);
    }
    r
}

/// Reassembly preserves the fingerprint: a buffer equal to the in-order
/// concatenation of its chunks has exactly the fingerprint of those bytes
/// hashed as one contiguous buffer, however many chunks there were.
pub proof fn lemma_fingerprint_of_reassembly(chunks: Seq<Seq<u8>>, whole: Seq<u8>)
    requires
        whole == concat_of(chunks),
    ensures
        hex_of(sha256_of(whole)) == hex_of(sha256_of(concat_of(chunks))),
{
}

} // verus!
