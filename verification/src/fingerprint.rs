//! Content fingerprints: by them a file is known again wherever it turns up.
use crate::text::{digit_char, digit_of, lemma_digits_differ};
use vstd::prelude::*;

verus! {

/// How many bytes from the middle of a file go into its fingerprint, at most.
pub const SAMPLE_SIZE: u64 = 262144;

/// What a file is known by: a digest of its size and of a sample of its bytes.
#[derive(Debug)]
pub struct FileFingerprint {
    pub hash: String,
    pub size_bytes: u64,
}

/// The SHA-256 digest of some bytes.
pub uninterp spec fn sha256_digest(data: Seq<u8>) -> Seq<u8>;

/// `sha2::Sha256::digest` hashes the bytes with SHA-256, which gives 32 bytes. Of their values
/// nothing is said but that they depend on the bytes alone.
#[verifier::external_body]
fn sha256(data: &[u8]) -> (r: Vec<u8>)
    ensures
        r@ == sha256_digest(data@),
        r@.len() == 32,
{
    <sha2::Sha256 as sha2::Digest>::digest(data).to_vec()
}

/// A number as `n` bytes, the lowest first.
pub open spec fn le_bytes(value: nat, n: nat) -> Seq<u8>
    decreases n,
{
    if n == 0 {
        Seq::empty()
    } else {
        seq![(value % 256) as u8] + le_bytes(value / 256, (n - 1) as nat)
    }
}

/// Bytes in hexadecimal, two small digits for each.
pub open spec fn hex(data: Seq<u8>) -> Seq<char>
    decreases data.len(),
{
    if data.len() == 0 {
        Seq::empty()
    } else {
        hex(data.drop_last()).push(digit_char(data.last() as nat / 16)).push(
            digit_char(data.last() as nat % 16),
        )
    }
}

/// How many bytes of a file of the given size are sampled.
pub open spec fn sample_len(size: nat) -> nat {
    if size < SAMPLE_SIZE {
        size
    } else {
        SAMPLE_SIZE as nat
    }
}

/// Where in a file of the given size the sample begins.
pub open spec fn sample_start(size: nat) -> nat {
    if size / 2 >= sample_len(size) / 2 {
        (size / 2 - sample_len(size) / 2) as nat
    } else {
        0
    }
}

/// The bytes that are sampled from a file.
pub open spec fn sample_of(contents: Seq<u8>) -> Seq<u8> {
    let start = sample_start(contents.len()) as int;
    contents.subrange(start, start + sample_len(contents.len()))
}

/// Which bytes of a file of the given size are sampled: the first of them and their number.
pub fn sample_span(size_bytes: u64) -> (r: (u64, u64))
    ensures
        r.0 == sample_start(size_bytes as nat),
        r.1 == sample_len(size_bytes as nat),
        r.0 + r.1 <= size_bytes,
{
    let len: u64 = if size_bytes < SAMPLE_SIZE {
        size_bytes
    } else {
        SAMPLE_SIZE
    };
    (size_bytes / 2 - len / 2, len)
}

fn push_le_bytes(out: &mut Vec<u8>, value: u64)
    ensures
        final(out)@ == old(out)@ + le_bytes(value as nat, 8),
{
    let ghost start = out@;
    let mut rest = value;
    let mut i: usize = 0;
    while i < 8
        invariant
            0 <= i <= 8,
            start + le_bytes(value as nat, 8) == out@ + le_bytes(rest as nat, (8 - i) as nat),
        decreases 8 - i,
    {
        let ghost before = out@;
        let ghost tail = le_bytes((rest / 256) as nat, (7 - i) as nat);
        out.push((rest % 256) as u8);
        assert(before + (seq![(rest % 256) as u8] + tail) =~= out@ + tail);
        rest = rest / 256;
        i += 1;
    }
    assert(out@ + le_bytes(rest as nat, 0) =~= out@);
}

/// What is hashed of a file: its size, and its sample unless it is empty.
pub open spec fn hashed_bytes(size: nat, sample: Seq<u8>) -> Seq<u8> {
    le_bytes(size, 8) + if size > 0 {
        sample
    } else {
        Seq::empty()
    }
}

/// Bytes in hexadecimal, two small digits for each.
pub fn hex_text(data: &[u8]) -> (r: String)
    ensures
        r@ == hex(data@),
{
    let mut r = String::new();
    let mut i: usize = 0;
    while i < data.len()
        invariant
            0 <= i <= data.len(),
            r@ == hex(data@.take(i as int)),
        decreases data.len() - i,
    {
        let b = data[i];
        r.push(digit_of(b / 16));
        r.push(digit_of(b % 16));
        assert(data@.take(i + 1).drop_last() =~= data@.take(i as int));
        i += 1;
    }
    assert(data@.take(i as int) =~= data@);
    r
}

/// The fingerprint of a file of the given size whose sampled bytes are at hand.
pub fn fingerprint_sample(size_bytes: u64, sample: &[u8]) -> (r: FileFingerprint)
    ensures
        r.hash@ == hex(sha256_digest(hashed_bytes(size_bytes as nat, sample@))),
        r.hash@.len() == 64,
        r.size_bytes == size_bytes,
{
    let mut data: Vec<u8> = Vec::new();
    push_le_bytes(&mut data, size_bytes);
    if size_bytes > 0 {
        let ghost before = data@;
        let mut i: usize = 0;
        while i < sample.len()
            invariant
                0 <= i <= sample.len(),
                data@ == before + sample@.take(i as int),
            decreases sample.len() - i,
        {
            data.push(sample[i]);
            i += 1;
            assert(data@ =~= before + sample@.take(i as int));
        }
        assert(sample@.take(i as int) =~= sample@);
    }
    assert(data@ =~= hashed_bytes(size_bytes as nat, sample@));
    let digest = sha256(data.as_slice());
    proof {
        lemma_hex_len(digest@);
    }
    FileFingerprint { hash: hex_text(digest.as_slice()), size_bytes }
}

proof fn lemma_hex_len(data: Seq<u8>)
    ensures
        hex(data).len() == 2 * data.len(),
    decreases data.len(),
{
    if data.len() > 0 {
        lemma_hex_len(data.drop_last());
    }
}

/// Two byte strings with the same hexadecimal text are the same.
pub proof fn law_hex_tells_apart(a: Seq<u8>, b: Seq<u8>)
    requires
        hex(a) == hex(b),
    ensures
        a == b,
    decreases a.len(),
{
    lemma_hex_len(a);
    lemma_hex_len(b);
    if a.len() > 0 {
        let x = a.last() as nat;
        let y = b.last() as nat;
        let n = hex(a).len() as int;
        assert(hex(a).drop_last().drop_last() =~= hex(a.drop_last()));
        assert(hex(b).drop_last().drop_last() =~= hex(b.drop_last()));
        assert(hex(a)[n - 1] == digit_char(x % 16) && hex(a)[n - 2] == digit_char(x / 16));
        assert(hex(b)[n - 1] == digit_char(y % 16) && hex(b)[n - 2] == digit_char(y / 16));
        lemma_digits_differ(x % 16, y % 16);
        lemma_digits_differ(x / 16, y / 16);
        law_hex_tells_apart(a.drop_last(), b.drop_last());
        assert(a =~= a.drop_last().push(a.last()));
        assert(b =~= b.drop_last().push(b.last()));
    } else {
        assert(a =~= b);
    }
}

proof fn lemma_le_bytes_value(a: nat, b: nat, n: nat)
    requires
        le_bytes(a, n) == le_bytes(b, n),
        n > 0,
    ensures
        a % 256 == b % 256,
        le_bytes(a / 256, (n - 1) as nat) == le_bytes(b / 256, (n - 1) as nat),
{
    assert(le_bytes(a, n)[0] == (a % 256) as u8);
    assert(le_bytes(b, n)[0] == (b % 256) as u8);
    assert(le_bytes(a, n).skip(1) =~= le_bytes(a / 256, (n - 1) as nat));
    assert(le_bytes(b, n).skip(1) =~= le_bytes(b / 256, (n - 1) as nat));
}

proof fn lemma_le_bytes_len(a: nat, n: nat)
    ensures
        le_bytes(a, n).len() == n,
    decreases n,
{
    if n > 0 {
        lemma_le_bytes_len(a / 256, (n - 1) as nat);
    }
}

proof fn lemma_le_bytes_injective(a: nat, b: nat, n: nat)
    requires
        le_bytes(a, n) == le_bytes(b, n),
        n == 0 ==> a == b,
        n > 0 ==> a < vstd::arithmetic::power::pow(256, n) && b < vstd::arithmetic::power::pow(
            256,
            n,
        ),
    ensures
        a == b,
    decreases n,
{
    if n > 0 {
        lemma_le_bytes_value(a, b, n);
        vstd::arithmetic::power::lemma_pow0(256);
        vstd::arithmetic::power::lemma_pow1(256);
        assert(vstd::arithmetic::power::pow(256, n) == 256 * vstd::arithmetic::power::pow(
            256,
            (n - 1) as nat,
        )) by {
            reveal(vstd::arithmetic::power::pow);
        }
        if n == 1 {
            assert(a == a % 256);
            assert(b == b % 256);
        } else {
            lemma_le_bytes_injective(a / 256, b / 256, (n - 1) as nat);
        }
    }
}

/// What is hashed of two files is the same only where their sizes and the bytes sampled from them
/// are the same: a fingerprint can repeat for other files only where SHA-256 itself does.
pub proof fn law_hashed_bytes_tell_apart(a: Seq<u8>, b: Seq<u8>)
    requires
        a.len() <= u64::MAX,
        b.len() <= u64::MAX,
        hashed_bytes(a.len(), sample_of(a)) == hashed_bytes(b.len(), sample_of(b)),
    ensures
        a.len() == b.len(),
        sample_of(a) == sample_of(b),
{
    let x = hashed_bytes(a.len(), sample_of(a));
    let y = hashed_bytes(b.len(), sample_of(b));
    lemma_le_bytes_len(a.len(), 8);
    lemma_le_bytes_len(b.len(), 8);
    assert(x.take(8) =~= le_bytes(a.len(), 8));
    assert(y.take(8) =~= le_bytes(b.len(), 8));
    assert(vstd::arithmetic::power::pow(256, 8) == 0x1_0000_0000_0000_0000) by {
        reveal_with_fuel(vstd::arithmetic::power::pow, 9);
    }
    lemma_le_bytes_injective(a.len(), b.len(), 8);
    if a.len() > 0 {
        assert(x.skip(8) =~= sample_of(a));
        assert(y.skip(8) =~= sample_of(b));
    } else {
        assert(sample_of(a) =~= sample_of(b));
    }
}

/// A file of up to 262144 bytes is sampled whole, and of a larger one as many bytes from its
/// middle: what is left out before the sample is as much as what is left out after it, but for one
/// byte at most.
pub proof fn law_sample_is_from_the_middle(size: nat)
    ensures
        size <= 262144 ==> sample_start(size) == 0 && sample_len(size) == size,
        size > 262144 ==> sample_len(size) == 262144,
        sample_start(size) + sample_len(size) <= size,
        ({
            let after = size - sample_start(size) - sample_len(size);
            sample_start(size) == after || sample_start(size) + 1 == after || sample_start(size)
                == after + 1
        }),
{
}

/// The bytes of a sample are those of the file, in their order.
pub proof fn law_sample_is_of_the_file(contents: Seq<u8>, i: int)
    requires
        0 <= i < sample_of(contents).len(),
    ensures
        sample_of(contents).len() == sample_len(contents.len()),
        sample_of(contents)[i] == contents[sample_start(contents.len()) + i],
{
}

/// The value of a small hexadecimal digit.
pub open spec fn small_hex_value(c: char) -> int {
    if '0' <= c <= '9' {
        c as int - '0' as int
    } else {
        c as int - 'a' as int + 10
    }
}

/// In hexadecimal every byte is two small digits, the higher one first.
pub proof fn law_hex_digits(data: Seq<u8>, i: int)
    requires
        0 <= i < data.len(),
    ensures
        hex(data).len() == 2 * data.len(),
        '0' <= hex(data)[2 * i] <= '9' || 'a' <= hex(data)[2 * i] <= 'f',
        '0' <= hex(data)[2 * i + 1] <= '9' || 'a' <= hex(data)[2 * i + 1] <= 'f',
        small_hex_value(hex(data)[2 * i]) * 16 + small_hex_value(hex(data)[2 * i + 1]) == data[i],
    decreases data.len(),
{
    let front = data.drop_last();
    lemma_hex_len(data);
    lemma_hex_len(front);
    if i < front.len() {
        law_hex_digits(front, i);
        assert(hex(data)[2 * i] == hex(front)[2 * i]);
        assert(hex(data)[2 * i + 1] == hex(front)[2 * i + 1]);
    } else {
        let b = data.last();
        assert(hex(data)[2 * i] == digit_char(b as nat / 16));
        assert(hex(data)[2 * i + 1] == digit_char(b as nat % 16));
    }
}

} // verus!
