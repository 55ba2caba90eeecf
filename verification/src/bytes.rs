//! Words, samples and numbers as bytes.

use crate::scalar::Real;
use vstd::prelude::*;

verus! {

use crate::scalar::{functional, of_bits_of};

/// Byte `b` of a number, counted from the least significant one.
pub open spec fn byte_of(x: nat, b: nat) -> u8
    decreases b,
{
    if b == 0 {
        (x % 256) as u8
    } else {
        byte_of(x / 256, (b - 1) as nat)
    }
}

/// The lowest `n` bytes of a number, least significant first.
pub open spec fn le_of(x: nat, n: nat) -> Seq<u8> {
    Seq::new(n, |b: int| byte_of(x, b as nat))
}

/// Words as bytes, least significant byte first.
pub open spec fn le_words(words: Seq<u32>) -> Seq<u8> {
    Seq::new(4 * words.len(), |i: int| byte_of(words[i / 4] as nat, (i % 4) as nat))
}

/// Words as bytes, most significant byte first.
pub open spec fn be_words(words: Seq<u32>) -> Seq<u8> {
    Seq::new(4 * words.len(), |i: int| byte_of(words[i / 4] as nat, (3 - i % 4) as nat))
}

/// Appends a half word, least significant byte first.
pub fn push_u16(out: &mut Vec<u8>, x: u16)
    ensures
        final(out)@ == old(out)@ + le_of(x as nat, 2),
{
    out.push((x % 256) as u8);
    out.push((x / 256) as u8);
    proof {
        reveal_with_fuel(byte_of, 2);
        assert(out@ =~= old(out)@ + le_of(x as nat, 2));
    }
}

/// Appends a word, least significant byte first.
pub fn push_u32(out: &mut Vec<u8>, x: u32)
    ensures
        final(out)@ == old(out)@ + le_of(x as nat, 4),
{
    out.push((x % 256) as u8);
    out.push((x / 256 % 256) as u8);
    out.push((x / 65536 % 256) as u8);
    out.push((x / 16777216) as u8);
    proof {
        reveal_with_fuel(byte_of, 4);
        assert(x as nat / 256 / 256 == x as nat / 65536);
        assert(x as nat / 256 / 256 / 256 == x as nat / 16777216);
        assert(out@ =~= old(out)@ + le_of(x as nat, 4));
    }
}

/// The half word with the bits of a sample.
pub open spec fn sample_word(x: i16) -> nat {
    if x >= 0 {
        x as nat
    } else {
        (x + 65536) as nat
    }
}

/// Appends a sample in two's complement, least significant byte first.
pub fn push_i16(out: &mut Vec<u8>, x: i16)
    ensures
        final(out)@ == old(out)@ + le_of(sample_word(x), 2),
{
    let w: u16 = if x >= 0 {
        x as u16
    } else {
        (x as i32 + 65536) as u16
    };
    push_u16(out, w);
}

/// The word whose bytes start at `at`, least significant byte first.
pub open spec fn word_at(data: Seq<u8>, at: int) -> u32 {
    (data[at] + 256 * data[at + 1] + 65536 * data[at + 2] + 16777216 * data[at + 3]) as u32
}

/// Reads the word whose bytes start at `at`, least significant byte first.
pub fn read_u32(data: &[u8], at: usize) -> (x: u32)
    requires
        at + 4 <= data@.len(),
    ensures
        x == word_at(data@, at as int),
        le_of(x as nat, 4) == data@.subrange(at as int, at + 4),
{
    let len: usize = data.len();
    let a: u32 = data[at] as u32;
    let b: u32 = data[at + 1] as u32;
    let c: u32 = data[at + 2] as u32;
    let d: u32 = data[at + 3] as u32;
    let x: u32 = a + 256 * b + 65536 * c + 16777216 * d;
    proof {
        reveal_with_fuel(byte_of, 4);
        assert(x as nat % 256 == a);
        assert(x as nat / 256 == b + 256 * c + 65536 * d);
        assert(x as nat / 256 / 256 == c + 256 * d);
        assert(x as nat / 256 / 256 / 256 == d);
        assert(le_of(x as nat, 4) =~= data@.subrange(at as int, at + 4));
    }
    x
}

/// The words of a byte string are told apart by their bytes.
pub proof fn law_words_are_their_bytes(x: u32, y: u32)
    requires
        le_of(x as nat, 4) == le_of(y as nat, 4),
    ensures
        x == y,
{
    reveal_with_fuel(byte_of, 4);
    let a = le_of(x as nat, 4);
    let b = le_of(y as nat, 4);
    assert(a[0] == b[0] && a[1] == b[1] && a[2] == b[2] && a[3] == b[3]);
    assert(x as nat / 256 / 256 / 256 < 256);
    assert(y as nat / 256 / 256 / 256 < 256);
}

/// Words are read back from the bytes that they were written as.
pub proof fn law_words_are_read_back(words: Seq<u32>, i: int)
    requires
        0 <= i < words.len(),
    ensures
        word_at(le_words(words), 4 * i) == words[i],
{
    reveal_with_fuel(byte_of, 4);
    let data = le_words(words);
    let x = words[i] as nat;
    assert((4 * i) / 4 == i && (4 * i) % 4 == 0);
    assert((4 * i + 1) / 4 == i && (4 * i + 1) % 4 == 1);
    assert((4 * i + 2) / 4 == i && (4 * i + 2) % 4 == 2);
    assert((4 * i + 3) / 4 == i && (4 * i + 3) % 4 == 3);
    assert(data[4 * i] == x % 256);
    assert(data[4 * i + 1] == x / 256 % 256);
    assert(data[4 * i + 2] == x / 256 / 256 % 256);
    assert(data[4 * i + 3] == x / 256 / 256 / 256 % 256);
}

/// Words as bytes, least significant byte first.
pub fn encode_words(words: &[u32]) -> (out: Vec<u8>)
    ensures
        out@ == le_words(words@),
{
    let mut out: Vec<u8> = Vec::new();
    let mut i: usize = 0;
    while i < words.len()
        invariant
            i <= words@.len(),
            out@ == le_words(words@).take(4 * i as int),
        decreases words@.len() - i,
    {
        push_u32(&mut out, words[i]);
        proof {
            let all = le_words(words@);
            assert forall|b: int| 0 <= b < 4 implies #[trigger] le_of(words@[i as int] as nat, 4)[b]
                == all[4 * i + b] by {
                assert((4 * i + b) / 4 == i && (4 * i + b) % 4 == b);
            }
            assert(out@ =~= all.take(4 * (i + 1)));
        }
        i = i + 1;
    }
    assert(le_words(words@).take(4 * i as int) =~= le_words(words@));
    out
}

/// Words as bytes in the order of the machine.
///
/// Calls `bytemuck::cast_slice` from words to bytes, which hands out the memory of the
/// words: each word gives four bytes, and all words have the same byte order. Which of
/// the two orders that is depends on the machine.
#[verifier::external_body]
pub(crate) fn cast_words(words: &[u32]) -> (out: Vec<u8>)
    ensures
        out@ == le_words(words@) || out@ == be_words(words@),
{
    bytemuck::cast_slice::<u32, u8>(words).to_vec()
}

/// Bytes as words in the order of the machine.
///
/// Calls `bytemuck::pod_collect_to_vec` from bytes to words, which copies the bytes into
/// the memory of new words, wherever the bytes lie: every four bytes give one word, and
/// all words have the same byte order. Which of the two orders that is depends on the
/// machine.
#[verifier::external_body]
pub(crate) fn collect_words(data: &[u8]) -> (words: Vec<u32>)
    requires
        data@.len() % 4 == 0,
    ensures
        data@ == le_words(words@) || data@ == be_words(words@),
{
    bytemuck::pod_collect_to_vec::<u8, u32>(data)
}

/// The numbers with the given single-precision bit patterns.
pub open spec fn reals_of<S: Real>(words: Seq<u32>) -> Seq<S> {
    Seq::new(words.len(), |i: int| of_bits_of::<S>(words[i]))
}

/// The numbers with the given single-precision bit patterns.
pub fn reals_from<S: Real>(words: &[u32]) -> (out: Vec<S>)
    ensures
        out@.len() == words@.len(),
        functional::<S>() ==> out@ == reals_of::<S>(words@),
{
    let mut out: Vec<S> = Vec::new();
    let mut i: usize = 0;
    while i < words.len()
        invariant
            i <= words@.len(),
            out@.len() == i,
            functional::<S>() ==> out@ == reals_of::<S>(words@).take(i as int),
        decreases words@.len() - i,
    {
        out.push(S::of_bits(words[i]));
        assert(functional::<S>() ==> out@ =~= reals_of::<S>(words@).take(i + 1));
        i = i + 1;
    }
    assert(reals_of::<S>(words@).take(i as int) =~= reals_of::<S>(words@));
    out
}

/// Whether bytes hold words in one of the two byte orders.
pub open spec fn hold_words(data: Seq<u8>, words: Seq<u32>) -> bool {
    data == le_words(words) || data == be_words(words)
}

/// The single-precision numbers in downloaded bytes, where the bytes make whole words.
pub fn unpack_real<S: Real>(data: &[u8]) -> (out: Option<Vec<S>>)
    ensures
        out is Some <==> data@.len() % 4 == 0,
        out is Some ==> 4 * out->0@.len() == data@.len(),
        out is Some && functional::<S>() ==> exists|words: Seq<u32>| #[trigger]
            hold_words(data@, words) && out->0@ == reals_of::<S>(words),
{
    if data.len() % 4 != 0 {
        return None;
    }
    let words = collect_words(data);
    assert(hold_words(data@, words@));
    Some(reals_from::<S>(words.as_slice()))
}

/// A number in decimal digits.
pub open spec fn decimal_digits(n: nat) -> Seq<u8>
    decreases n,
{
    if n < 10 {
        seq![(48 + n) as u8]
    } else {
        decimal_digits(n / 10).push((48 + n % 10) as u8)
    }
}

/// Appends a number in decimal digits.
pub fn push_decimal(out: &mut Vec<u8>, n: usize)
    ensures
        final(out)@ == old(out)@ + decimal_digits(n as nat),
    decreases n,
{
    if n < 10 {
        out.push((48 + n) as u8);
    } else {
        push_decimal(out, n / 10);
        out.push((48 + n % 10) as u8);
    }
    assert(out@ =~= old(out)@ + decimal_digits(n as nat));
}

/// Appends bytes.
pub fn push_all(out: &mut Vec<u8>, more: &[u8])
    ensures
        final(out)@ == old(out)@ + more@,
{
    let ghost had = out@;
    let mut i: usize = 0;
    assert(out@ =~= had + more@.take(0));
    while i < more.len()
        invariant
            i <= more@.len(),
            out@ == had + more@.take(i as int),
        decreases more@.len() - i,
    {
        out.push(more[i]);
        assert(out@ =~= had + more@.take(i + 1));
        i = i + 1;
    }
    assert(more@.take(i as int) =~= more@);
}

/// The lowest bytes of a number make the number again, each counting 256 times the one before
/// it.
proof fn lemma_bytes(x: nat)
    ensures
        x < 65536 ==> byte_of(x, 0) + 256 * byte_of(x, 1) == x,
        x < 4294967296 ==> byte_of(x, 0) + 256 * byte_of(x, 1) + 65536 * byte_of(x, 2) + 16777216
            * byte_of(x, 3) == x,
{
    reveal_with_fuel(byte_of, 4);
}

/// Numbers of two and of four bytes have their least significant byte first: the bytes make the
/// number again, each counting 256 times the one before it.
pub proof fn law_least_byte_comes_first(x: nat)
    ensures
        x < 65536 ==> {
            let b = le_of(x, 2);
            b.len() == 2 && b[0] + 256 * b[1] == x
        },
        x < 4294967296 ==> {
            let b = le_of(x, 4);
            b.len() == 4 && b[0] + 256 * b[1] + 65536 * b[2] + 16777216 * b[3] == x
        },
{
    lemma_bytes(x);
}

/// Encoded words stand one behind the other, four bytes each, the least significant byte first,
/// and a word is read from its bytes in the same order.
pub proof fn law_words_stand_least_byte_first(
    words: &[u32],
    out: Vec<u8>,
    i: int,
    data: &[u8],
    at: usize,
    x: u32,
)
    requires
        call_ensures(encode_words, (words,), out),
        0 <= i < words@.len(),
        at + 4 <= data@.len(),
        call_ensures(read_u32, (data, at), x),
    ensures
        out@.len() == 4 * words@.len(),
        out@[4 * i] + 256 * out@[4 * i + 1] + 65536 * out@[4 * i + 2] + 16777216 * out@[4 * i + 3]
            == words@[i],
        x == data@[at as int] + 256 * data@[at + 1] + 65536 * data@[at + 2] + 16777216 * data@[at
            + 3],
{
    lemma_bytes(words@[i] as nat);
    assert((4 * i) / 4 == i && (4 * i) % 4 == 0);
    assert((4 * i + 1) / 4 == i && (4 * i + 1) % 4 == 1);
    assert((4 * i + 2) / 4 == i && (4 * i + 2) % 4 == 2);
    assert((4 * i + 3) / 4 == i && (4 * i + 3) % 4 == 3);
    let b = data@.subrange(at as int, at + 4);
    assert(b[0] == data@[at as int] && b[1] == data@[at + 1]);
    assert(b[2] == data@[at + 2] && b[3] == data@[at + 3]);
    lemma_bytes(x as nat);
    assert(le_of(x as nat, 4)[0] == byte_of(x as nat, 0));
    assert(le_of(x as nat, 4)[1] == byte_of(x as nat, 1));
    assert(le_of(x as nat, 4)[2] == byte_of(x as nat, 2));
    assert(le_of(x as nat, 4)[3] == byte_of(x as nat, 3));
}

} // verus!
