//! Sound files.

use crate::bytes::{push_all, push_i16, push_u16, push_u32};
use vstd::prelude::*;

verus! {

use crate::bytes::{law_least_byte_comes_first, le_of, sample_word};

/// The bytes of samples.
pub open spec fn samples_of(samples: Seq<i16>) -> Seq<u8> {
    Seq::new(
        2 * samples.len(),
        |i: int| le_of(sample_word(samples[i / 2]), 2)[i % 2],
    )
}

/// The size of the samples in bytes as the file states it, which has 32 bits for it.
pub open spec fn data_size(samples: Seq<i16>) -> nat {
    (2 * samples.len()) % 4294967296
}

/// The tag of a RIFF file.
pub open spec fn riff_tag() -> Seq<u8> {
    seq![82u8, 73, 70, 70]
}

/// The tag of a WAVE form.
pub open spec fn wave_tag() -> Seq<u8> {
    seq![87u8, 65, 86, 69]
}

/// The tag of the format chunk.
pub open spec fn fmt_tag() -> Seq<u8> {
    seq![102u8, 109, 116, 32]
}

/// The tag of the data chunk.
pub open spec fn data_tag() -> Seq<u8> {
    seq![100u8, 97, 116, 97]
}

/// What stands before the samples of a file of 16-bit samples.
pub open spec fn wav_header(samples: Seq<i16>, sample_rate: u32, num_channels: u16) -> Seq<u8> {
    let size = data_size(samples);
    riff_tag() + le_of((36 + size) as nat, 4) + wave_tag() + fmt_tag() + le_of(16, 4) + le_of(1, 2)
        + le_of(num_channels as nat, 2) + le_of(sample_rate as nat, 4) + le_of(
        (sample_rate * num_channels * 2) as nat,
        4,
    ) + le_of((num_channels * 2) as nat, 2) + le_of(16, 2) + data_tag() + le_of(size, 4)
}

/// A WAV file of 16-bit samples.
pub open spec fn wav_of(samples: Seq<i16>, sample_rate: u32, num_channels: u16) -> Seq<u8> {
    wav_header(samples, sample_rate, num_channels) + samples_of(samples)
}

/// The bytes of a WAV file.
pub fn write_wav(samples: &[i16], sample_rate: u32, num_channels: u16) -> (file: Vec<u8>)
    requires
        2 * samples@.len() <= usize::MAX,
        36 + data_size(samples@) <= u32::MAX,
        sample_rate * num_channels * 2 <= u32::MAX,
        num_channels * 2 <= u16::MAX,
    ensures
        file@ == wav_of(samples@, sample_rate, num_channels),
{
    let size: u32 = ((samples.len() as u64 * 2) % 4294967296) as u32;
    let file_size: u32 = 36 + size;
    proof {
        assert(sample_rate * num_channels <= u32::MAX) by (nonlinear_arith)
            requires
                sample_rate * num_channels * 2 <= u32::MAX,
                sample_rate >= 0,
                num_channels >= 0,
        ;
    }
    let byte_rate: u32 = sample_rate * num_channels as u32 * 2;
    let block_align: u16 = num_channels * 2;
    let mut file: Vec<u8> = Vec::new();
    push_all(&mut file, [82u8, 73, 70, 70].as_slice());
    push_u32(&mut file, file_size);
    push_all(&mut file, [87u8, 65, 86, 69].as_slice());
    push_all(&mut file, [102u8, 109, 116, 32].as_slice());
    push_u32(&mut file, 16);
    push_u16(&mut file, 1);
    push_u16(&mut file, num_channels);
    push_u32(&mut file, sample_rate);
    push_u32(&mut file, byte_rate);
    push_u16(&mut file, block_align);
    push_u16(&mut file, 16);
    push_all(&mut file, [100u8, 97, 116, 97].as_slice());
    push_u32(&mut file, size);
    let ghost header = wav_header(samples@, sample_rate, num_channels);
    assert(file@ =~= header);
    let mut i: usize = 0;
    assert(file@ =~= header + samples_of(samples@).take(0));
    while i < samples.len()
        invariant
            i <= samples@.len(),
            2 * samples@.len() <= usize::MAX,
            file@ == header + samples_of(samples@).take(2 * i as int),
        decreases samples@.len() - i,
    {
        push_i16(&mut file, samples[i]);
        proof {
            let all = samples_of(samples@);
            assert((2 * i) / 2 == i && (2 * i) % 2 == 0);
            assert((2 * i + 1) / 2 == i && (2 * i + 1) % 2 == 1);
            assert(file@ =~= header + all.take(2 * (i + 1)));
        }
        i = i + 1;
    }
    assert(samples_of(samples@).take(2 * i as int) =~= samples_of(samples@));
    file
}

/// A file has 44 bytes before its samples, and states its own size less 8 and the size of
/// its samples, as long as 32 bits can.
pub proof fn law_wav_states_its_size(samples: Seq<i16>, sample_rate: u32, num_channels: u16)
    requires
        36 + 2 * samples.len() <= u32::MAX,
    ensures
        ({
            let file = wav_of(samples, sample_rate, num_channels);
            &&& file.len() == 44 + 2 * samples.len()
            &&& file.subrange(4, 8) == le_of((file.len() - 8) as nat, 4)
            &&& file.subrange(40, 44) == le_of(2 * samples.len(), 4)
        }),
{
    let file = wav_of(samples, sample_rate, num_channels);
    assert(data_size(samples) == 2 * samples.len());
    assert(file.subrange(4, 8) =~= le_of((file.len() - 8) as nat, 4));
    assert(file.subrange(40, 44) =~= le_of(2 * samples.len(), 4));
}

/// The number that two bytes of a file make.
pub open spec fn short_at(file: Seq<u8>, at: int) -> int {
    file[at] + 256 * file[at + 1]
}

/// The number that four bytes of a file make.
pub open spec fn long_at(file: Seq<u8>, at: int) -> int {
    file[at] + 256 * file[at + 1] + 65536 * file[at + 2] + 16777216 * file[at + 3]
}

/// A file can be played: it is a RIFF file of WAVE form whose format chunk says that samples are
/// plain numbers of 16 bits, how many sides there are, how many samples of each come in a second,
/// how many bytes that is, and how many bytes belong together; its data chunk has the samples in
/// order, two bytes each in two's complement.
pub proof fn law_wav_can_be_played(
    samples: &[i16],
    sample_rate: u32,
    num_channels: u16,
    file: Vec<u8>,
    i: int,
)
    requires
        36 + 2 * samples@.len() <= u32::MAX,
        sample_rate * num_channels * 2 <= u32::MAX,
        num_channels * 2 <= u16::MAX,
        call_ensures(write_wav, (samples, sample_rate, num_channels), file),
    ensures
        file@.len() == 44 + 2 * samples@.len(),
        file@.subrange(0, 4) == seq![82u8, 73, 70, 70],
        long_at(file@, 4) == file@.len() - 8,
        file@.subrange(8, 16) == seq![87u8, 65, 86, 69, 102, 109, 116, 32],
        long_at(file@, 16) == 16,
        short_at(file@, 20) == 1,
        short_at(file@, 22) == num_channels,
        long_at(file@, 24) == sample_rate,
        long_at(file@, 28) == sample_rate * num_channels * 2,
        short_at(file@, 32) == num_channels * 2,
        short_at(file@, 34) == 16,
        file@.subrange(36, 40) == seq![100u8, 97, 116, 97],
        long_at(file@, 40) == 2 * samples@.len(),
        0 <= i < samples@.len() ==> short_at(file@, 44 + 2 * i) == (if samples@[i] >= 0 {
            samples@[i] as int
        } else {
            samples@[i] + 65536
        }),
{
    let f = file@;
    let size = data_size(samples@);
    assert(size == 2 * samples@.len());
    law_least_byte_comes_first((36 + size) as nat);
    law_least_byte_comes_first(16);
    law_least_byte_comes_first(1);
    law_least_byte_comes_first(num_channels as nat);
    law_least_byte_comes_first(sample_rate as nat);
    assert(0 <= sample_rate * num_channels * 2) by (nonlinear_arith)
        requires
            sample_rate >= 0,
            num_channels >= 0,
    ;
    law_least_byte_comes_first((sample_rate * num_channels * 2) as nat);
    law_least_byte_comes_first((num_channels * 2) as nat);
    law_least_byte_comes_first(size);
    assert(f.subrange(0, 4) =~= seq![82u8, 73, 70, 70]);
    assert(f.subrange(4, 8) =~= le_of((36 + size) as nat, 4));
    assert(f.subrange(8, 16) =~= seq![87u8, 65, 86, 69, 102, 109, 116, 32]);
    assert(f.subrange(16, 20) =~= le_of(16, 4));
    assert(f.subrange(20, 22) =~= le_of(1, 2));
    assert(f.subrange(22, 24) =~= le_of(num_channels as nat, 2));
    assert(f.subrange(24, 28) =~= le_of(sample_rate as nat, 4));
    assert(f.subrange(28, 32) =~= le_of((sample_rate * num_channels * 2) as nat, 4));
    assert(f.subrange(32, 34) =~= le_of((num_channels * 2) as nat, 2));
    assert(f.subrange(34, 36) =~= le_of(16, 2));
    assert(f.subrange(36, 40) =~= seq![100u8, 97, 116, 97]);
    assert(f.subrange(40, 44) =~= le_of(size, 4));
    lemma_long(f, 4, (36 + size) as nat);
    lemma_long(f, 16, 16);
    lemma_short(f, 20, 1);
    lemma_short(f, 22, num_channels as nat);
    lemma_long(f, 24, sample_rate as nat);
    lemma_long(f, 28, (sample_rate * num_channels * 2) as nat);
    lemma_short(f, 32, (num_channels * 2) as nat);
    lemma_short(f, 34, 16);
    lemma_long(f, 40, size);
    if 0 <= i < samples@.len() {
        let w = sample_word(samples@[i]);
        assert((2 * i) / 2 == i && (2 * i) % 2 == 0);
        assert((2 * i + 1) / 2 == i && (2 * i + 1) % 2 == 1);
        assert(f[44 + 2 * i] == samples_of(samples@)[2 * i]);
        assert(f[44 + 2 * i + 1] == samples_of(samples@)[2 * i + 1]);
        law_least_byte_comes_first(w);
    }
}

/// Four bytes of a file that hold a number.
proof fn lemma_long(file: Seq<u8>, at: int, x: nat)
    requires
        0 <= at,
        at + 4 <= file.len(),
        file.subrange(at, at + 4) == le_of(x, 4),
        x < 4294967296,
    ensures
        long_at(file, at) == x,
{
    law_least_byte_comes_first(x);
    let b = file.subrange(at, at + 4);
    assert(b[0] == file[at] && b[1] == file[at + 1] && b[2] == file[at + 2] && b[3] == file[at
        + 3]);
}

/// Two bytes of a file that hold a number.
proof fn lemma_short(file: Seq<u8>, at: int, x: nat)
    requires
        0 <= at,
        at + 2 <= file.len(),
        file.subrange(at, at + 2) == le_of(x, 2),
        x < 65536,
    ensures
        short_at(file, at) == x,
{
    law_least_byte_comes_first(x);
    let b = file.subrange(at, at + 2);
    assert(b[0] == file[at] && b[1] == file[at + 1]);
}

} // verus!
