//! Peak metering of interleaved 32-bit float audio.

use crate::single::{self, Single};
use std::collections::VecDeque;
use vstd::prelude::*;

verus! {

/// The samples that `bytes` holds: four bytes each, least significant first; a tail of fewer than
/// four bytes is no sample.
pub open spec fn samples_of(bytes: Seq<u8>) -> Seq<Single> {
    Seq::new(
        bytes.len() / 4,
        |i: int|
            single::single_of_bytes(bytes[4 * i], bytes[4 * i + 1], bytes[4 * i + 2], bytes[4 * i + 3]),
    )
}

/// The largest magnitude among the finite samples, in units; zero where there is none.
pub open spec fn loudest(samples: Seq<Single>) -> int
    decreases samples.len(),
{
    if samples.len() == 0 {
        0
    } else {
        louder(loudest(samples.drop_last()), samples.last())
    }
}

/// `level` is the peak of the audio in `bytes`: the largest magnitude of a finite sample, at most
/// one.
pub open spec fn is_peak_of(level: Single, bytes: Seq<u8>) -> bool {
    &&& level.is_unit()
    &&& level.value() == if loudest(samples_of(bytes)) > single::one_in_units() {
        single::one_in_units()
    } else {
        loudest(samples_of(bytes))
    }
}

/// The first `count` bytes of `queue`, with zeros in place of those that it does not have.
pub open spec fn padded_prefix(queue: Seq<u8>, count: nat) -> Seq<u8> {
    Seq::new(
        count,
        |i: int|
            if i < queue.len() {
                queue[i]
            } else {
                0
            },
    )
}

/// One more sample: the loudest so far, or the sample itself.
pub open spec fn louder(rest: int, sample: Single) -> int {
    if sample.finite() && single::units(sample.magnitude()) > rest {
        single::units(sample.magnitude())
    } else {
        rest
    }
}

/// The loudest of one more sample, taken from its four bytes.
proof fn lemma_loudest_step(bytes: Seq<u8>, count: int)
    requires
        0 <= count,
        4 * count + 4 <= bytes.len(),
    ensures
        loudest(samples_of(bytes).take(count + 1)) == louder(
            loudest(samples_of(bytes).take(count)),
            single::single_of_bytes(
                bytes[4 * count],
                bytes[4 * count + 1],
                bytes[4 * count + 2],
                bytes[4 * count + 3],
            ),
        ),
{
    assert(samples_of(bytes).take(count + 1).drop_last() =~= samples_of(bytes).take(
        count,
    ));
}

/// The larger of a magnitude and that of a sample, where the sample is finite.
fn louder_of(peak: Single, sample: Single) -> (result: Single)
    requires
        !peak.is_signed(),
        peak.finite(),
    ensures
        !result.is_signed(),
        result.finite(),
        result.value() == louder(peak.value(), sample),
{
    if sample.is_finite() {
        let size: Single = sample.abs();
        if peak.less_than(size) {
            return size;
        }
    }
    peak
}

/// A magnitude that was the loudest, clamped to one, is the peak.
proof fn lemma_clamped_is_peak(loudest_single: Single, bytes: Seq<u8>)
    requires
        !loudest_single.is_signed(),
        loudest_single.finite(),
        loudest_single.value() == loudest(samples_of(bytes)),
    ensures
        is_peak_of(loudest_single.clamped(), bytes),
{
    single::lemma_units_landmarks();
    single::lemma_units_order(loudest_single.magnitude(), single::ONE_BITS as int);
    single::lemma_units_order(single::ONE_BITS as int, loudest_single.magnitude());
}

/// The peak level of a buffer of little-endian float samples.
pub fn peak_level_from_f32le(bytes: &[u8]) -> (level: Single)
    ensures
        is_peak_of(level, bytes@),
{
    let mut peak: Single = Single::zero();
    let mut idx: usize = 0;
    let ghost mut count: nat = 0;
    assert(samples_of(bytes@).take(0) =~= Seq::empty());
    while bytes.len() - idx >= 4
        invariant
            idx == 4 * count,
            idx <= bytes.len(),
            !peak.is_signed(),
            peak.finite(),
            peak.value() == loudest(samples_of(bytes@).take(count as int)),
        decreases bytes.len() - idx,
    {
        let value: Single = Single::from_le_bytes(
            bytes[idx],
            bytes[idx + 1],
            bytes[idx + 2],
            bytes[idx + 3],
        );
        proof {
            lemma_loudest_step(bytes@, count as int);
            count = count + 1;
        }
        peak = louder_of(peak, value);
        idx = idx + 4;
    }
    proof {
        assert(samples_of(bytes@).take(count as int) =~= samples_of(bytes@));
        lemma_clamped_is_peak(peak, bytes@);
    }
    peak.clamp_to_unit()
}

/// The byte at `idx`, or zero past the end.
fn byte_or_zero(queue: &VecDeque<u8>, idx: usize) -> (byte: u8)
    ensures
        byte == if idx < queue@.len() {
            queue@[idx as int]
        } else {
            0
        },
{
    if idx < queue.len() {
        queue[idx]
    } else {
        0
    }
}

/// The peak level of the first `prefix_bytes` bytes of a queue, rounded down to whole samples;
/// bytes that the queue does not have count as zero.
pub fn peak_level_from_queue_prefix_f32le(queue: &VecDeque<u8>, prefix_bytes: usize) -> (level:
    Single)
    ensures
        is_peak_of(level, padded_prefix(queue@, prefix_bytes as nat)),
{
    let sample_bytes: usize = prefix_bytes - (prefix_bytes % 4);
    let ghost bytes = padded_prefix(queue@, prefix_bytes as nat);
    let mut peak: Single = Single::zero();
    let mut idx: usize = 0;
    let ghost mut count: nat = 0;
    assert(samples_of(bytes).take(0) =~= Seq::empty());
    while idx < sample_bytes
        invariant
            idx == 4 * count,
            idx <= sample_bytes <= prefix_bytes,
            sample_bytes % 4 == 0,
            prefix_bytes - sample_bytes < 4,
            bytes == padded_prefix(queue@, prefix_bytes as nat),
            !peak.is_signed(),
            peak.finite(),
            peak.value() == loudest(samples_of(bytes).take(count as int)),
        decreases sample_bytes - idx,
    {
        let value: Single = Single::from_le_bytes(
            byte_or_zero(queue, idx),
            byte_or_zero(queue, idx + 1),
            byte_or_zero(queue, idx + 2),
            byte_or_zero(queue, idx + 3),
        );
        proof {
            lemma_loudest_step(bytes, count as int);
            count = count + 1;
        }
        peak = louder_of(peak, value);
        idx = idx + 4;
    }
    proof {
        assert(samples_of(bytes).take(count as int) =~= samples_of(bytes));
        lemma_clamped_is_peak(peak, bytes);
    }
    peak.clamp_to_unit()
}

/// A buffer has one peak.
pub proof fn law_peak_is_unique(a: Single, b: Single, bytes: Seq<u8>)
    requires
        is_peak_of(a, bytes),
        is_peak_of(b, bytes),
    ensures
        a == b,
{
    single::lemma_unit_determined_by_value(a, b);
}

/// A peak is in the unit range already: a meter that clamps it shows it as it is.
pub proof fn law_peak_needs_no_clamping(level: Single, bytes: Seq<u8>)
    requires
        is_peak_of(level, bytes),
    ensures
        level.clamped() == level,
        !level.is_nan(),
        0 <= level.value() <= single::one_in_units(),
{
    single::lemma_clamped(level);
}

/// No finite sample is larger than the loudest, and the loudest is zero or the magnitude of one
/// of the finite samples.
pub proof fn law_loudest_is_the_maximum(samples: Seq<Single>)
    ensures
        loudest(samples) >= 0,
        forall|i: int|
            0 <= i < samples.len() && (#[trigger] samples[i]).finite() ==> single::units(
                samples[i].magnitude(),
            ) <= loudest(samples),
        loudest(samples) == 0 || exists|i: int|
            0 <= i < samples.len() && (#[trigger] samples[i]).finite() && single::units(
                samples[i].magnitude(),
            ) == loudest(samples),
    decreases samples.len(),
{
    if samples.len() > 0 {
        let rest = samples.drop_last();
        law_loudest_is_the_maximum(rest);
        assert forall|i: int|
            0 <= i < samples.len() && (#[trigger] samples[i]).finite() implies single::units(
            samples[i].magnitude(),
        ) <= loudest(samples) by {
            if i < rest.len() {
                assert(rest[i] == samples[i]);
            }
        }
        if loudest(samples) == loudest(rest) {
            if loudest(rest) != 0 {
                let i = choose|i: int|
                    0 <= i < rest.len() && (#[trigger] rest[i]).finite() && single::units(
                        rest[i].magnitude(),
                    ) == loudest(rest);
                assert(samples[i] == rest[i]);
            }
        } else {
            assert(samples[samples.len() - 1].finite());
        }
    }
}

/// The loudest of two runs of samples together is the larger of the two loudest.
pub proof fn law_loudest_of_joined(a: Seq<Single>, b: Seq<Single>)
    ensures
        loudest(a + b) == if loudest(a) >= loudest(b) {
            loudest(a)
        } else {
            loudest(b)
        },
    decreases b.len(),
{
    law_loudest_is_the_maximum(a);
    if b.len() == 0 {
        assert(a + b =~= a);
    } else {
        law_loudest_of_joined(a, b.drop_last());
        assert((a + b).drop_last() =~= a + b.drop_last());
        assert((a + b).last() == b.last());
    }
}

/// Silence has level zero.
pub proof fn law_silence_has_no_level(level: Single, count: nat)
    requires
        is_peak_of(level, Seq::new(count, |i: int| 0u8)),
    ensures
        level.bits == 0,
{
    let samples = samples_of(Seq::new(count, |i: int| 0u8));
    law_loudest_is_the_maximum(samples);
    single::lemma_units_landmarks();
    assert(forall|i: int| 0 <= i < samples.len() ==> (#[trigger] samples[i]).magnitude() == 0);
    single::lemma_units_order(level.bits as int, 0);
}

/// Whole samples that are followed by silence keep their peak.
pub proof fn law_silence_does_not_change_the_peak(level: Single, bytes: Seq<u8>, count: nat)
    requires
        bytes.len() % 4 == 0,
    ensures
        is_peak_of(level, bytes + Seq::new(count, |i: int| 0u8)) == is_peak_of(level, bytes),
{
    let silence = Seq::new(count, |i: int| 0u8);
    let quiet = samples_of(silence);
    assert(samples_of(bytes + silence) =~= samples_of(bytes) + quiet);
    law_loudest_of_joined(samples_of(bytes), quiet);
    law_loudest_is_the_maximum(samples_of(bytes));
    law_loudest_is_the_maximum(quiet);
    single::lemma_units_landmarks();
    assert(forall|i: int| 0 <= i < quiet.len() ==> (#[trigger] quiet[i]).magnitude() == 0);
}

/// The pattern of a sample without its sign, from its four bytes.
proof fn lemma_pattern_of_sample(bytes: Seq<u8>, i: int)
    requires
        0 <= i < bytes.len() / 4,
    ensures
        samples_of(bytes)[i].magnitude() == bytes[4 * i] + 0x100 * bytes[4 * i + 1] + 0x1_0000
            * bytes[4 * i + 2] + 0x100_0000 * (bytes[4 * i + 3] % 128),
{
    single::lemma_magnitude_of_bytes(
        bytes[4 * i],
        bytes[4 * i + 1],
        bytes[4 * i + 2],
        bytes[4 * i + 3],
    );
}

/// No finite sample of a buffer is louder than its peak, unless the peak is one already. A sample
/// is four bytes, the first of them the least significant.
pub proof fn law_peak_bounds_every_sample(level: Single, bytes: Seq<u8>, i: int)
    requires
        is_peak_of(level, bytes),
        0 <= i < bytes.len() / 4,
    ensures
        ({
            let pattern = bytes[4 * i] + 0x100 * bytes[4 * i + 1] + 0x1_0000 * bytes[4 * i + 2]
                + 0x100_0000 * (bytes[4 * i + 3] % 128);
            pattern < 0x7f80_0000 ==> pattern <= level.bits || level.bits == 0x3f80_0000
        }),
        level.bits <= 0x3f80_0000,
{
    lemma_pattern_of_sample(bytes, i);
    lemma_no_sample_is_louder(level, bytes, i);
}

/// The same of a sample by its place.
proof fn lemma_no_sample_is_louder(level: Single, bytes: Seq<u8>, i: int)
    requires
        is_peak_of(level, bytes),
        0 <= i < samples_of(bytes).len(),
    ensures
        ({
            let pattern = samples_of(bytes)[i].magnitude();
            pattern < 0x7f80_0000 ==> pattern <= level.bits || level.bits == 0x3f80_0000
        }),
{
    let samples = samples_of(bytes);
    let sample = samples[i];
    let pattern = sample.magnitude();
    law_loudest_is_the_maximum(samples);
    single::lemma_units_landmarks();
    single::lemma_units_order(level.bits as int, pattern);
    single::lemma_units_order(level.bits as int, single::ONE_BITS as int);
}

/// Where a peak above zero comes from: a finite sample of exactly that magnitude, or one above one
/// where the peak is one.
pub proof fn law_peak_is_the_level_of_a_sample(level: Single, bytes: Seq<u8>) -> (i: int)
    requires
        is_peak_of(level, bytes),
        level.bits > 0,
    ensures
        0 <= i < bytes.len() / 4,
        ({
            let pattern = bytes[4 * i] + 0x100 * bytes[4 * i + 1] + 0x1_0000 * bytes[4 * i + 2]
                + 0x100_0000 * (bytes[4 * i + 3] % 128);
            &&& pattern < 0x7f80_0000
            &&& level.bits == if pattern > 0x3f80_0000 {
                0x3f80_0000
            } else {
                pattern
            }
        }),
{
    let i = lemma_peak_of_a_sample(level, bytes);
    lemma_pattern_of_sample(bytes, i);
    i
}

/// The same of a sample by its place.
proof fn lemma_peak_of_a_sample(level: Single, bytes: Seq<u8>) -> (i: int)
    requires
        is_peak_of(level, bytes),
        level.bits > 0,
    ensures
        0 <= i < samples_of(bytes).len(),
        ({
            let pattern = samples_of(bytes)[i].magnitude();
            &&& pattern < 0x7f80_0000
            &&& level.bits == if pattern > 0x3f80_0000 {
                0x3f80_0000
            } else {
                pattern
            }
        }),
{
    let samples = samples_of(bytes);
    law_loudest_is_the_maximum(samples);
    single::lemma_units_landmarks();
    single::lemma_units_order(level.bits as int, 0);
    let i = choose|i: int|
        0 <= i < samples.len() && (#[trigger] samples[i]).finite() && single::units(
            samples[i].magnitude(),
        ) == loudest(samples);
    let pattern = samples[i].magnitude();
    single::lemma_units_order(level.bits as int, pattern);
    single::lemma_units_order(pattern, single::ONE_BITS as int);
    single::lemma_units_order(single::ONE_BITS as int, pattern);
    single::lemma_units_order(level.bits as int, single::ONE_BITS as int);
    i
}

/// A buffer without a finite sample other than zero has level zero: whatever else its samples are,
/// infinite or no numbers, they are not heard.
pub proof fn law_only_finite_samples_are_heard(level: Single, bytes: Seq<u8>)
    requires
        is_peak_of(level, bytes),
        forall|i: int|
            0 <= i < bytes.len() / 4 ==> {
                let pattern = #[trigger] bytes[4 * i] + 0x100 * bytes[4 * i + 1] + 0x1_0000
                    * bytes[4 * i + 2] + 0x100_0000 * (bytes[4 * i + 3] % 128);
                pattern == 0 || pattern >= 0x7f80_0000
            },
    ensures
        level.bits == 0,
{
    if level.bits > 0 {
        let i = law_peak_is_the_level_of_a_sample(level, bytes);
        assert(bytes[4 * i] >= 0);
    }
}

/// The front of a queue is its first bytes, and zero where it has none.
pub proof fn law_padded_prefix_by_byte(queue: Seq<u8>, count: nat)
    ensures
        padded_prefix(queue, count).len() == count,
        forall|i: int|
            0 <= i < count && i < queue.len() ==> #[trigger] padded_prefix(queue, count)[i]
                == queue[i],
        forall|i: int|
            queue.len() <= i < count ==> #[trigger] padded_prefix(queue, count)[i] == 0,
{
}

/// Metering the front of a queue that is long enough is metering those bytes as a buffer.
pub proof fn law_queue_prefix_is_a_buffer(queue: Seq<u8>, count: nat)
    requires
        count <= queue.len(),
    ensures
        padded_prefix(queue, count) == queue.take(count as int),
{
    assert(padded_prefix(queue, count) =~= queue.take(count as int));
}

} // verus!
