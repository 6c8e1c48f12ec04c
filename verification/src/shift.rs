//! Shift-exponent selection.
//!
//! Every block carries one shift exponent that scales all of its samples.
//! Each sample asks for the least exponent under which it lies within eight
//! steps of zero; the block takes the exponent that most of its samples ask
//! for.

use vstd::prelude::*;
use vstd::arithmetic::power2::{lemma2_to64, pow2};
use vstd::std_specs::bits::{axiom_u16_leading_zeros, u16_leading_zeros};

verus! {

/// The shift exponents a block header may carry.
pub open spec fn valid_shift(shift: int) -> bool {
    1 <= shift <= 14
}

/// The bit-pattern magnitude of a sample: the sample itself when it is not
/// negative, its one's complement when it is.
pub open spec fn magnitude(sample: i16) -> int {
    if sample < 0 {
        -(sample as int) - 1
    } else {
        sample as int
    }
}

/// The exponent one sample asks for: 1 while its magnitude stays below 8,
/// and one more for each further doubling of the magnitude.
pub open spec fn needed_shift(sample: i16) -> int {
    let m = magnitude(sample);
    if m < 8 {
        1
    } else if m < 16 {
        2
    } else if m < 32 {
        3
    } else if m < 64 {
        4
    } else if m < 128 {
        5
    } else if m < 256 {
        6
    } else if m < 512 {
        7
    } else if m < 1024 {
        8
    } else if m < 2048 {
        9
    } else if m < 4096 {
        10
    } else if m < 8192 {
        11
    } else if m < 16384 {
        12
    } else {
        13
    }
}

/// The needed exponent is the least `s >= 1` with `-2^(s+2) <= sample < 2^(s+2)`:
/// it is at most `s` exactly when the sample lies in that range.
pub proof fn lemma_needed_shift_is_least(sample: i16, s: int)
    requires
        1 <= s <= 13,
    ensures
        1 <= needed_shift(sample) <= 13,
        needed_shift(sample) <= s <==> -pow2((s + 2) as nat) <= sample < pow2((s + 2) as nat),
{
    lemma2_to64();
}

/// The needed exponent in terms of leading zero bits: fourteen less the
/// number of leading zeros of the 16-bit magnitude, that number capped at 13.
pub proof fn lemma_needed_shift_leading_zeros(sample: i16)
    ensures
        ({
            let zeroes = u16_leading_zeros(magnitude(sample) as u16) as int;
            needed_shift(sample) == 14 - (if zeroes > 13 { 13 } else { zeroes })
        }),
{
    let m: u16 = magnitude(sample) as u16;
    let z: u32 = u16_leading_zeros(m);
    axiom_u16_leading_zeros(m);
    let k: u16 = (16 - z) as u16;
    assert(m >> k == 0);
    if z < 16 {
        let t: u16 = (15 - z) as u16;
        assert((m >> t) & 1u16 != 0u16);
        assert(t == k - 1);
        assert(m < 32768 && m >> k == 0 && (m >> t) & 1u16 != 0u16 && k <= 16 && t + 1 == k ==> {
            &&& (k == 1 ==> m == 1)
            &&& (k == 2 ==> 2 <= m < 4)
            &&& (k == 3 ==> 4 <= m < 8)
            &&& (k == 4 ==> 8 <= m < 16)
            &&& (k == 5 ==> 16 <= m < 32)
            &&& (k == 6 ==> 32 <= m < 64)
            &&& (k == 7 ==> 64 <= m < 128)
            &&& (k == 8 ==> 128 <= m < 256)
            &&& (k == 9 ==> 256 <= m < 512)
            &&& (k == 10 ==> 512 <= m < 1024)
            &&& (k == 11 ==> 1024 <= m < 2048)
            &&& (k == 12 ==> 2048 <= m < 4096)
            &&& (k == 13 ==> 4096 <= m < 8192)
            &&& (k == 14 ==> 8192 <= m < 16384)
            &&& (k == 15 ==> 16384 <= m)
            &&& k != 16
            &&& k != 0
        }) by (bit_vector);
    }
}

/// The exponent that `sample` needs.
pub fn calc_shift(sample: &i16) -> (needed: u32)
    ensures
        needed == needed_shift(*sample),
        1 <= needed <= 13,
{
    let value: i16 = *sample;
    let pattern: u16 = if value < 0 {
        (-(value + 1)) as u16
    } else {
        value as u16
    };
    let counted: u32 = pattern.leading_zeros();
    let zeroes: u32 = if counted > 13 {
        13
    } else {
        counted
    };
    proof {
        axiom_u16_leading_zeros(pattern);
        lemma_needed_shift_leading_zeros(value);
    }
    14 - zeroes
}

/// How many samples of `frame` need exactly the exponent `shift`.
pub open spec fn shift_count(frame: Seq<i16>, shift: int) -> nat
    decreases frame.len(),
{
    if frame.len() == 0 {
        0
    } else {
        shift_count(frame.drop_last(), shift) + if needed_shift(frame.last()) == shift {
            1nat
        } else {
            0nat
        }
    }
}

/// The exponent chosen for a whole frame.
///
/// The samples are taken in order, each raising the count of the exponent
/// it needs. The lead changes hands only when a count rises above the
/// leader's, so among exponents that end with equal counts the one that
/// got there first stays chosen. An empty frame gets the least exponent.
pub open spec fn selected_shift(frame: Seq<i16>) -> int
    decreases frame.len(),
{
    if frame.len() == 0 {
        1
    } else {
        let seen = frame.drop_last();
        let asked = needed_shift(frame.last());
        if shift_count(frame, asked) > shift_count(seen, selected_shift(seen)) {
            asked
        } else {
            selected_shift(seen)
        }
    }
}

/// Whatever the frame, the chosen exponent is one that a sample can need.
pub proof fn lemma_selected_shift_range(frame: Seq<i16>)
    ensures
        1 <= selected_shift(frame) <= 13,
        valid_shift(selected_shift(frame)),
    decreases frame.len(),
{
    if frame.len() > 0 {
        lemma_selected_shift_range(frame.drop_last());
    }
}

/// `shift` is the first exponent whose count reaches `count`: some sample
/// brings it there while every count before that sample is still below.
pub open spec fn reaches_first(frame: Seq<i16>, shift: int, count: nat) -> bool {
    exists|p: int|
        0 <= p < frame.len() && needed_shift(frame[p]) == shift && shift_count(
            frame.take(p + 1),
            shift,
        ) == count && forall|other: int| #[trigger] shift_count(frame.take(p), other) < count
}

/// `shift` is the most frequent needed exponent of `frame`, and of all
/// exponents that frequent it is the first to have got to that count.
pub open spec fn is_first_most_frequent(frame: Seq<i16>, shift: int) -> bool {
    &&& forall|other: int| #[trigger] shift_count(frame, other) <= shift_count(frame, shift)
    &&& reaches_first(frame, shift, shift_count(frame, shift))
}

proof fn lemma_shift_count_prefix(frame: Seq<i16>, p: int, q: int, shift: int)
    requires
        0 <= p <= q <= frame.len(),
    ensures
        shift_count(frame.take(p), shift) <= shift_count(frame.take(q), shift),
    decreases q - p,
{
    if p < q {
        lemma_shift_count_prefix(frame, p, q - 1, shift);
        assert(frame.take(q).drop_last() =~= frame.take(q - 1));
    }
}

/// The chosen exponent of a frame that holds a sample is its most frequent
/// needed exponent, ties going to the exponent that reached the winning
/// count first.
pub proof fn lemma_selected_shift_is_first_most_frequent(frame: Seq<i16>)
    requires
        frame.len() > 0,
    ensures
        is_first_most_frequent(frame, selected_shift(frame)),
    decreases frame.len(),
{
    let seen = frame.drop_last();
    let asked = needed_shift(frame.last());
    let last = frame.len() - 1;
    let chosen = selected_shift(frame);
    let top = shift_count(frame, chosen);
    assert(frame.take(last + 1) =~= frame);
    assert(frame.take(last) =~= seen);
    if seen.len() == 0 {
        assert(forall|other: int| #[trigger] shift_count(seen, other) == 0);
        assert(shift_count(seen, selected_shift(seen)) == 0);
        assert(shift_count(seen, asked) == 0);
        assert(shift_count(frame, asked) == 1);
        assert(chosen == asked && top == 1);
        assert(needed_shift(frame[last]) == chosen);
        assert(shift_count(frame.take(last + 1), chosen) == top);
        assert(forall|other: int| #[trigger] shift_count(frame.take(last), other) < top);
        assert(reaches_first(frame, chosen, top));
        assert forall|other: int| #[trigger] shift_count(frame, other) <= top by {
            assert(shift_count(seen, other) == 0);
        }
    } else {
        lemma_selected_shift_is_first_most_frequent(seen);
        let leader = selected_shift(seen);
        let lead = shift_count(seen, leader);
        assert(forall|other: int| #[trigger] shift_count(seen, other) <= lead);
        assert(shift_count(seen, asked) <= lead);
        if shift_count(frame, asked) <= lead {
            assert(chosen == leader && top == lead);
            let p = choose|p: int|
                0 <= p < seen.len() && needed_shift(seen[p]) == leader && shift_count(
                    seen.take(p + 1),
                    leader,
                ) == lead && forall|other: int| #[trigger]
                    shift_count(seen.take(p), other) < lead;
            assert(seen.take(p + 1) =~= frame.take(p + 1));
            assert(seen.take(p) =~= frame.take(p));
            assert(frame[p] == seen[p]);
            assert(forall|other: int| #[trigger] shift_count(frame.take(p), other) < top);
            assert(reaches_first(frame, chosen, top));
        } else {
            assert(chosen == asked && top == lead + 1);
            assert(needed_shift(frame[last]) == chosen);
            assert(shift_count(frame.take(last + 1), chosen) == top);
            assert(forall|other: int| #[trigger] shift_count(frame.take(last), other) < top);
            assert(reaches_first(frame, chosen, top));
        }
        assert forall|other: int| #[trigger] shift_count(frame, other) <= top by {
            assert(shift_count(seen, other) <= lead);
        }
    }
}

/// There is only one such exponent, so the property above says which
/// exponent is chosen.
pub proof fn lemma_first_most_frequent_is_unique(frame: Seq<i16>, a: int, b: int)
    requires
        is_first_most_frequent(frame, a),
        is_first_most_frequent(frame, b),
    ensures
        a == b,
{
    let count = shift_count(frame, a);
    assert(shift_count(frame, b) <= shift_count(frame, a));
    assert(shift_count(frame, a) <= shift_count(frame, b));
    let pa = choose|p: int|
        0 <= p < frame.len() && needed_shift(frame[p]) == a && shift_count(frame.take(p + 1), a)
            == count && forall|other: int| #[trigger] shift_count(frame.take(p), other) < count;
    let pb = choose|p: int|
        0 <= p < frame.len() && needed_shift(frame[p]) == b && shift_count(frame.take(p + 1), b)
            == count && forall|other: int| #[trigger] shift_count(frame.take(p), other) < count;
    if pa < pb {
        lemma_shift_count_prefix(frame, pa + 1, pb, a);
        assert(shift_count(frame.take(pb), a) < count);
    } else if pb < pa {
        lemma_shift_count_prefix(frame, pb + 1, pa, b);
        assert(shift_count(frame.take(pa), b) < count);
    }
}

/// Chooses the exponent for one frame.
pub fn select_shift(frame: &[i16]) -> (shift: u32)
    ensures
        shift == selected_shift(frame@),
        valid_shift(shift as int),
        shift <= 13,
{
    let mut counts: Vec<usize> = vec![0usize; 14];
    let mut best: u32 = 1;
    let mut best_count: usize = 0;
    let mut i: usize = 0;
    assert(frame@.take(0) =~= Seq::<i16>::empty());
    while i < frame.len()
        invariant
            i <= frame.len(),
            counts.len() == 14,
            forall|v: int|
                0 <= v < 14 ==> counts[v] == #[trigger] shift_count(frame@.take(i as int), v),
            forall|v: int| 0 <= v < 14 ==> #[trigger] counts[v] <= i,
            best == selected_shift(frame@.take(i as int)),
            best_count == shift_count(frame@.take(i as int), best as int),
            1 <= best <= 13,
        decreases frame.len() - i,
    {
        let needed: u32 = calc_shift(&frame[i]);
        let count: usize = counts[needed as usize] + 1;
        let ghost before = frame@.take(i as int);
        let ghost after = frame@.take(i + 1);
        let ghost old_counts = counts@;
        counts.set(needed as usize, count);
        proof {
            assert(after.drop_last() =~= before);
            assert(after.last() == frame@[i as int]);
            assert(needed_shift(after.last()) == needed);
            assert forall|v: int| 0 <= v < 14 implies counts[v] == #[trigger] shift_count(
                after,
                v,
            ) by {
                assert(old_counts[v] == shift_count(before, v));
            }
            assert(count == shift_count(after, needed as int));
        }
        if count > best_count {
            best = needed;
            best_count = count;
        }
        i += 1;
    }
    assert(frame@.take(i as int) =~= frame@);
    best
}

} // verus!
