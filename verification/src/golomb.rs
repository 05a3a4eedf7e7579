//! Golomb-Rice coding of a non-decreasing sequence of numbers.
//!
//! Each number is coded by its step from the one before: the step's quotient by
//! `2^p` in unary (that many one bits and a closing zero bit), then its remainder
//! in `p` bits, most significant first.

use crate::bits::{
    be_bits, be_value, lemma_be_bits_len, lemma_be_value_bound, lemma_be_value_of_bits,
};
use crate::bitstream::{unread_bits, written_bits, BitSink, BitSource};
use vstd::arithmetic::div_mod::{
    lemma_div_is_ordered, lemma_div_multiples_vanish, lemma_fundamental_div_mod, lemma_mod_bound,
};
use vstd::arithmetic::power2::{lemma2_to64, lemma_pow2_pos, lemma_pow2_strictly_increases, pow2};
use vstd::bits::{
    lemma_u64_low_bits_mask_is_mod, lemma_u64_shl_is_mul, lemma_u64_shr_is_div, low_bits_mask,
};
use vstd::prelude::*;

verus! {

/// `count` one bits.
pub open spec fn ones(count: nat) -> Seq<bool> {
    Seq::new(count, |i: int| true)
}

/// The unary code of `q`: `q` one bits and a closing zero bit.
pub open spec fn unary(q: nat) -> Seq<bool> {
    ones(q).push(false)
}

/// The code of one step: quotient in unary, remainder in `p` bits.
pub open spec fn rice_code(delta: nat, p: nat) -> Seq<bool> {
    unary(delta / pow2(p)) + be_bits(delta % pow2(p), p)
}

/// Whether no number in `values` is smaller than one before it.
pub open spec fn non_decreasing(values: Seq<nat>) -> bool {
    forall|i: int, j: int| 0 <= i <= j < values.len() ==> values[i] <= values[j]
}

/// The codes of the steps from `start` to the first value and from each value to the next.
pub open spec fn rice_stream(values: Seq<nat>, start: nat, p: nat) -> Seq<bool>
    decreases values.len(),
{
    if values.len() == 0 {
        Seq::empty()
    } else {
        rice_code((values[0] - start) as nat, p) + rice_stream(values.drop_first(), values[0], p)
    }
}

/// The number of one bits at the head of `bits`.
pub open spec fn leading_ones(bits: Seq<bool>) -> nat
    decreases bits.len(),
{
    if bits.len() == 0 || !bits[0] {
        0
    } else {
        1 + leading_ones(bits.drop_first())
    }
}

/// The step coded at the head of `bits` and the width of its code, or `None`
/// where the bits end before the code does.
pub open spec fn rice_decode(bits: Seq<bool>, p: nat) -> Option<(nat, nat)> {
    let q = leading_ones(bits);
    if q + 1 + p <= bits.len() {
        Some((q * pow2(p) + be_value(bits.subrange((q + 1) as int, (q + 1 + p) as int)), q + 1 + p))
    } else {
        None
    }
}

/// The numbers coded in `bits`: the running sums, from `start`, of the first
/// `count` steps, or of as many as are complete where the bits end sooner.
pub open spec fn rice_values(bits: Seq<bool>, p: nat, count: nat, start: nat) -> Seq<nat>
    decreases count,
{
    if count == 0 {
        Seq::empty()
    } else {
        match rice_decode(bits, p) {
            None => Seq::empty(),
            Some((delta, width)) => seq![start + delta] + rice_values(
                bits.skip(width as int),
                p,
                (count - 1) as nat,
                start + delta,
            ),
        }
    }
}

/// The last of `values`, or `start` where there is none.
pub open spec fn last_or(values: Seq<nat>, start: nat) -> nat {
    if values.len() == 0 {
        start
    } else {
        values.last()
    }
}

/// The leading one bits are one bits, and what follows them, if anything, is a
/// zero bit.
pub proof fn lemma_leading_ones_bound(bits: Seq<bool>)
    ensures
        leading_ones(bits) <= bits.len(),
        leading_ones(bits) < bits.len() ==> !bits[leading_ones(bits) as int],
        forall|i: int| 0 <= i < leading_ones(bits) ==> bits[i],
    decreases bits.len(),
{
    if bits.len() == 0 || !bits[0] {
    } else {
        lemma_leading_ones_bound(bits.drop_first());
        assert forall|i: int| 0 <= i < leading_ones(bits) implies bits[i] by {
            if i > 0 {
                assert(bits[i] == bits.drop_first()[i - 1]);
            }
        }
        let k = leading_ones(bits.drop_first());
        if k < bits.drop_first().len() {
            assert(bits[(k + 1) as int] == bits.drop_first()[k as int]);
        }
    }
}

/// A run of one bits that ends in a zero bit is what `leading_ones` counts.
pub proof fn lemma_leading_ones_is(bits: Seq<bool>, q: nat)
    requires
        q <= bits.len(),
        forall|i: int| 0 <= i < q ==> bits[i],
        q < bits.len() ==> !bits[q as int],
    ensures
        leading_ones(bits) == q,
    decreases q,
{
    if q == 0 {
    } else {
        let rest = bits.drop_first();
        assert forall|i: int| 0 <= i < q - 1 implies rest[i] by {
            assert(rest[i] == bits[i + 1]);
        }
        if q - 1 < rest.len() {
            assert(rest[q - 1] == bits[q as int]);
        }
        lemma_leading_ones_is(rest, (q - 1) as nat);
    }
}

/// A code takes one bit for each unit of the quotient, the closing bit, and
/// `p` bits.
pub proof fn lemma_rice_code_len(delta: nat, p: nat)
    ensures
        rice_code(delta, p).len() == delta / pow2(p) + 1 + p,
{
    lemma_pow2_pos(p);
    lemma_be_bits_len(delta % pow2(p), p);
}

/// A code, whatever follows it, decodes to the step it was made from.
pub proof fn lemma_decode_code(delta: nat, p: nat, tail: Seq<bool>)
    ensures
        rice_decode(rice_code(delta, p) + tail, p) == Some((delta, rice_code(delta, p).len())),
{
    let q = delta / pow2(p);
    let r = delta % pow2(p);
    let bits = rice_code(delta, p) + tail;
    lemma_pow2_pos(p);
    lemma_be_bits_len(r, p);
    lemma_rice_code_len(delta, p);
    lemma_leading_ones_is(bits, q);
    let field = bits.subrange((q + 1) as int, (q + 1 + p) as int);
    assert(field == be_bits(r, p));
    lemma_mod_bound(delta as int, pow2(p) as int);
    lemma_be_value_of_bits(r, p);
    lemma_fundamental_div_mod(delta as int, pow2(p) as int);
    assert(q * pow2(p) == pow2(p) * q) by (nonlinear_arith);
}

/// The stream of a sequence with one more value is the stream of the sequence
/// followed by the code of the last step.
pub proof fn lemma_rice_stream_push(values: Seq<nat>, start: nat, p: nat, next: nat)
    ensures
        rice_stream(values.push(next), start, p) == rice_stream(values, start, p) + rice_code(
            (next - last_or(values, start)) as nat,
            p,
        ),
    decreases values.len(),
{
    let longer = values.push(next);
    if values.len() == 0 {
        assert(longer.drop_first() == Seq::<nat>::empty());
        assert(rice_stream(longer.drop_first(), next, p) == Seq::<bool>::empty());
    } else {
        assert(longer.drop_first() == values.drop_first().push(next));
        lemma_rice_stream_push(values.drop_first(), values[0], p, next);
        assert(last_or(values.drop_first(), values[0]) == last_or(values, start));
    }
}

/// Quotients of two numbers by `d` add up to at most the quotient of their sum.
proof fn lemma_quotients_add(a: nat, b: nat, d: nat)
    requires
        d > 0,
    ensures
        a / d + b / d <= (a + b) / d,
{
    lemma_fundamental_div_mod(a as int, d as int);
    lemma_fundamental_div_mod(b as int, d as int);
    let q = a / d + b / d;
    assert(d * q == d * (a / d) + d * (b / d)) by (nonlinear_arith)
        requires
            q == a / d + b / d,
    ;
    assert(d * q <= a + b);
    lemma_div_is_ordered((d * q) as int, (a + b) as int, d as int);
    lemma_div_multiples_vanish(q as int, d as int);
    assert(d * q == q * d) by (nonlinear_arith);
}

/// The length of a stream: `p + 1` bits for each value, and unary digits that
/// together count no more than the quotient by `2^p` of the whole way from
/// `start` to the last value.
pub proof fn lemma_rice_stream_len(values: Seq<nat>, start: nat, p: nat)
    requires
        non_decreasing(values),
        values.len() > 0 ==> start <= values[0],
    ensures
        rice_stream(values, start, p).len() <= values.len() * (p + 1) + (last_or(values, start)
            - start) / (pow2(p) as int),
        rice_stream(values, start, p).len() >= values.len() * (p + 1),
    decreases values.len(),
{
    lemma_pow2_pos(p);
    if values.len() > 0 {
        let rest = values.drop_first();
        assert forall|i: int, j: int| 0 <= i <= j < rest.len() implies rest[i] <= rest[j] by {
            assert(rest[i] == values[i + 1] && rest[j] == values[j + 1]);
        }
        if rest.len() > 0 {
            assert(rest[0] == values[1]);
            assert(rest.last() == values.last());
        }
        lemma_rice_stream_len(rest, values[0], p);
        let first = (values[0] - start) as nat;
        let further = (last_or(rest, values[0]) - values[0]) as nat;
        lemma_rice_code_len(first, p);
        lemma_quotients_add(first, further, pow2(p));
        assert(values.len() * (p + 1) == rest.len() * (p + 1) + (p + 1)) by (nonlinear_arith)
            requires
                values.len() == rest.len() + 1,
        ;
    }
}

/// Decoding the stream of a non-decreasing sequence gives the sequence back,
/// whatever bits follow the stream.
pub proof fn lemma_rice_roundtrip(values: Seq<nat>, start: nat, p: nat, tail: Seq<bool>)
    requires
        non_decreasing(values),
        values.len() > 0 ==> start <= values[0],
    ensures
        rice_values(rice_stream(values, start, p) + tail, p, values.len(), start) == values,
    decreases values.len(),
{
    if values.len() > 0 {
        let rest = values.drop_first();
        let delta = (values[0] - start) as nat;
        let code = rice_code(delta, p);
        let bits = rice_stream(values, start, p) + tail;
        assert forall|i: int, j: int| 0 <= i <= j < rest.len() implies rest[i] <= rest[j] by {
            assert(rest[i] == values[i + 1] && rest[j] == values[j + 1]);
        }
        if rest.len() > 0 {
            assert(rest[0] == values[1]);
        }
        assert(bits == code + (rice_stream(rest, values[0], p) + tail));
        lemma_decode_code(delta, p, rice_stream(rest, values[0], p) + tail);
        assert(bits.skip(code.len() as int) == rice_stream(rest, values[0], p) + tail);
        lemma_rice_roundtrip(rest, values[0], p, tail);
        assert(seq![values[0]] + rest == values);
    }
}

/// Two non-decreasing sequences with the same stream are the same sequence.
pub proof fn lemma_rice_stream_injective(a: Seq<nat>, b: Seq<nat>, start: nat, p: nat)
    requires
        non_decreasing(a),
        non_decreasing(b),
        a.len() > 0 ==> start <= a[0],
        b.len() > 0 ==> start <= b[0],
        rice_stream(a, start, p) == rice_stream(b, start, p),
    ensures
        a == b,
    decreases a.len(),
{
    lemma_rice_stream_len(a, start, p);
    lemma_rice_stream_len(b, start, p);
    assert(a.len() * (p + 1) >= a.len()) by (nonlinear_arith);
    assert(b.len() * (p + 1) >= b.len()) by (nonlinear_arith);
    if a.len() > 0 && b.len() > 0 {
        let rest_a = a.drop_first();
        let rest_b = b.drop_first();
        let tail_a = rice_stream(rest_a, a[0], p);
        let tail_b = rice_stream(rest_b, b[0], p);
        let code_a = rice_code((a[0] - start) as nat, p);
        let code_b = rice_code((b[0] - start) as nat, p);
        lemma_decode_code((a[0] - start) as nat, p, tail_a);
        lemma_decode_code((b[0] - start) as nat, p, tail_b);
        assert(a[0] == b[0]);
        assert((code_a + tail_a).skip(code_a.len() as int) == tail_a);
        assert((code_b + tail_b).skip(code_b.len() as int) == tail_b);
        assert forall|i: int, j: int| 0 <= i <= j < rest_a.len() implies rest_a[i] <= rest_a[j] by {
            assert(rest_a[i] == a[i + 1] && rest_a[j] == a[j + 1]);
        }
        assert forall|i: int, j: int| 0 <= i <= j < rest_b.len() implies rest_b[i] <= rest_b[j] by {
            assert(rest_b[i] == b[i + 1] && rest_b[j] == b[j + 1]);
        }
        if rest_a.len() > 0 {
            assert(rest_a[0] == a[1]);
        }
        if rest_b.len() > 0 {
            assert(rest_b[0] == b[1]);
        }
        lemma_rice_stream_injective(rest_a, rest_b, a[0], p);
        assert(a == seq![a[0]] + rest_a);
        assert(b == seq![b[0]] + rest_b);
    }
}

/// Decoded numbers start at or above `start`, never decrease, and are at most `count`.
pub proof fn lemma_rice_values_ordered(bits: Seq<bool>, p: nat, count: nat, start: nat)
    ensures
        rice_values(bits, p, count, start).len() <= count,
        non_decreasing(rice_values(bits, p, count, start)),
        forall|i: int|
            0 <= i < rice_values(bits, p, count, start).len() ==> start <= rice_values(
                bits,
                p,
                count,
                start,
            )[i],
    decreases count,
{
    if count > 0 {
        match rice_decode(bits, p) {
            None => {},
            Some((delta, width)) => {
                let rest = rice_values(
                    bits.skip(width as int),
                    p,
                    (count - 1) as nat,
                    start + delta,
                );
                lemma_rice_values_ordered(
                    bits.skip(width as int),
                    p,
                    (count - 1) as nat,
                    start + delta,
                );
                let all = rice_values(bits, p, count, start);
                assert(all == seq![start + delta] + rest);
                assert forall|i: int| 0 <= i < all.len() implies start <= all[i] by {
                    if i > 0 {
                        assert(all[i] == rest[i - 1]);
                    }
                }
                assert forall|i: int, j: int| 0 <= i <= j < all.len() implies all[i] <= all[j] by {
                    if i > 0 {
                        assert(all[i] == rest[i - 1] && all[j] == rest[j - 1]);
                    } else if j > 0 {
                        assert(all[j] == rest[j - 1]);
                    }
                }
            },
        }
    }
}

/// Where a number `x` can stand among the decoded numbers, seen from the first
/// step: nowhere below the first number, and above it only among the numbers
/// that follow.
pub proof fn lemma_rice_values_head(bits: Seq<bool>, p: nat, count: nat, start: nat, x: nat)
    requires
        count > 0,
    ensures
        match rice_decode(bits, p) {
            None => !rice_values(bits, p, count, start).contains(x),
            Some((delta, width)) => {
                &&& x < start + delta ==> !rice_values(bits, p, count, start).contains(x)
                &&& x == start + delta ==> rice_values(bits, p, count, start).contains(x)
                &&& x > start + delta ==> (rice_values(bits, p, count, start).contains(x)
                    <==> rice_values(
                    bits.skip(width as int),
                    p,
                    (count - 1) as nat,
                    start + delta,
                ).contains(x))
            },
        },
{
    match rice_decode(bits, p) {
        None => {},
        Some((delta, width)) => {
            let rest = rice_values(bits.skip(width as int), p, (count - 1) as nat, start + delta);
            let all = rice_values(bits, p, count, start);
            lemma_rice_values_ordered(bits.skip(width as int), p, (count - 1) as nat, start + delta);
            assert(all == seq![start + delta] + rest);
            assert(all[0] == start + delta);
            assert forall|i: int| 0 < i < all.len() implies all[i] == rest[i - 1] by {}
            if rest.contains(x) {
                let j = choose|j: int| 0 <= j < rest.len() && rest[j] == x;
                assert(all[j + 1] == x);
            }
            if all.contains(x) && x != start + delta {
                let i = choose|i: int| 0 <= i < all.len() && all[i] == x;
                assert(rest[i - 1] == x);
            }
        },
    }
}

/// What the first step says of all the decoded numbers: the first number is
/// among them, none is below it, and those above it are among the numbers that
/// follow. Where no step can be decoded there are no numbers.
pub proof fn lemma_rice_values_step(bits: Seq<bool>, p: nat, count: nat, start: nat)
    requires
        count > 0,
    ensures
        rice_decode(bits, p) is None ==> rice_values(bits, p, count, start).len() == 0,
        rice_decode(bits, p) is Some ==> {
            let (delta, width) = rice_decode(bits, p).unwrap();
            let all = rice_values(bits, p, count, start);
            let rest = rice_values(bits.skip(width as int), p, (count - 1) as nat, start + delta);
            &&& all.contains(start + delta)
            &&& forall|x: nat| x < start + delta ==> !#[trigger] all.contains(x)
            &&& forall|x: nat|
                #![trigger all.contains(x)]
                #![trigger rest.contains(x)]
                x > start + delta ==> (all.contains(x) <==> rest.contains(x))
        },
{
    if rice_decode(bits, p) is Some {
        let (delta, width) = rice_decode(bits, p).unwrap();
        let all = rice_values(bits, p, count, start);
        let rest = rice_values(bits.skip(width as int), p, (count - 1) as nat, start + delta);
        lemma_rice_values_head(bits, p, count, start, start + delta);
        assert forall|x: nat| x < start + delta implies !#[trigger] all.contains(x) by {
            lemma_rice_values_head(bits, p, count, start, x);
        }
        assert forall|x: nat|
            #![trigger all.contains(x)]
            #![trigger rest.contains(x)]
            x > start + delta implies (all.contains(x) <==> rest.contains(x)) by {
            lemma_rice_values_head(bits, p, count, start, x);
        }
    }
}

/// Appends the code of `delta` to the sink: the quotient by `2^p` in unary, then
/// the remainder in `p` bits.
pub(crate) fn write_value(sink: &mut BitSink, delta: u64, p: u8)
    requires
        p <= 32,
    ensures
        written_bits(*final(sink)) == written_bits(*old(sink)) + rice_code(delta as nat, p as nat),
{
    let ghost before = written_bits(*sink);
    let shift: u64 = p as u64;
    proof {
        lemma2_to64();
        lemma_pow2_pos(p as nat);
        lemma_pow2_strictly_increases(p as nat, 64);
        lemma_u64_shl_is_mul(1, shift);
        lemma_u64_low_bits_mask_is_mod(delta, p as nat);
        lemma_u64_shr_is_div(delta, shift);
        lemma_mod_bound(delta as int, pow2(p as nat) as int);
    }
    let mask: u64 = (1u64 << shift) - 1;
    let remainder: u64 = delta & mask;
    let quotient: u64 = delta >> shift;
    assert(mask == low_bits_mask(p as nat));
    assert(remainder == delta as nat % pow2(p as nat));
    assert(quotient == delta as nat / pow2(p as nat));
    let mut done: u64 = 0;
    while done < quotient
        invariant
            done <= quotient,
            written_bits(*sink) == before + ones(done as nat),
        decreases quotient - done,
    {
        sink.write_bit(true);
        done = done + 1;
        assert(ones(done as nat) == ones((done - 1) as nat).push(true));
        assert(before + ones(done as nat) == (before + ones((done - 1) as nat)).push(true));
    }
    sink.write_bit(false);
    assert(written_bits(*sink) == before + unary(quotient as nat));
    sink.write_bits(p as u32, remainder);
    assert(written_bits(*sink) == before + rice_code(delta as nat, p as nat));
}

/// Reads the step coded at the head of the source. `None` where the bits end
/// before the code does, or where the step is too large for 64 bits; the
/// source is then left anywhere.
pub(crate) fn read_next_value(source: &mut BitSource, p: u8) -> (step: Option<u64>)
    requires
        p <= 32,
    ensures
        step is Some <==> rice_decode(unread_bits(*old(source)), p as nat) is Some && rice_decode(
            unread_bits(*old(source)),
            p as nat,
        ).unwrap().0 <= u64::MAX,
        step is Some ==> step.unwrap() == rice_decode(
            unread_bits(*old(source)),
            p as nat,
        ).unwrap().0 && unread_bits(*final(source)) == unread_bits(*old(source)).skip(
            rice_decode(unread_bits(*old(source)), p as nat).unwrap().1 as int,
        ),
{
    let ghost bits = unread_bits(*source);
    let shift: u64 = p as u64;
    let mut quotient: u64 = 0;
    proof {
        lemma_leading_ones_bound(bits);
        lemma_pow2_pos(p as nat);
    }
    loop
        invariant_except_break
            unread_bits(*source) == bits.skip(quotient as int),
        invariant
            bits == unread_bits(*old(source)),
            quotient <= leading_ones(bits),
            leading_ones(bits) <= bits.len(),
            leading_ones(bits) < bits.len() ==> !bits[leading_ones(bits) as int],
            forall|i: int| 0 <= i < leading_ones(bits) ==> bits[i],
            pow2(p as nat) > 0,
        ensures
            quotient == leading_ones(bits),
            quotient < bits.len(),
            unread_bits(*source) == bits.skip(quotient + 1),
        decreases bits.len() - quotient,
    {
        match source.read_bit() {
            None => {
                return None;
            },
            Some(true) => {
                assert(bits[quotient as int]);
                if quotient == u64::MAX {
                    assert(leading_ones(bits) * pow2(p as nat) >= leading_ones(bits))
                        by (nonlinear_arith)
                        requires
                            pow2(p as nat) > 0,
                    ;
                    return None;
                }
                assert(bits.skip(quotient as int).skip(1) == bits.skip(quotient + 1));
                quotient = quotient + 1;
            },
            Some(false) => {
                assert(!bits[quotient as int]);
                assert(bits.skip(quotient as int).skip(1) == bits.skip(quotient + 1));
                break ;
            },
        }
    }
    let ghost field = bits.subrange(quotient + 1, quotient + 1 + p);
    match source.read_bits(p as u32) {
        None => None,
        Some(remainder) => {
            let ghost unit = pow2(p as nat);
            proof {
                assert(bits.skip(quotient + 1).take(p as int) == field);
                assert(bits.skip(quotient + 1).skip(p as int) == bits.skip(quotient + 1 + p));
                lemma_be_value_bound(field);
                lemma2_to64();
                lemma_pow2_strictly_increases(p as nat, 64);
                lemma_u64_shr_is_div(u64::MAX, shift);
                lemma_fundamental_div_mod(u64::MAX as int, unit as int);
                lemma_mod_bound(u64::MAX as int, unit as int);
            }
            let limit: u64 = u64::MAX >> shift;
            if quotient > limit {
                assert(quotient * unit > u64::MAX) by (nonlinear_arith)
                    requires
                        quotient >= limit + 1,
                        u64::MAX == unit * limit + (u64::MAX as int) % (unit as int),
                        (u64::MAX as int) % (unit as int) < unit,
                ;
                None
            } else {
                proof {
                    assert(quotient * unit <= u64::MAX) by (nonlinear_arith)
                        requires
                            quotient <= limit,
                            unit * limit <= u64::MAX,
                    ;
                    lemma_u64_shl_is_mul(quotient, shift);
                    lemma_u64_shl_is_mul(1, shift);
                }
                let high: u64 = quotient << shift;
                assert(high | remainder == high + remainder) by (bit_vector)
                    requires
                        shift <= 32,
                        remainder < (1u64 << shift),
                        quotient <= (u64::MAX >> shift),
                        high == quotient << shift,
                ;
                Some(high | remainder)
            }
        },
    }
}

} // verus!
