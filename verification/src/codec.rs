//! The executable Golomb-Rice codec: one codeword per value, a unary quotient
//! closed by a zero bit, then the remainder in exactly `p` bits, most
//! significant first.

use crate::bits::{bit_seq, max_bits, BitStream};
use crate::model::{
    be_val, decode_all, decode_ok, decoded, golomb_code, lemma_be_bits_index, lemma_be_bits_len,
    lemma_be_bits_of_be_val, lemma_be_val_bound, lemma_be_val_snoc, lemma_decode_cons,
    lemma_decode_short, lemma_decode_trues, lemma_golomb_code_len, lemma_unary_as_repeat,
    lemma_unary_len, repeat_true, to_nats, unary_code,
};
use crate::GcsError;
use vstd::arithmetic::div_mod::{
    lemma_div_basics, lemma_div_denominator, lemma_fundamental_div_mod,
    lemma_mod_division_less_than_divisor,
};
use vstd::arithmetic::mul::lemma_mul_inequality;
use vstd::arithmetic::power2::{
    lemma2_to64, lemma_pow2_pos, lemma_pow2_strictly_increases, lemma_pow2_unfold, pow2,
};
use vstd::prelude::*;

verus! {

/// `2^p` as a 64-bit integer.
pub fn pow2_u64(p: u8) -> (r: u64)
    requires
        p < 64,
    ensures
        r as nat == pow2(p as nat),
        r >= 1,
{
    let mut r: u64 = 1;
    let mut i: u8 = 0;
    proof {
        lemma2_to64();
    }
    while i < p
        invariant
            i <= p,
            p < 64,
            r as nat == pow2(i as nat),
        decreases p - i,
    {
        proof {
            lemma_pow2_unfold((i + 1) as nat);
            lemma_pow2_strictly_increases((i + 1) as nat, 64);
            lemma2_to64();
        }
        r = r * 2;
        i = i + 1;
    }
    proof {
        lemma_pow2_pos(p as nat);
    }
    r
}

/// Relies on num_integer's `div_rem`: the truncated quotient and remainder,
/// which agree with mathematical division for unsigned arguments. It panics
/// on a zero divisor, which the precondition rules out.
#[verifier::external_body]
fn div_rem_u64(a: u64, b: u64) -> (r: (u64, u64))
    requires
        b >= 1,
    ensures
        r.0 as nat == a as nat / b as nat,
        r.1 as nat == a as nat % b as nat,
{
    num_integer::div_rem(a, b)
}

/// Encode one value as a Golomb-Rice codeword with modulus `2^p`.
///
/// Succeeds exactly when `p` lies in `[1, 64)` and the codeword — whose length
/// grows with the quotient `value / 2^p` — fits the bit container.
pub fn golomb_encode(value: u64, p: u8) -> (r: Result<BitStream, GcsError>)
    ensures
        (match r {
            Ok(bs) => 1 <= p < 64 && golomb_code(value as nat, p as nat).len() <= max_bits()
                && bit_seq(bs) == golomb_code(value as nat, p as nat),
            Err(e) => e == GcsError::InvalidParameter && (p == 0 || p >= 64 || golomb_code(
                value as nat,
                p as nat,
            ).len() > max_bits()),
        }),
{
    if p == 0 || p >= 64 {
        return Err(GcsError::InvalidParameter);
    }
    let m = pow2_u64(p);
    let (quo, rem) = div_rem_u64(value, m);
    let cap: u64 = (usize::MAX / 8) as u64;
    proof {
        lemma_golomb_code_len(value as nat, p as nat);
        lemma_pow2_pos(p as nat);
        lemma_mod_division_less_than_divisor(value as int, m as int);
    }
    if 1 + (p as u64) > cap || quo > cap - 1 - (p as u64) {
        return Err(GcsError::InvalidParameter);
    }
    let mut out = BitStream::new();
    let mut i: u64 = 0;
    proof {
        assert(bit_seq(out) =~= repeat_true(0));
    }
    while i < quo
        invariant
            i <= quo,
            quo as nat + 1 + p as nat <= max_bits(),
            bit_seq(out) == repeat_true(i as nat),
        decreases quo - i,
    {
        out.push(true);
        i = i + 1;
        proof {
            assert(bit_seq(out) =~= repeat_true(i as nat));
        }
    }
    out.push(false);
    proof {
        lemma_unary_as_repeat(quo as nat);
        lemma_unary_len(quo as nat);
        assert(bit_seq(out) =~= unary_code(quo as nat));
    }
    // Remainder bits, gathered least significant first, then emitted in
    // most-significant-first order.
    let mut tmp: Vec<bool> = Vec::new();
    let mut r2: u64 = rem;
    let mut j: u8 = 0;
    proof {
        lemma2_to64();
        lemma_div_basics(rem as int);
    }
    while j < p
        invariant
            j <= p,
            p < 64,
            tmp@.len() == j as nat,
            r2 as nat == rem as nat / pow2(j as nat),
            forall|k: int|
                0 <= k < j ==> tmp@[k] == ((rem as nat / pow2(k as nat)) % 2 == 1),
        decreases p - j,
    {
        tmp.push(r2 % 2 == 1);
        proof {
            lemma_pow2_pos(j as nat);
            lemma_div_denominator(rem as int, pow2(j as nat) as int, 2);
            lemma_pow2_unfold((j + 1) as nat);
        }
        r2 = r2 / 2;
        j = j + 1;
    }
    let ghost rbits = crate::model::be_bits(rem as nat, p as nat);
    proof {
        lemma_be_bits_len(rem as nat, p as nat);
        assert(rbits.subrange(0, 0) =~= Seq::<bool>::empty());
        assert(bit_seq(out) =~= unary_code(quo as nat) + rbits.subrange(0, 0));
    }
    let mut j2: u8 = 0;
    while j2 < p
        invariant
            j2 <= p,
            p < 64,
            quo as nat + 1 + p as nat <= max_bits(),
            tmp@.len() == p as nat,
            (rem as nat) < pow2(p as nat),
            forall|k: int|
                0 <= k < p ==> tmp@[k] == ((rem as nat / pow2(k as nat)) % 2 == 1),
            rbits == crate::model::be_bits(rem as nat, p as nat),
            bit_seq(out) == unary_code(quo as nat) + rbits.subrange(0, j2 as int),
        decreases p - j2,
    {
        let b = tmp[(p - 1 - j2) as usize];
        proof {
            lemma_be_bits_index(rem as nat, p as nat, j2 as int);
            lemma_be_bits_len(rem as nat, p as nat);
            lemma_unary_len(quo as nat);
            assert(b == rbits[j2 as int]);
            assert(bit_seq(out).len() == quo as nat + 1 + j2 as nat);
        }
        out.push(b);
        j2 = j2 + 1;
        proof {
            assert(rbits.subrange(0, j2 as int) =~= rbits.subrange(0, j2 - 1).push(
                rbits[j2 - 1],
            ));
            assert(bit_seq(out) =~= unary_code(quo as nat) + rbits.subrange(0, j2 as int));
        }
    }
    proof {
        assert(rbits.subrange(0, p as int) =~= rbits);
        lemma_fundamental_div_mod(value as int, m as int);
        assert(bit_seq(out) =~= golomb_code(value as nat, p as nat));
    }
    Ok(out)
}

/// The decode of the whole stream equals the values taken so far followed by
/// the decode of the suffix at `pos`, and fails exactly when that suffix fails.
spec fn decode_rel(full: Seq<bool>, pos: int, out: Seq<u64>, p: nat) -> bool {
    decode_all(full, p) == (match decode_all(full.skip(pos), p) {
        Some(t) => Some(to_nats(out) + t),
        None => None::<Seq<nat>>,
    })
}

/// Decode a whole bitstream greedily into the values its codewords stand for.
///
/// Succeeds exactly when `p` is at least one and the stream is a whole number
/// of codewords whose values all fit in 64 bits; a stream that ends inside a
/// unary run or a remainder field, or carries a value past `u64::MAX`, is
/// malformed.
pub fn golomb_decode(bits: &BitStream, p: u8) -> (r: Result<Vec<u64>, GcsError>)
    ensures
        (match r {
            Ok(vs) => 1 <= p < 64 && decode_ok(bit_seq(*bits), p as nat) && to_nats(vs@)
                == decoded(bit_seq(*bits), p as nat),
            Err(e) => (e == GcsError::InvalidParameter && (p == 0 || p >= 64)) || (e
                == GcsError::MalformedStream && 1 <= p < 64 && !decode_ok(
                bit_seq(*bits),
                p as nat,
            )),
        }),
{
    if p == 0 || p >= 64 {
        return Err(GcsError::InvalidParameter);
    }
    let ghost full = bit_seq(*bits);
    let n = bits.len();
    let mut pos: usize = 0;
    let mut out: Vec<u64> = Vec::new();
    proof {
        assert(full.skip(0) =~= full);
        if decode_all(full, p as nat) is Some {
            let t = decode_all(full, p as nat).unwrap();
            assert(to_nats(out@) + t =~= t);
        }
        assert(decode_rel(full, 0, out@, p as nat));
    }
    while pos < n
        invariant
            1 <= p < 64,
            pos <= n,
            n == full.len(),
            full == bit_seq(*bits),
            decode_rel(full, pos as int, out@, p as nat),
        decreases n - pos,
    {
        let ghost pos0 = pos;
        let ghost out0 = out@;
        // The unary quotient: count one-bits up to the zero terminator.
        let mut quo: u64 = 0;
        loop
            invariant_except_break
                pos0 <= pos <= n,
                n == full.len(),
                full == bit_seq(*bits),
                quo as nat == pos - pos0,
                forall|k: int| pos0 <= k < pos ==> full[k] == true,
            ensures
                pos0 <= pos <= n,
                quo as nat == pos - pos0,
                forall|k: int| pos0 <= k < pos ==> full[k] == true,
                pos == n || full[pos as int] == false,
            decreases n - pos,
        {
            if pos == n {
                break ;
            }
            if !bits.get(pos) {
                break ;
            }
            quo = quo + 1;
            pos = pos + 1;
        }
        if pos == n {
            // The stream ended inside the unary run.
            proof {
                let a = full.skip(pos0 as int);
                assert(a =~= repeat_true((n - pos0) as nat));
                lemma_decode_trues((n - pos0) as nat, p as nat);
                assert(decode_all(a, p as nat) is None);
            }
            return Err(GcsError::MalformedStream);
        }
        let ghost zero = pos as int;
        pos = pos + 1;
        if (n - pos) < p as usize {
            // The stream ended inside the remainder field.
            proof {
                let a = full.skip(pos0 as int);
                let t = full.skip(pos as int);
                lemma_unary_as_repeat(quo as nat);
                lemma_unary_len(quo as nat);
                assert(a =~= unary_code(quo as nat) + t);
                lemma_decode_short(quo as nat, t, p as nat);
            }
            return Err(GcsError::MalformedStream);
        }
        let ghost z1 = pos as int;
        let mut rem: u64 = 0;
        let mut j: u8 = 0;
        proof {
            lemma2_to64();
            assert(full.subrange(z1, z1) =~= Seq::<bool>::empty());
        }
        while j < p
            invariant
                j <= p,
                p < 64,
                n == full.len(),
                full == bit_seq(*bits),
                0 <= z1,
                pos as int == z1 + j,
                z1 + p <= n,
                rem as nat == be_val(full.subrange(z1, z1 + j)),
                (rem as nat) < pow2(j as nat),
            decreases p - j,
        {
            let b = bits.get(pos);
            proof {
                lemma_be_val_snoc(full.subrange(z1, z1 + j), full[z1 + j]);
                assert(full.subrange(z1, z1 + j + 1) =~= full.subrange(z1, z1 + j).push(
                    full[z1 + j],
                ));
                lemma_pow2_unfold((j + 1) as nat);
                lemma_pow2_strictly_increases((j + 1) as nat, 64);
                lemma2_to64();
            }
            rem = rem * 2 + (if b {
                1
            } else {
                0
            });
            pos = pos + 1;
            j = j + 1;
        }
        let m = pow2_u64(p);
        // Guard the reconstruction `quo * 2^p + rem` against leaving 64 bits.
        if quo > (u64::MAX - rem) / m {
            proof {
                lemma_overflow_case(quo as nat, rem as nat, m as nat);
                decode_step(full, pos0 as int, zero, pos as int, quo as nat, rem as nat, p as nat);
                let v = (quo as nat) * pow2(p as nat) + (rem as nat);
                lemma2_to64();
                assert(v > u64::MAX);
                let rest = full.skip(pos as int);
                if decode_all(rest, p as nat) is Some {
                    let t = decode_all(rest, p as nat).unwrap();
                    let whole = decoded(full, p as nat);
                    assert(whole == to_nats(out@) + (seq![v] + t));
                    assert(whole[out@.len() as int] == v);
                    assert(!decode_ok(full, p as nat));
                } else {
                    assert(decode_all(full, p as nat) is None);
                }
            }
            return Err(GcsError::MalformedStream);
        }
        proof {
            lemma_no_overflow_case(quo as nat, rem as nat, m as nat);
        }
        let value = quo * m + rem;
        out.push(value);
        proof {
            decode_step(full, pos0 as int, zero, pos as int, quo as nat, rem as nat, p as nat);
            let v = (quo as nat) * pow2(p as nat) + (rem as nat);
            let rest = full.skip(pos as int);
            if decode_all(rest, p as nat) is Some {
                let t = decode_all(rest, p as nat).unwrap();
                assert(to_nats(out0) + (seq![v] + t) =~= to_nats(out0.push(value)) + t);
            }
            assert(decode_rel(full, pos as int, out@, p as nat));
        }
    }
    proof {
        assert(full.skip(n as int) =~= Seq::<bool>::empty());
        assert(decode_all(full, p as nat) == Some(to_nats(out@) + Seq::<nat>::empty()));
        assert(to_nats(out@) + Seq::<nat>::empty() =~= to_nats(out@));
        lemma2_to64();
        assert forall|i: int| 0 <= i < decoded(full, p as nat).len() implies #[trigger] decoded(
            full,
            p as nat,
        )[i] < pow2(64) by {
            assert(decoded(full, p as nat)[i] == out@[i] as nat);
        }
    }
    Ok(out)
}

/// At the end of one codeword, the suffix where the codeword began decodes to
/// the codeword's value followed by the decode of the remaining suffix.
proof fn decode_step(full: Seq<bool>, pos0: int, zero: int, pos: int, quo: nat, rem: nat, p: nat)
    requires
        1 <= p,
        0 <= pos0 <= zero < full.len(),
        pos == zero + 1 + p,
        pos <= full.len(),
        quo == zero - pos0,
        forall|k: int| pos0 <= k < zero ==> full[k] == true,
        full[zero] == false,
        rem == be_val(full.subrange(zero + 1, pos)),
    ensures
        rem < pow2(p),
        decode_all(full.skip(pos0), p) == (match decode_all(full.skip(pos), p) {
            Some(t) => Some(seq![(quo * pow2(p) + rem) as nat] + t),
            None => None::<Seq<nat>>,
        }),
{
    let rseq = full.subrange(zero + 1, pos);
    lemma_be_val_bound(rseq);
    lemma_be_bits_of_be_val(rseq);
    assert(crate::model::be_bits(rem, p) == rseq);
    lemma_unary_as_repeat(quo);
    lemma_unary_len(quo);
    let a = full.skip(pos0);
    assert(a =~= unary_code(quo) + crate::model::be_bits(rem, p) + full.skip(pos));
    lemma_decode_cons(quo, rem, p, full.skip(pos));
}

/// When the quotient passes the guard `(u64::MAX - rem) / m`, the value
/// `quo * m + rem` lies past `u64::MAX`.
proof fn lemma_overflow_case(quo: nat, rem: nat, m: nat)
    requires
        m >= 1,
        rem <= u64::MAX,
        quo > (u64::MAX - rem) as nat / m,
    ensures
        quo * m + rem > u64::MAX,
{
    let g = (u64::MAX - rem) as nat / m;
    lemma_fundamental_div_mod((u64::MAX - rem) as int, m as int);
    vstd::arithmetic::mul::lemma_mul_is_commutative(m as int, g as int);
    assert(g * m + ((u64::MAX - rem) as nat % m) == u64::MAX - rem);
    lemma_mod_division_less_than_divisor((u64::MAX - rem) as int, m as int);
    assert(g * m > u64::MAX - rem - m);
    lemma_mul_inequality((g + 1) as int, quo as int, m as int);
    assert(quo * m >= (g + 1) * m);
    assert((g + 1) * m == g * m + m) by {
        vstd::arithmetic::mul::lemma_mul_is_distributive_add_other_way(m as int, g as int, 1);
    }
}

/// When the quotient stays within the guard, the value fits in 64 bits.
proof fn lemma_no_overflow_case(quo: nat, rem: nat, m: nat)
    requires
        m >= 1,
        rem <= u64::MAX,
        quo <= (u64::MAX - rem) as nat / m,
    ensures
        quo * m + rem <= u64::MAX,
{
    let g = (u64::MAX - rem) as nat / m;
    lemma_mul_inequality(quo as int, g as int, m as int);
    lemma_fundamental_div_mod((u64::MAX - rem) as int, m as int);
    lemma_mod_division_less_than_divisor((u64::MAX - rem) as int, m as int);
    vstd::arithmetic::mul::lemma_mul_is_commutative(m as int, g as int);
    assert(g * m <= u64::MAX - rem);
}

} // verus!
