//! The mathematical model of the set: Golomb-Rice codewords as bit sequences,
//! greedy decoding of a whole stream, delta coding, prefix sums, and the
//! digest-to-range mapping, together with the lemmas that tie them together.

use vstd::arithmetic::div_mod::{
    lemma_div_multiples_vanish, lemma_fundamental_div_mod, lemma_mod_division_less_than_divisor,
};
use vstd::arithmetic::mul::{lemma_mul_inequality, lemma_mul_is_distributive_sub_other_way};
use vstd::arithmetic::power2::{lemma2_to64, lemma_pow2_pos, lemma_pow2_unfold, pow2};
use vstd::prelude::*;
use vstd::relations::{sorted_by, total_ordering};

verus! {

/// A run of `k` one-bits.
pub open spec fn repeat_true(k: nat) -> Seq<bool> {
    Seq::new(k, |i: int| true)
}

/// Unary code of `q`: `q` one-bits closed by a single zero terminator.
pub open spec fn unary_code(q: nat) -> Seq<bool>
    decreases q,
{
    if q == 0 {
        seq![false]
    } else {
        seq![true] + unary_code((q - 1) as nat)
    }
}

/// Fixed-width binary code of `v`, most significant bit first.
pub open spec fn be_bits(v: nat, width: nat) -> Seq<bool>
    decreases width,
{
    if width == 0 {
        Seq::empty()
    } else {
        be_bits(v / 2, (width - 1) as nat).push(v % 2 == 1)
    }
}

/// The integer a big-endian bit sequence stands for.
pub open spec fn be_val(s: Seq<bool>) -> nat
    decreases s.len(),
{
    if s.len() == 0 {
        0
    } else {
        be_val(s.drop_last()) * 2 + (if s.last() {
            1nat
        } else {
            0nat
        })
    }
}

/// One Golomb-Rice codeword for `v` with modulus `2^p`: the quotient in unary,
/// then the remainder in exactly `p` bits.
pub open spec fn golomb_code(v: nat, p: nat) -> Seq<bool> {
    unary_code(v / pow2(p)) + be_bits(v % pow2(p), p)
}

/// The codewords of a value sequence, concatenated in order with no padding.
pub open spec fn golomb_stream(vals: Seq<u64>, p: nat) -> Seq<bool>
    decreases vals.len(),
{
    if vals.len() == 0 {
        Seq::empty()
    } else {
        golomb_code(vals[0] as nat, p) + golomb_stream(vals.skip(1), p)
    }
}

/// Greedy decode of a whole bitstream: one codeword after the next until the
/// bits are exhausted. `None` when the stream ends in the middle of a unary
/// run or a remainder field.
pub open spec fn decode_all(bits: Seq<bool>, p: nat) -> Option<Seq<nat>>
    decreases bits.len(),
{
    if bits.len() == 0 {
        Some(Seq::empty())
    } else if bits[0] {
        match decode_all(bits.skip(1), p) {
            Some(vals) => if vals.len() > 0 {
                Some(seq![(vals[0] + pow2(p)) as nat] + vals.skip(1))
            } else {
                None
            },
            None => None,
        }
    } else if bits.len() < 1 + p {
        None
    } else {
        match decode_all(bits.skip(1 + p as int), p) {
            Some(vals) => Some(seq![be_val(bits.subrange(1, 1 + p as int))] + vals),
            None => None,
        }
    }
}

/// The decoded values of a well-formed stream.
pub open spec fn decoded(bits: Seq<bool>, p: nat) -> Seq<nat> {
    decode_all(bits, p).unwrap()
}

/// The stream decodes and every decoded value fits in 64 bits.
pub open spec fn decode_ok(bits: Seq<bool>, p: nat) -> bool {
    decode_all(bits, p) is Some && forall|i: int|
        0 <= i < decoded(bits, p).len() ==> #[trigger] decoded(bits, p)[i] < pow2(64)
}

/// Running prefix sums: element `i` is the sum of the first `i + 1` inputs.
pub open spec fn abs_seq(ds: Seq<nat>) -> Seq<nat>
    decreases ds.len(),
{
    if ds.len() == 0 {
        Seq::empty()
    } else {
        let prev = abs_seq(ds.drop_last());
        prev.push(if ds.len() == 1 {
            ds.last()
        } else {
            (prev.last() + ds.last()) as nat
        })
    }
}

/// The stream decodes and even its reconstituted absolute values fit in 64 bits.
pub open spec fn stream_ok(bits: Seq<bool>, p: nat) -> bool {
    decode_all(bits, p) is Some && forall|i: int|
        0 <= i < abs_seq(decoded(bits, p)).len() ==> #[trigger] abs_seq(decoded(bits, p))[i]
            < pow2(64)
}

/// Successive differences of a sequence: the first element stays (a delta
/// against an implicit zero), each later element is its distance to the one
/// before. Lossless for sorted input, where every difference is non-negative.
pub open spec fn delta_seq(s: Seq<u64>) -> Seq<u64> {
    Seq::new(s.len(), |i: int| if i == 0 {
        s[0]
    } else {
        ((s[i] - s[i - 1]) as u64)
    })
}

/// The ordering that the builder sorts by.
pub open spec fn leq64() -> spec_fn(u64, u64) -> bool {
    |x: u64, y: u64| x <= y
}

/// The canonical ascending ordering of a value sequence.
pub open spec fn sort_u64s(s: Seq<u64>) -> Seq<u64> {
    s.sort_by(leq64())
}

/// A value sequence as mathematical integers.
pub open spec fn to_nats(s: Seq<u64>) -> Seq<nat> {
    s.map_values(|v: u64| v as nat)
}

/// `leq64` is a total ordering, so sorting by it is canonical.
pub proof fn lemma_leq64_total_ordering()
    ensures
        total_ordering(leq64()),
{
    assert forall|x: u64, y: u64| #[trigger] leq64()(x, y) || #[trigger] leq64()(y, x) by {}
}

pub proof fn lemma_unary_len(q: nat)
    ensures
        unary_code(q).len() == q + 1,
    decreases q,
{
    if q > 0 {
        lemma_unary_len((q - 1) as nat);
    }
}

pub proof fn lemma_be_bits_len(v: nat, width: nat)
    ensures
        be_bits(v, width).len() == width,
    decreases width,
{
    if width > 0 {
        lemma_be_bits_len(v / 2, (width - 1) as nat);
    }
}

/// The length of one codeword: the quotient, its terminator, and `p` bits.
pub proof fn lemma_golomb_code_len(v: nat, p: nat)
    ensures
        golomb_code(v, p).len() == v / pow2(p) + 1 + p,
{
    lemma_pow2_pos(p);
    lemma_unary_len(v / pow2(p));
    lemma_be_bits_len(v % pow2(p), p);
}

/// Reading back the fixed-width code of a value below `2^width` yields the value.
pub proof fn lemma_be_val_of_be_bits(v: nat, width: nat)
    requires
        v < pow2(width),
    ensures
        be_val(be_bits(v, width)) == v,
    decreases width,
{
    if width == 0 {
        lemma2_to64();
        assert(v == 0);
    } else {
        lemma_pow2_unfold(width);
        assert(v / 2 < pow2((width - 1) as nat)) by {
            lemma_fundamental_div_mod(v as int, 2);
        }
        lemma_be_val_of_be_bits(v / 2, (width - 1) as nat);
        let s = be_bits(v, width);
        assert(s.drop_last() =~= be_bits(v / 2, (width - 1) as nat));
        assert(be_val(s) == be_val(s.drop_last()) * 2 + (if s.last() {
            1nat
        } else {
            0nat
        }));
        lemma_fundamental_div_mod(v as int, 2);
    }
}

/// Fixed-width coding is the inverse of reading: a `width`-bit sequence is the
/// code of its own value.
pub proof fn lemma_be_bits_of_be_val(s: Seq<bool>)
    ensures
        be_bits(be_val(s), s.len()) == s,
    decreases s.len(),
{
    if s.len() > 0 {
        let v = be_val(s);
        let bit: nat = if s.last() {
            1
        } else {
            0
        };
        assert(v == be_val(s.drop_last()) * 2 + bit);
        assert(v / 2 == be_val(s.drop_last()) && v % 2 == bit) by {
            lemma_fundamental_div_mod(v as int, 2);
        }
        lemma_be_bits_of_be_val(s.drop_last());
        assert(be_bits(v, s.len()) =~= s);
    }
}

/// A bit sequence stands for a value below `2^length`.
pub proof fn lemma_be_val_bound(s: Seq<bool>)
    ensures
        be_val(s) < pow2(s.len()),
    decreases s.len(),
{
    if s.len() == 0 {
        lemma2_to64();
    } else {
        lemma_be_val_bound(s.drop_last());
        lemma_pow2_unfold(s.len());
    }
}

/// Unary code spelled out: a run of one-bits closed by a zero.
pub proof fn lemma_unary_as_repeat(q: nat)
    ensures
        unary_code(q) =~= repeat_true(q).push(false),
    decreases q,
{
    if q > 0 {
        lemma_unary_as_repeat((q - 1) as nat);
        lemma_unary_len(q);
    }
}

/// The bit at position `i` of a fixed-width code, counted from the most
/// significant end.
pub proof fn lemma_be_bits_index(v: nat, w: nat, i: int)
    requires
        0 <= i < w,
    ensures
        be_bits(v, w)[i] == ((v / pow2((w - 1 - i) as nat)) % 2 == 1),
    decreases w,
{
    lemma_be_bits_len(v / 2, (w - 1) as nat);
    if i == w - 1 {
        lemma2_to64();
        assert(v / pow2(0) == v) by {
            lemma_div_multiples_vanish(v as int, 1);
        }
    } else {
        lemma_be_bits_index(v / 2, (w - 1) as nat, i);
        let k = (w - 2 - i) as nat;
        assert((v / 2) / pow2(k) == v / pow2(k + 1)) by {
            lemma_pow2_pos(k);
            vstd::arithmetic::div_mod::lemma_div_denominator(v as int, 2, pow2(k) as int);
            lemma_pow2_unfold(k + 1);
        }
    }
}

/// Appending a bit doubles the value and adds the bit.
pub proof fn lemma_be_val_snoc(s: Seq<bool>, b: bool)
    ensures
        be_val(s.push(b)) == be_val(s) * 2 + (if b {
            1nat
        } else {
            0nat
        }),
{
    assert(s.push(b).drop_last() =~= s);
    assert(s.push(b).last() == b);
}

/// Decoding one codeword off the front of a stream: the decode of
/// `unary(q) + bits(rem) + rest` is `q * 2^p + rem` followed by the decode of
/// `rest`, and fails exactly when the decode of `rest` fails.
pub proof fn lemma_decode_cons(q: nat, rem: nat, p: nat, rest: Seq<bool>)
    requires
        p >= 1,
        rem < pow2(p),
    ensures
        decode_all(unary_code(q) + be_bits(rem, p) + rest, p) == (match decode_all(rest, p) {
            Some(vals) => Some(seq![(q * pow2(p) + rem) as nat] + vals),
            None => None::<Seq<nat>>,
        }),
    decreases q,
{
    lemma_be_bits_len(rem, p);
    let s = unary_code(q) + be_bits(rem, p) + rest;
    if q == 0 {
        assert(unary_code(0) == seq![false]);
        assert(s[0] == false);
        assert(s.len() == 1 + p + rest.len());
        assert(s.subrange(1, 1 + p as int) =~= be_bits(rem, p));
        assert(s.skip(1 + p as int) =~= rest);
        lemma_be_val_of_be_bits(rem, p);
        match decode_all(rest, p) {
            Some(vals) => {
                assert(decode_all(s, p) == Some(seq![rem] + vals));
            },
            None => {},
        }
    } else {
        lemma_unary_len(q);
        assert(s[0] == true);
        let s1 = unary_code((q - 1) as nat) + be_bits(rem, p) + rest;
        assert(s.skip(1) =~= s1);
        lemma_decode_cons((q - 1) as nat, rem, p, rest);
        match decode_all(rest, p) {
            Some(vals) => {
                let head: nat = ((q - 1) as nat) * pow2(p) + rem;
                assert(decode_all(s1, p) == Some(seq![head] + vals));
                assert((seq![head] + vals).len() > 0);
                assert((seq![head] + vals)[0] == head);
                assert((seq![head] + vals).skip(1) =~= vals);
                assert(head + pow2(p) == q * pow2(p) + rem) by {
                    lemma_mul_is_distributive_sub_other_way(pow2(p) as int, q as int, 1);
                }
                assert(decode_all(s, p) == Some(seq![(q * pow2(p) + rem) as nat] + vals));
            },
            None => {
                assert(decode_all(s1, p) is None);
            },
        }
    }
}

/// The decode of one codeword followed by a decodable rest.
pub proof fn lemma_decode_prepend(v: nat, p: nat, rest: Seq<bool>)
    requires
        p >= 1,
    ensures
        decode_all(golomb_code(v, p) + rest, p) == (match decode_all(rest, p) {
            Some(vals) => Some(seq![v] + vals),
            None => None::<Seq<nat>>,
        }),
{
    lemma_pow2_pos(p);
    lemma_mod_division_less_than_divisor(v as int, pow2(p) as int);
    lemma_decode_cons(v / pow2(p), v % pow2(p), p, rest);
    lemma_fundamental_div_mod(v as int, pow2(p) as int);
    vstd::arithmetic::mul::lemma_mul_is_commutative(pow2(p) as int, (v / pow2(p)) as int);
    assert((v / pow2(p)) * pow2(p) + v % pow2(p) == v);
    assert(golomb_code(v, p) + rest =~= unary_code(v / pow2(p)) + be_bits(v % pow2(p), p) + rest);
}

/// Round-trip of the codec: the codeword of any value, decoded with the same
/// modulus, yields exactly that one value.
pub proof fn lemma_golomb_roundtrip(v: nat, p: nat)
    requires
        p >= 1,
    ensures
        decode_all(golomb_code(v, p), p) == Some(seq![v]),
{
    lemma_decode_prepend(v, p, Seq::empty());
    assert(golomb_code(v, p) + Seq::<bool>::empty() =~= golomb_code(v, p));
    assert(seq![v] + Seq::<nat>::empty() =~= seq![v]);
}

/// Decoding a whole encoded stream returns the encoded values, in order.
pub proof fn lemma_decode_stream(vals: Seq<u64>, p: nat)
    requires
        p >= 1,
    ensures
        decode_all(golomb_stream(vals, p), p) == Some(to_nats(vals)),
    decreases vals.len(),
{
    if vals.len() == 0 {
        assert(golomb_stream(vals, p) == Seq::<bool>::empty());
        assert(to_nats(vals) =~= Seq::<nat>::empty());
    } else {
        lemma_decode_stream(vals.skip(1), p);
        lemma_decode_prepend(vals[0] as nat, p, golomb_stream(vals.skip(1), p));
        assert(to_nats(vals) =~= seq![vals[0] as nat] + to_nats(vals.skip(1)));
    }
}

/// A stream of one-bits alone is empty or ends mid-unary-run.
pub proof fn lemma_decode_trues(k: nat, p: nat)
    ensures
        decode_all(repeat_true(k), p) == (if k == 0 {
            Some(Seq::<nat>::empty())
        } else {
            None::<Seq<nat>>
        }),
    decreases k,
{
    if k > 0 {
        assert(repeat_true(k)[0] == true);
        assert(repeat_true(k).skip(1) =~= repeat_true((k - 1) as nat));
        lemma_decode_trues((k - 1) as nat, p);
    }
}

/// A unary run whose remainder field is cut short cannot be decoded.
pub proof fn lemma_decode_short(q: nat, t: Seq<bool>, p: nat)
    requires
        p >= 1,
        t.len() < p,
    ensures
        decode_all(unary_code(q) + t, p) is None,
    decreases q,
{
    let s = unary_code(q) + t;
    if q == 0 {
        assert(s[0] == false);
        assert(s.len() == 1 + t.len() < 1 + p);
    } else {
        lemma_unary_len(q);
        assert(s[0] == true);
        assert(s.skip(1) =~= unary_code((q - 1) as nat) + t);
        lemma_decode_short((q - 1) as nat, t, p);
    }
}

/// Prefix sums undo delta coding: for an ascending sequence, the running sums
/// of its deltas give the sequence back.
pub proof fn lemma_abs_of_delta(s: Seq<u64>)
    requires
        sorted_by(s, leq64()),
    ensures
        abs_seq(to_nats(delta_seq(s))) == to_nats(s),
    decreases s.len(),
{
    if s.len() == 0 {
        assert(abs_seq(to_nats(delta_seq(s))) =~= to_nats(s));
    } else if s.len() == 1 {
        let one = seq![s[0] as nat];
        assert(to_nats(delta_seq(s)) =~= one);
        assert(one.drop_last() =~= Seq::<nat>::empty());
        assert(abs_seq(Seq::<nat>::empty()) == Seq::<nat>::empty());
        assert(abs_seq(one) =~= one);
        assert(to_nats(s) =~= one);
    } else {
        let st = s.drop_last();
        assert(sorted_by(st, leq64())) by {
            assert(forall|i: int, j: int|
                0 <= i < j < st.len() ==> #[trigger] leq64()(st[i], st[j]));
        }
        lemma_abs_of_delta(st);
        let ds = to_nats(delta_seq(s));
        assert(ds.drop_last() =~= to_nats(delta_seq(st)));
        let prev = abs_seq(ds.drop_last());
        assert(prev == to_nats(st));
        let n = s.len() as int;
        assert(leq64()(s[n - 2], s[n - 1]));
        assert(prev.last() == s[n - 2] as nat);
        assert(ds.last() == (s[n - 1] - s[n - 2]) as nat);
        assert(abs_seq(ds) =~= to_nats(s));
    }
}

/// A stream splits at any value boundary: the codewords of a prefix of the
/// values followed by the codewords of the rest.
pub proof fn lemma_golomb_stream_split(vals: Seq<u64>, p: nat, i: int)
    requires
        0 <= i <= vals.len(),
    ensures
        golomb_stream(vals, p) == golomb_stream(vals.take(i), p) + golomb_stream(
            vals.skip(i),
            p,
        ),
    decreases i,
{
    if i == 0 {
        assert(vals.take(0) =~= Seq::<u64>::empty());
        assert(vals.skip(0) =~= vals);
        assert(golomb_stream(vals.take(0), p) + golomb_stream(vals, p) =~= golomb_stream(
            vals,
            p,
        ));
    } else {
        let rest = vals.skip(1);
        lemma_golomb_stream_split(rest, p, i - 1);
        assert(rest.take(i - 1) =~= vals.take(i).skip(1));
        assert(rest.skip(i - 1) =~= vals.skip(i));
        assert(golomb_stream(vals.take(i), p) == golomb_code(vals[0] as nat, p) + golomb_stream(
            vals.take(i).skip(1),
            p,
        )) by {
            assert(vals.take(i)[0] == vals[0]);
            assert(vals.take(i).len() > 0);
        }
        assert(golomb_stream(vals, p) =~= golomb_stream(vals.take(i), p) + golomb_stream(
            vals.skip(i),
            p,
        ));
    }
}

/// Extending the values by one extends the stream by one codeword.
pub proof fn lemma_golomb_stream_snoc(vals: Seq<u64>, x: u64, p: nat)
    ensures
        golomb_stream(vals.push(x), p) == golomb_stream(vals, p) + golomb_code(x as nat, p),
{
    let w = vals.push(x);
    lemma_golomb_stream_split(w, p, vals.len() as int);
    assert(w.take(vals.len() as int) =~= vals);
    assert(w.skip(vals.len() as int) =~= seq![x]);
    let one = seq![x];
    assert(one.skip(1) =~= Seq::<u64>::empty());
    assert(golomb_stream(Seq::<u64>::empty(), p) == Seq::<bool>::empty());
    assert(one.len() == 1 && one[0] == x);
    assert(golomb_stream(one, p) == golomb_code(x as nat, p) + golomb_stream(one.skip(1), p));
    assert(golomb_code(x as nat, p) + Seq::<bool>::empty() =~= golomb_code(x as nat, p));
}

/// Prefix sums have the input's length, start at its first element, and obey
/// the running recurrence.
pub proof fn lemma_abs_seq_index(ds: Seq<nat>)
    ensures
        abs_seq(ds).len() == ds.len(),
        ds.len() > 0 ==> abs_seq(ds)[0] == ds[0],
        forall|i: int|
            1 <= i < ds.len() ==> #[trigger] abs_seq(ds)[i] == abs_seq(ds)[i - 1] + ds[i],
    decreases ds.len(),
{
    if ds.len() > 0 {
        lemma_abs_seq_index(ds.drop_last());
        assert(forall|i: int|
            0 <= i < ds.len() - 1 ==> #[trigger] abs_seq(ds)[i] == abs_seq(ds.drop_last())[i]);
        assert(forall|i: int|
            0 <= i < ds.len() - 1 ==> #[trigger] ds.drop_last()[i] == ds[i]);
    }
}

/// Every 64-bit value lies below `2^64`.
pub proof fn lemma_pow2_64_value()
    ensures
        pow2(64) == 0x10000000000000000,
{
    lemma2_to64();
}

/// For a modulus of at least one, staying at or under the quotient `b / m`
/// is the same as the product staying at or under `b`.
pub proof fn lemma_quotient_bound(a: nat, b: nat, m: nat)
    requires
        m >= 1,
    ensures
        (a <= b / m) <==> (a * m <= b),
{
    if a <= b / m {
        lemma_mul_inequality(a as int, (b / m) as int, m as int);
        lemma_fundamental_div_mod(b as int, m as int);
        lemma_mod_division_less_than_divisor(b as int, m as int);
        vstd::arithmetic::mul::lemma_mul_is_commutative(m as int, (b / m) as int);
        assert((b / m) * m <= b);
    }
    if a * m <= b {
        vstd::arithmetic::div_mod::lemma_div_is_ordered((a * m) as int, b as int, m as int);
        lemma_div_multiples_vanish(a as int, m as int);
        vstd::arithmetic::mul::lemma_mul_is_commutative(m as int, a as int);
        assert((a * m) as int / (m as int) == a);
    }
}

/// Binary code of one byte, most significant bit first.
pub open spec fn bytes_to_bits(s: Seq<u8>) -> Seq<bool>
    decreases s.len(),
{
    if s.len() == 0 {
        Seq::empty()
    } else {
        be_bits(s[0] as nat, 8) + bytes_to_bits(s.skip(1))
    }
}

/// The integer a big-endian byte sequence stands for.
pub open spec fn be_bytes_val(s: Seq<u8>) -> nat
    decreases s.len(),
{
    if s.len() == 0 {
        0
    } else {
        be_bytes_val(s.drop_last()) * 256 + s.last() as nat
    }
}

/// Leading zero bytes do not change the value a byte sequence stands for.
pub proof fn lemma_be_bytes_val_zero_pad(z: Seq<u8>, s: Seq<u8>)
    requires
        forall|i: int| 0 <= i < z.len() ==> z[i] == 0,
    ensures
        be_bytes_val(z + s) == be_bytes_val(s),
    decreases s.len(),
{
    if s.len() == 0 {
        assert(z + s =~= z);
        lemma_be_bytes_val_zeros(z);
    } else {
        assert((z + s).drop_last() =~= z + s.drop_last());
        assert((z + s).last() == s.last());
        lemma_be_bytes_val_zero_pad(z, s.drop_last());
    }
}

proof fn lemma_be_bytes_val_zeros(z: Seq<u8>)
    requires
        forall|i: int| 0 <= i < z.len() ==> z[i] == 0,
    ensures
        be_bytes_val(z) == 0,
    decreases z.len(),
{
    if z.len() > 0 {
        lemma_be_bytes_val_zeros(z.drop_last());
    }
}

/// The raw 64-bit integer a digest stands for: its first eight bytes read
/// big-endian, a digest shorter than eight bytes right-aligned over zeros.
pub open spec fn raw_of_digest(d: Seq<u8>) -> nat {
    if d.len() >= 8 {
        be_bytes_val(d.subrange(0, 8))
    } else {
        be_bytes_val(d)
    }
}

/// The parameters a set can be built with: a bit width in `[1, 64)` and a
/// capacity of at least one whose modulus `n * 2^p` stays inside 64 bits.
pub open spec fn param_ok(n: u64, p: u8) -> bool {
    1 <= p < 64 && 1 <= n && n * pow2(p as nat) <= u64::MAX
}

/// The mapped value of a digest: its raw integer reduced into `[0, n * 2^p)`.
pub open spec fn map_spec(n: u64, p: u8, d: Seq<u8>) -> u64 {
    (raw_of_digest(d) % (n as nat * pow2(p as nat))) as u64
}

} // verus!
