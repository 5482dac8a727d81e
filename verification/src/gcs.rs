//! The Golomb-coded set itself: a builder that collects mapped values, and the
//! immutable, queryable set it produces.
//!
//! Building sorts the mapped values, rewrites them as successive differences,
//! and packs one Golomb-Rice codeword per difference into a single bitstream.
//! Querying mirrors that: decode every codeword, reconstitute the sorted values
//! by prefix summation, and look the candidate's mapped value up.

use crate::bits::{bit_seq, max_bits, BitStream};
use crate::codec::{golomb_decode, golomb_encode, pow2_u64};
use crate::hashing::{digest_value, Digester};
use crate::model::{
    abs_seq, decode_all, decoded, delta_seq, golomb_code, golomb_stream, leq64,
    lemma_pow2_64_value, lemma_abs_of_delta, lemma_abs_seq_index, lemma_decode_stream,
    lemma_golomb_stream_snoc, lemma_golomb_stream_split, lemma_leq64_total_ordering,
    lemma_quotient_bound, map_spec, param_ok, sort_u64s, stream_ok, to_nats,
};
use crate::GcsError;
use vstd::prelude::*;
use vstd::relations::sorted_by;
use vstd::seq_lib::{lemma_sorted_unique, to_multiset_update};

verus! {

/// Check that `(n, p)` are parameters a set can be built with.
fn params_valid(n: u64, p: u8) -> (r: bool)
    ensures
        r == param_ok(n, p),
{
    if p == 0 || p >= 64 || n == 0 {
        return false;
    }
    let m = pow2_u64(p);
    proof {
        lemma_quotient_bound(n as nat, u64::MAX as nat, m as nat);
    }
    n <= u64::MAX / m
}

/// Exchanging a smaller element downwards keeps the sequence's contents.
proof fn lemma_swap_preserves_multiset(s: Seq<u64>, i: int, j: int)
    requires
        0 <= i < j < s.len(),
    ensures
        s.update(i, s[j]).update(j, s[i]).to_multiset() == s.to_multiset(),
{
    broadcast use vstd::multiset::group_multiset_axioms;
    broadcast use vstd::seq_lib::group_to_multiset_ensures;

    let m0 = s.to_multiset();
    let s1 = s.update(i, s[j]);
    let s2 = s1.update(j, s[i]);
    to_multiset_update(s, i, s[j]);
    to_multiset_update(s1, j, s[i]);
    assert(s1[j] == s[j]);
    assert(s.contains(s[i]));
    assert(m0.count(s[i]) > 0);
    assert forall|x: u64| s2.to_multiset().count(x) == m0.count(x) by {
        assert(s2.to_multiset() == m0.insert(s[j]).remove(s[i]).insert(s[i]).remove(s[j]));
    }
    assert(s2.to_multiset() =~= m0);
}

/// Sort a value vector ascending, in place, by insertion.
fn sort_values(v: &mut Vec<u64>)
    ensures
        final(v)@ == sort_u64s(old(v)@),
        sorted_by(final(v)@, leq64()),
{
    let ghost orig = old(v)@;
    let n = v.len();
    let mut i: usize = 1;
    while i < n
        invariant
            1 <= i,
            n == v@.len(),
            v@.to_multiset() == orig.to_multiset(),
            forall|a: int, b: int| 0 <= a < b < i ==> v@[a] <= v@[b],
        decreases n - i,
    {
        let mut j: usize = i;
        loop
            invariant_except_break
                0 <= j <= i < n,
                n == v@.len(),
                v@.to_multiset() == orig.to_multiset(),
                forall|a: int, b: int| 0 <= a < b <= i && b != j ==> v@[a] <= v@[b],
                forall|b: int| j < b <= i ==> v@[j as int] <= v@[b],
            ensures
                j <= i < n,
                n == v@.len(),
                v@.to_multiset() == orig.to_multiset(),
                forall|a: int, b: int| 0 <= a < b <= i && b != j ==> v@[a] <= v@[b],
                forall|b: int| j < b <= i ==> v@[j as int] <= v@[b],
                j == 0 || v@[j - 1] <= v@[j as int],
            decreases j,
        {
            if j == 0 {
                break ;
            }
            let prev = v[j - 1];
            let cur = v[j];
            if prev <= cur {
                break ;
            }
            let ghost before = v@;
            v[j - 1] = cur;
            v[j] = prev;
            proof {
                lemma_swap_preserves_multiset(before, j - 1, j as int);
                assert(v@ =~= before.update(j - 1, cur).update(j as int, prev));
            }
            j = j - 1;
        }
        proof {
            assert forall|a: int, b: int| 0 <= a < b <= i implies v@[a] <= v@[b] by {
                if b == j {
                    assert(j >= 1);
                    assert(v@[j - 1] <= v@[j as int]);
                    if a < j - 1 {
                        assert(v@[a] <= v@[j - 1]);
                    }
                }
            }
        }
        i = i + 1;
    }
    proof {
        lemma_leq64_total_ordering();
        orig.lemma_sort_by_ensures(leq64());
        assert(sorted_by(v@, leq64()));
        lemma_sorted_unique(v@, sort_u64s(orig), leq64());
        assert(v@ =~= sort_u64s(orig));
    }
}

/// Decode a stream and reconstitute its absolute values by prefix summation.
///
/// Succeeds exactly when the stream is a whole number of codewords and every
/// reconstituted value fits in 64 bits.
pub(crate) fn decode_values(bits: &BitStream, p: u8) -> (r: Result<Vec<u64>, GcsError>)
    ensures
        (match r {
            Ok(vs) => 1 <= p < 64 && stream_ok(bit_seq(*bits), p as nat) && to_nats(vs@)
                == abs_seq(decoded(bit_seq(*bits), p as nat)),
            Err(e) => (e == GcsError::InvalidParameter && (p == 0 || p >= 64)) || (e
                == GcsError::MalformedStream && 1 <= p < 64 && !stream_ok(
                bit_seq(*bits),
                p as nat,
            )),
        }),
{
    let ghost full = bit_seq(*bits);
    let mut vs = match golomb_decode(bits, p) {
        Ok(vs) => vs,
        Err(e) => {
            proof {
                if e == GcsError::MalformedStream && decode_all(full, p as nat) is Some {
                    let ds0 = decoded(full, p as nat);
                    lemma_abs_seq_index(ds0);
                    let i = choose|i: int|
                        0 <= i < ds0.len() && !(ds0[i] < vstd::arithmetic::power2::pow2(64));
                    if i == 0 {
                        assert(abs_seq(ds0)[0] == ds0[0]);
                    } else {
                        assert(abs_seq(ds0)[i] == abs_seq(ds0)[i - 1] + ds0[i]);
                    }
                    assert(!(abs_seq(ds0)[i] < vstd::arithmetic::power2::pow2(64)));
                }
            }
            return Err(e);
        },
    };
    let ghost ds = decoded(full, p as nat);
    proof {
        lemma_abs_seq_index(ds);
    }
    let n = vs.len();
    let mut i: usize = 1;
    #[verifier::loop_isolation(false)]
    while i < n
        invariant
            1 <= i,
            n == vs@.len(),
            forall|k: int| 0 <= k < i && k < n ==> vs@[k] as nat == abs_seq(ds)[k],
            forall|k: int| i <= k < n ==> vs@[k] as nat == ds[k],
        decreases n - i,
    {
        let prev = vs[i - 1];
        let d = vs[i];
        if d > u64::MAX - prev {
            proof {
                lemma_pow2_64_value();
                assert(abs_seq(ds)[i as int] == abs_seq(ds)[i - 1] + ds[i as int]);
                assert(abs_seq(ds)[i as int] > u64::MAX);
            }
            return Err(GcsError::MalformedStream);
        }
        vs[i] = prev + d;
        i = i + 1;
    }
    proof {
        lemma_pow2_64_value();
        if n == 0 {
            assert(abs_seq(ds) =~= Seq::<nat>::empty());
        }
        assert(to_nats(vs@) =~= abs_seq(ds));
        assert forall|k: int| 0 <= k < abs_seq(ds).len() implies #[trigger] abs_seq(ds)[k] < vstd::arithmetic::power2::pow2(
            64,
        ) by {
            assert(abs_seq(ds)[k] == vs@[k] as nat);
        }
    }
    Ok(vs)
}

/// Builder for a Golomb-coded set: collects the mapped values of inserted
/// inputs, up to a declared capacity on the checked path, until `build`
/// consumes it.
pub struct GcsBuilder<D: Digester> {
    n: u64,
    p: u8,
    values: Vec<u64>,
    digester: D,
}

impl<D: Digester> GcsBuilder<D> {
    /// The declared capacity.
    pub closed spec fn spec_n(self) -> u64 {
        self.n
    }

    /// The false-positive bit width.
    pub closed spec fn spec_p(self) -> u8 {
        self.p
    }

    /// The mapped values collected so far, in insertion order.
    pub closed spec fn vals(self) -> Seq<u64> {
        self.values@
    }

    /// The digest the builder maps inputs with.
    pub closed spec fn dig(self) -> D {
        self.digester
    }

    /// A builder is well formed when its parameters are valid and its digest
    /// produces at least one byte.
    pub open spec fn wf(self) -> bool {
        param_ok(self.spec_n(), self.spec_p()) && self.dig().out_len() >= 1
    }

    /// Create a builder for up to `n` entries with false-positive rate about
    /// `1 / 2^p`, rejecting parameters whose modulus `n * 2^p` leaves 64 bits
    /// and digests with no output.
    pub fn new(n: u64, p: u8, digester: D) -> (r: Result<GcsBuilder<D>, GcsError>)
        ensures
            (match r {
                Ok(b) => param_ok(n, p) && digester.out_len() >= 1 && b.wf() && b.spec_n() == n
                    && b.spec_p() == p && b.vals() == Seq::<u64>::empty() && b.dig() == digester,
                Err(e) => e == GcsError::InvalidParameter && !(param_ok(n, p)
                    && digester.out_len() >= 1),
            }),
    {
        if !params_valid(n, p) {
            return Err(GcsError::InvalidParameter);
        }
        if digester.output_size() == 0 {
            return Err(GcsError::InvalidParameter);
        }
        Ok(GcsBuilder { n, p, values: Vec::new(), digester })
    }

    /// Insert an input, mapping it to its value; rejected once the builder
    /// already holds as many entries as its declared capacity.
    pub fn insert(&mut self, input: &[u8]) -> (r: Result<(), GcsError>)
        requires
            old(self).wf(),
        ensures
            final(self).wf(),
            final(self).spec_n() == old(self).spec_n(),
            final(self).spec_p() == old(self).spec_p(),
            final(self).dig() == old(self).dig(),
            (match r {
                Ok(()) => old(self).vals().len() < old(self).spec_n() && final(self).vals() == old(
                    self,
                ).vals().push(
                    map_spec(old(self).spec_n(), old(self).spec_p(), old(self).dig().digest_spec(input@)),
                ),
                Err(e) => e == GcsError::CapacityExceeded && old(self).vals().len() >= old(
                    self,
                ).spec_n() && final(self).vals() == old(self).vals(),
            }),
    {
        if (self.values.len() as u64) < self.n {
            let v = digest_value(self.n, self.p, &self.digester, input);
            self.values.push(v);
            Ok(())
        } else {
            Err(GcsError::CapacityExceeded)
        }
    }

    /// Insert an input without the capacity check: the declared capacity is
    /// then only a hint to the false-positive rate, not an enforced bound.
    pub fn insert_unchecked(&mut self, input: &[u8])
        requires
            old(self).wf(),
        ensures
            final(self).wf(),
            final(self).spec_n() == old(self).spec_n(),
            final(self).spec_p() == old(self).spec_p(),
            final(self).dig() == old(self).dig(),
            final(self).vals() == old(self).vals().push(
                map_spec(old(self).spec_n(), old(self).spec_p(), old(self).dig().digest_spec(input@)),
            ),
    {
        let v = digest_value(self.n, self.p, &self.digester, input);
        self.values.push(v);
    }

    /// Consume the builder: sort the collected values, rewrite them as
    /// successive differences, and pack one codeword per difference into the
    /// set's bitstream. Rejected only when that stream would not fit the bit
    /// container.
    pub fn build(self) -> (r: Result<Gcs<D>, GcsError>)
        requires
            self.wf(),
        ensures
            (match r {
                Ok(g) => g.wf() && g.spec_n() == self.spec_n() && g.spec_p() == self.spec_p()
                    && g.dig() == self.dig() && g.stream() == golomb_stream(
                    delta_seq(sort_u64s(self.vals())),
                    self.spec_p() as nat,
                ) && g.value_seq() == to_nats(sort_u64s(self.vals())),
                Err(e) => e == GcsError::InvalidParameter && golomb_stream(
                    delta_seq(sort_u64s(self.vals())),
                    self.spec_p() as nat,
                ).len() > max_bits(),
            }),
    {
        let GcsBuilder { n, p, values, digester } = self;
        let mut values = values;
        sort_values(&mut values);
        let ghost sorted = values@;
        let len = values.len();
        let mut i: usize = len;
        #[verifier::loop_isolation(false)]
        while i > 1
            invariant
                i <= len,
                len == 0 ==> i == 0,
                values@.len() == len,
                forall|k: int| 0 <= k < i ==> values@[k] == sorted[k],
                forall|k: int| i <= k < len ==> values@[k] == delta_seq(sorted)[k],
            decreases i,
        {
            i = i - 1;
            proof {
                assert(leq64()(sorted[i - 1], sorted[i as int]));
            }
            let d = values[i] - values[i - 1];
            values[i] = d;
        }
        proof {
            assert(values@ =~= delta_seq(sorted));
        }
        let ghost ds = values@;
        let mut out = BitStream::new();
        let cap: usize = usize::MAX / 8;
        let mut idx: usize = 0;
        proof {
            assert(ds.take(0) =~= Seq::<u64>::empty());
            assert(bit_seq(out) =~= golomb_stream(ds.take(0), p as nat));
        }
        #[verifier::loop_isolation(false)]
        while idx < values.len()
            invariant
                idx <= ds.len(),
                values@ == ds,
                bit_seq(out) == golomb_stream(ds.take(idx as int), p as nat),
                bit_seq(out).len() <= max_bits(),
            decreases ds.len() - idx,
        {
            let ghost tail = ds.skip(idx as int);
            proof {
                lemma_golomb_stream_split(ds, p as nat, idx as int);
                assert(tail[0] == ds[idx as int]);
                assert(golomb_stream(tail, p as nat) == golomb_code(ds[idx as int] as nat, p as nat)
                    + golomb_stream(tail.skip(1), p as nat));
            }
            let cw = match golomb_encode(values[idx], p) {
                Ok(cw) => cw,
                Err(_) => {
                    return Err(GcsError::InvalidParameter);
                },
            };
            let cl = cw.len();
            let ol = out.len();
            if cl > cap - ol {
                return Err(GcsError::InvalidParameter);
            }
            out.extend_from(&cw);
            idx = idx + 1;
            proof {
                assert(ds.take(idx as int) =~= ds.take(idx - 1).push(ds[idx - 1]));
                lemma_golomb_stream_snoc(ds.take(idx - 1), ds[idx - 1], p as nat);
            }
        }
        proof {
            assert(ds.take(ds.len() as int) =~= ds);
            lemma_decode_stream(ds, p as nat);
            lemma_abs_of_delta(sorted);
            lemma_pow2_64_value();
            assert forall|k: int|
                0 <= k < abs_seq(decoded(bit_seq(out), p as nat)).len() implies #[trigger] abs_seq(
                decoded(bit_seq(out), p as nat),
            )[k] < vstd::arithmetic::power2::pow2(64) by {
                assert(abs_seq(decoded(bit_seq(out), p as nat))[k] == sorted[k] as nat);
            }
        }
        Ok(Gcs { n, p, bits: out, digester })
    }
}

/// A Golomb-coded set: immutable once constructed, queryable for probable
/// membership with no false negatives.
pub struct Gcs<D: Digester> {
    n: u64,
    p: u8,
    bits: BitStream,
    digester: D,
}

impl<D: Digester> Gcs<D> {
    /// The declared capacity the set was built with.
    pub closed spec fn spec_n(self) -> u64 {
        self.n
    }

    /// The false-positive bit width the set was built with.
    pub closed spec fn spec_p(self) -> u8 {
        self.p
    }

    /// The bits of the set's stream.
    pub closed spec fn stream(self) -> Seq<bool> {
        bit_seq(self.bits)
    }

    /// The digest the set maps queried inputs with.
    pub closed spec fn dig(self) -> D {
        self.digester
    }

    /// A set is well formed when its parameters are valid, its digest
    /// produces at least one byte, and its stream is a whole number of
    /// codewords whose reconstituted values fit in 64 bits. Constructors
    /// only hand out well-formed sets.
    pub open spec fn wf(self) -> bool {
        param_ok(self.spec_n(), self.spec_p()) && self.dig().out_len() >= 1 && stream_ok(
            self.stream(),
            self.spec_p() as nat,
        )
    }

    /// The sorted absolute values the stream stands for.
    pub open spec fn value_seq(self) -> Seq<nat> {
        abs_seq(decoded(self.stream(), self.spec_p() as nat))
    }

    /// What membership means: the input's mapped value is among the set's
    /// values. The answer is a function of the set and the input alone.
    pub open spec fn spec_contains(self, input: Seq<u8>) -> bool {
        self.value_seq().contains(
            map_spec(self.spec_n(), self.spec_p(), self.dig().digest_spec(input)) as nat,
        )
    }

    /// Assemble a set from parameters and a bitstream obtained elsewhere,
    /// validating both: parameters outside the domain are rejected as
    /// invalid, a stream that is not a whole number of codewords — or whose
    /// values leave 64 bits — as malformed.
    pub fn new(n: u64, p: u8, bits: BitStream, digester: D) -> (r: Result<Gcs<D>, GcsError>)
        ensures
            (match r {
                Ok(g) => param_ok(n, p) && digester.out_len() >= 1 && stream_ok(
                    bit_seq(bits),
                    p as nat,
                ) && g.wf() && g.spec_n() == n && g.spec_p() == p && g.stream() == bit_seq(bits)
                    && g.dig() == digester,
                Err(e) => (e == GcsError::InvalidParameter && !(param_ok(n, p)
                    && digester.out_len() >= 1)) || (e == GcsError::MalformedStream && param_ok(
                    n,
                    p,
                ) && digester.out_len() >= 1 && !stream_ok(bit_seq(bits), p as nat)),
            }),
    {
        if !params_valid(n, p) {
            return Err(GcsError::InvalidParameter);
        }
        if digester.output_size() == 0 {
            return Err(GcsError::InvalidParameter);
        }
        match decode_values(&bits, p) {
            Ok(_) => Ok(Gcs { n, p, bits, digester }),
            Err(_) => Err(GcsError::MalformedStream),
        }
    }

    /// Whether an input is contained in the set: `false` means definitely not
    /// present, `true` means present up to the false-positive rate.
    pub fn contains(&self, input: &[u8]) -> (r: bool)
        requires
            self.wf(),
        ensures
            r == self.spec_contains(input@),
    {
        let vs = match decode_values(&self.bits, self.p) {
            Ok(vs) => vs,
            Err(_) => {
                return false;
            },
        };
        let target = digest_value(self.n, self.p, &self.digester, input);
        let mut found = false;
        let mut i: usize = 0;
        while i < vs.len()
            invariant
                i <= vs@.len(),
                found == exists|k: int| 0 <= k < i && vs@[k] == target,
            decreases vs@.len() - i,
        {
            if vs[i] == target {
                found = true;
            }
            i = i + 1;
        }
        proof {
            if found {
                let k = choose|k: int| 0 <= k < vs@.len() && vs@[k] == target;
                assert(self.value_seq()[k] == target as nat);
            }
            if self.spec_contains(input@) {
                let k = choose|k: int|
                    0 <= k < self.value_seq().len() && self.value_seq()[k] == target as nat;
                assert(vs@[k] == target);
            }
        }
        found
    }

    /// The sorted absolute values encoded in the stream, decoded afresh.
    pub fn values(&self) -> (r: Vec<u64>)
        requires
            self.wf(),
        ensures
            to_nats(r@) == self.value_seq(),
    {
        match decode_values(&self.bits, self.p) {
            Ok(vs) => vs,
            Err(_) => {
                // A well-formed set always decodes.
                Vec::new()
            },
        }
    }

    /// The set's raw bitstream, for persistence by a caller.
    pub fn as_bits(&self) -> (r: &BitStream)
        ensures
            bit_seq(*r) == self.stream(),
    {
        &self.bits
    }
}

/// No false negatives: an input whose mapped value went into a builder is
/// reported as contained by the set that builder produced.
pub proof fn lemma_no_false_negatives<D: Digester>(b: GcsBuilder<D>, g: Gcs<D>, input: Seq<u8>)
    requires
        b.wf(),
        g.spec_n() == b.spec_n(),
        g.spec_p() == b.spec_p(),
        g.dig() == b.dig(),
        g.stream() == golomb_stream(delta_seq(sort_u64s(b.vals())), b.spec_p() as nat),
        b.vals().contains(map_spec(b.spec_n(), b.spec_p(), b.dig().digest_spec(input))),
    ensures
        g.spec_contains(input),
{
    broadcast use vstd::seq_lib::group_to_multiset_ensures;

    let m = map_spec(b.spec_n(), b.spec_p(), b.dig().digest_spec(input));
    let sorted = sort_u64s(b.vals());
    lemma_leq64_total_ordering();
    b.vals().lemma_sort_by_ensures(leq64());
    assert(b.vals().to_multiset().count(m) > 0);
    assert(sorted.contains(m));
    lemma_decode_stream(delta_seq(sorted), b.spec_p() as nat);
    lemma_abs_of_delta(sorted);
    let k = choose|k: int| 0 <= k < sorted.len() && sorted[k] == m;
    assert(g.value_seq()[k] == m as nat);
}

/// Order independence: two sets built with the same parameters and digest
/// from the same multiset of mapped values answer every query alike.
pub proof fn lemma_order_independence<D: Digester>(
    g1: Gcs<D>,
    g2: Gcs<D>,
    va: Seq<u64>,
    vb: Seq<u64>,
    input: Seq<u8>,
)
    requires
        g1.spec_n() == g2.spec_n(),
        g1.spec_p() == g2.spec_p(),
        g1.dig() == g2.dig(),
        va.to_multiset() == vb.to_multiset(),
        g1.stream() == golomb_stream(delta_seq(sort_u64s(va)), g1.spec_p() as nat),
        g2.stream() == golomb_stream(delta_seq(sort_u64s(vb)), g2.spec_p() as nat),
    ensures
        g1.spec_contains(input) == g2.spec_contains(input),
{
    lemma_leq64_total_ordering();
    va.lemma_sort_by_ensures(leq64());
    vb.lemma_sort_by_ensures(leq64());
    lemma_sorted_unique(sort_u64s(va), sort_u64s(vb), leq64());
    assert(sort_u64s(va) == sort_u64s(vb));
}

/// A query is idempotent: its outcome is a function of the set and the input
/// alone, so asking the same set the same question twice yields the same
/// answer both times.
pub proof fn lemma_query_idempotent<D: Digester>(g: Gcs<D>, input: Seq<u8>, r1: bool, r2: bool)
    requires
        r1 == g.spec_contains(input),
        r2 == g.spec_contains(input),
    ensures
        r1 == r2,
{
}

} // verus!
