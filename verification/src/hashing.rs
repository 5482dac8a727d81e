//! Mapping arbitrary byte strings into the bounded value range `[0, n * 2^p)`
//! through a pluggable digest.

use crate::codec::pow2_u64;
use crate::model::{
    be_bytes_val, lemma_be_bytes_val_zero_pad, map_spec, param_ok, raw_of_digest,
};
use vstd::arithmetic::div_mod::lemma_mod_division_less_than_divisor;
use vstd::arithmetic::mul::lemma_mul_inequality;
use vstd::arithmetic::power2::pow2;
use vstd::prelude::*;

verus! {

/// A pluggable digest capability: a deterministic map from byte strings to
/// byte strings of one fixed length. Its mathematical image is `digest_spec`;
/// the executable methods are bound to it, so every implementation answers
/// the same input with the same digest.
pub trait Digester: Sized {
    /// The fixed output length, in bytes.
    spec fn out_len(&self) -> nat;

    /// The digest of an input, as a mathematical function.
    spec fn digest_spec(&self, input: Seq<u8>) -> Seq<u8>;

    /// The output length, queryable at run time.
    fn output_size(&self) -> (r: usize)
        ensures
            r as nat == self.out_len(),
    ;

    /// Compute the digest of an input.
    fn digest(&self, input: &[u8]) -> (r: Vec<u8>)
        ensures
            r@ == self.digest_spec(input@),
            r@.len() == self.out_len(),
    ;
}

/// What the MD5 digest of a byte string is: sixteen bytes determined by the
/// input alone.
pub uninterp spec fn md5_of(input: Seq<u8>) -> Seq<u8>;

/// Relies on md5's `Digest::digest`: a deterministic sixteen-byte digest of
/// the input.
#[verifier::external_body]
fn md5_digest(input: &[u8]) -> (r: Vec<u8>)
    ensures
        r@ == md5_of(input@),
        r@.len() == 16,
{
    <md5::Md5 as md5::Digest>::digest(input).to_vec()
}

/// The MD5 digest truncated to its last four bytes: the short digest that the
/// cross-implementation filter fixtures are built on.
pub struct Md5Trunc;

impl Digester for Md5Trunc {
    open spec fn out_len(&self) -> nat {
        4
    }

    open spec fn digest_spec(&self, input: Seq<u8>) -> Seq<u8> {
        md5_of(input).subrange(12, 16)
    }

    fn output_size(&self) -> (r: usize) {
        4
    }

    fn digest(&self, input: &[u8]) -> (r: Vec<u8>) {
        let d = md5_digest(input);
        let mut out: Vec<u8> = Vec::new();
        out.push(d[12]);
        out.push(d[13]);
        out.push(d[14]);
        out.push(d[15]);
        proof {
            assert(out@ =~= md5_of(input@).subrange(12, 16));
        }
        out
    }
}

/// The whole sixteen-byte MD5 digest.
pub struct Md5Whole;

impl Digester for Md5Whole {
    open spec fn out_len(&self) -> nat {
        16
    }

    open spec fn digest_spec(&self, input: Seq<u8>) -> Seq<u8> {
        md5_of(input)
    }

    fn output_size(&self) -> (r: usize) {
        16
    }

    fn digest(&self, input: &[u8]) -> (r: Vec<u8>) {
        md5_digest(input)
    }
}

/// Relies on byteorder's `BigEndian::read_u64`: the first eight bytes of the
/// slice as one big-endian integer; it panics on a shorter slice, which the
/// precondition rules out.
#[verifier::external_body]
fn read_u64_be(buf: &[u8]) -> (r: u64)
    requires
        buf@.len() >= 8,
    ensures
        r as nat == be_bytes_val(buf@.subrange(0, 8)),
{
    <byteorder::BigEndian as byteorder::ByteOrder>::read_u64(buf)
}

/// Map an input into `[0, n * 2^p)`: digest it, read the first eight digest
/// bytes — a shorter digest right-aligned over zeros — as a big-endian
/// integer, and reduce that integer modulo `n * 2^p`.
pub fn digest_value<D: Digester>(n: u64, p: u8, digester: &D, input: &[u8]) -> (r: u64)
    requires
        param_ok(n, p),
        digester.out_len() >= 1,
    ensures
        r == map_spec(n, p, digester.digest_spec(input@)),
        (r as nat) < n as nat * pow2(p as nat),
{
    let d = digester.digest(input);
    let raw: u64 = if d.len() < 8 {
        let pad: usize = 8 - d.len();
        let mut buf: Vec<u8> = Vec::new();
        let mut k: usize = 0;
        while k < pad
            invariant
                k <= pad,
                buf@.len() == k as nat,
                forall|i: int| 0 <= i < k ==> buf@[i] == 0u8,
            decreases pad - k,
        {
            buf.push(0u8);
            k = k + 1;
        }
        let mut t: usize = 0;
        while t < d.len()
            invariant
                t <= d@.len(),
                pad == 8 - d@.len(),
                d@.len() < 8,
                buf@.len() == pad + t,
                forall|i: int| 0 <= i < pad ==> buf@[i] == 0u8,
                forall|i: int| 0 <= i < t ==> buf@[pad + i] == d@[i],
            decreases d@.len() - t,
        {
            buf.push(d[t]);
            t = t + 1;
        }
        proof {
            let z = buf@.subrange(0, pad as int);
            assert(buf@ =~= z + d@);
            lemma_be_bytes_val_zero_pad(z, d@);
            assert(buf@.subrange(0, 8) =~= buf@);
        }
        read_u64_be(buf.as_slice())
    } else {
        read_u64_be(d.as_slice())
    };
    proof {
        assert(raw as nat == raw_of_digest(digester.digest_spec(input@)));
    }
    let m = n * pow2_u64(p);
    proof {
        lemma_mul_inequality(1, n as int, pow2(p as nat) as int);
        lemma_mod_division_less_than_divisor(raw as int, m as int);
    }
    raw % m
}

} // verus!
