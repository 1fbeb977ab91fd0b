//! Binary images of Rosy values: little-endian integers, length-prefixed strings and vectors.
//!
//! Reals are carried as their binary64 bit patterns, so a real's image is the eight
//! little-endian bytes of its pattern.

use vstd::prelude::*;
use vstd::utf8::{valid_utf8, decode_utf8, encode_utf8, encode_utf8_valid_utf8, encode_utf8_decode_utf8};
use crate::da::{ComplexBits, DA};

verus! {

/// `256^k`.
pub open spec fn pow256(k: nat) -> nat
    decreases k,
{
    if k == 0 {
        1
    } else {
        256 * pow256((k - 1) as nat)
    }
}

/// The low `k` bytes of `n`, least significant first.
pub open spec fn le_bytes(n: nat, k: nat) -> Seq<u8>
    decreases k,
{
    if k == 0 {
        Seq::empty()
    } else {
        seq![(n % 256) as u8] + le_bytes(n / 256, (k - 1) as nat)
    }
}

/// The number whose little-endian bytes are `b`.
pub open spec fn le_value(b: Seq<u8>) -> nat
    decreases b.len(),
{
    if b.len() == 0 {
        0
    } else {
        b[0] as nat + 256 * le_value(b.drop_first())
    }
}

pub proof fn lemma_pow256_8()
    ensures
        pow256(8) == 0x1_0000_0000_0000_0000,
{
    reveal_with_fuel(pow256, 9);
}

pub proof fn lemma_le_bytes_len(n: nat, k: nat)
    ensures
        le_bytes(n, k).len() == k,
    decreases k,
{
    if k > 0 {
        lemma_le_bytes_len(n / 256, (k - 1) as nat);
    }
}

pub proof fn lemma_le_value_bound(b: Seq<u8>)
    ensures
        le_value(b) < pow256(b.len()),
    decreases b.len(),
{
    if b.len() > 0 {
        lemma_le_value_bound(b.drop_first());
        let r = le_value(b.drop_first());
        let p = pow256((b.len() - 1) as nat);
        assert(b[0] as nat + 256 * r < 256 * p) by (nonlinear_arith)
            requires
                r < p,
                b[0] < 256,
        ;
    }
}

/// Decoding the first `k` bytes of a number below `256^k` gives the number back.
pub proof fn lemma_le_roundtrip(n: nat, k: nat)
    requires
        n < pow256(k),
    ensures
        le_value(le_bytes(n, k)) == n,
    decreases k,
{
    if k > 0 {
        let q = n / 256;
        let p = pow256((k - 1) as nat);
        assert(q < p) by (nonlinear_arith)
            requires
                n < 256 * p,
                q == n / 256,
        ;
        lemma_le_roundtrip(q, (k - 1) as nat);
        let b = le_bytes(n, k);
        assert(b.drop_first() =~= le_bytes(q, (k - 1) as nat));
        assert(n == (n % 256) + 256 * q) by (nonlinear_arith)
            requires
                q == n / 256,
        ;
    }
}

/// Appends the low `k` bytes of `x`, least significant first.
fn push_le(out: &mut Vec<u8>, x: u64, k: usize)
    ensures
        final(out)@ == old(out)@ + le_bytes(x as nat, k as nat),
    decreases k,
{
    if k > 0 {
        let b: u8 = (x % 256) as u8;
        out.push(b);
        let ghost mid = out@;
        push_le(out, x / 256, k - 1);
        proof {
            assert(old(out)@ + le_bytes(x as nat, k as nat) =~= mid + le_bytes((x / 256) as nat, (k - 1) as nat));
        }
    }
}

/// The eight little-endian bytes of `x` (`u64::to_le_bytes`).
pub fn le_u64_bytes(x: u64) -> (r: Vec<u8>)
    ensures
        r@ == le_bytes(x as nat, 8),
{
    let mut out: Vec<u8> = Vec::new();
    push_le(&mut out, x, 8);
    proof {
        assert(out@ =~= le_bytes(x as nat, 8));
    }
    out
}

/// The number stored little-endian in `data[off..off + k]`.
fn read_le(data: &[u8], off: usize, k: usize) -> (r: u64)
    requires
        off + k <= data@.len(),
        k <= 8,
    ensures
        r == le_value(data@.subrange(off as int, off + k)),
    decreases k,
{
    if k == 0 {
        0
    } else {
        let l = data.len();
        assert(off + 1 <= l);
        let rest = read_le(data, off + 1, k - 1);
        proof {
            let s = data@.subrange(off as int, off + k);
            assert(s.drop_first() =~= data@.subrange(off + 1, off + k));
            lemma_le_value_bound(data@.subrange(off + 1, off + k));
            lemma_pow_mono((k - 1) as nat, 7);
            lemma_pow256_7();
            assert(256 * (rest as int) + 255 < 0x1_0000_0000_0000_0000) by (nonlinear_arith)
                requires
                    rest < 0x100_0000_0000_0000,
            ;
        }
        (data[off] as u64) + 256 * rest
    }
}

proof fn lemma_pow256_7()
    ensures
        pow256(7) == 0x100_0000_0000_0000,
{
    reveal_with_fuel(pow256, 8);
}

proof fn lemma_pow_mono(a: nat, b: nat)
    requires
        a <= b,
    ensures
        pow256(a) <= pow256(b),
    decreases b,
{
    if a < b {
        lemma_pow_mono(a, (b - 1) as nat);
    }
}

/// The `u64` stored little-endian in `data[off..off + 8]` (`u64::from_le_bytes`).
pub fn le_u64_at(data: &[u8], off: usize) -> (r: u64)
    requires
        off + 8 <= data@.len(),
    ensures
        r == le_value(data@.subrange(off as int, off + 8)),
{
    read_le(data, off, 8)
}

/// Calls `String::from_utf8`. Trusted: it succeeds exactly on valid UTF-8 (vstd's `valid_utf8`)
/// and the string then holds the decoded characters (vstd's `decode_utf8`), as std documents.
#[verifier::external_body]
fn string_from_utf8(bytes: Vec<u8>) -> (r: Option<String>)
    ensures
        r is Some <==> valid_utf8(bytes@),
        r is Some ==> r->0@ == decode_utf8(bytes@),
{
    String::from_utf8(bytes).ok()
}

/// Why a binary image could not be read back.
#[derive(Debug, Clone, Copy, PartialEq, Eq)]
pub enum BinaryError {
    /// Fewer than eight bytes for a real; `got` bytes were there.
    RealTooShort { got: usize },
    /// Fewer than eight bytes for a string's length prefix.
    StringPrefixMissing,
    /// Fewer bytes after the prefix than the string's length.
    StringBodyTooShort,
    /// The string's bytes are not UTF-8.
    InvalidUtf8,
    /// Fewer than eight bytes for a vector's length prefix.
    VectorPrefixMissing,
    /// The data ends inside a vector element.
    VectorElementMissing,
    /// No byte for a logical value.
    LogicalMissing,
    /// Fewer than sixteen bytes for a complex number; `got` bytes were there.
    ComplexTooShort { got: usize },
    /// DA vectors have no binary image.
    DaUnsupported,
}

/// Image of a real: its pattern's eight bytes.
pub open spec fn real_image(bits: u64) -> Seq<u8> {
    le_bytes(bits as nat, 8)
}

/// Image of a string: its byte length in eight bytes, then its UTF-8 bytes.
pub open spec fn string_image(s: Seq<char>) -> Seq<u8> {
    le_bytes(encode_utf8(s).len(), 8) + encode_utf8(s)
}

/// Images of the elements of a vector of reals, one after another.
pub open spec fn elements_image(v: Seq<u64>) -> Seq<u8>
    decreases v.len(),
{
    if v.len() == 0 {
        Seq::empty()
    } else {
        elements_image(v.drop_last()) + real_image(v.last())
    }
}

/// Image of a vector of reals: its length in eight bytes, then each element's image.
pub open spec fn vector_image(v: Seq<u64>) -> Seq<u8> {
    le_bytes(v.len(), 8) + elements_image(v)
}

/// Image of a logical value: one byte, 1 or 0.
pub open spec fn logical_image(b: bool) -> Seq<u8> {
    seq![if b { 1u8 } else { 0u8 }]
}

/// Image of a complex number: the real part's image, then the imaginary part's.
pub open spec fn complex_image(c: ComplexBits) -> Seq<u8> {
    real_image(c.re) + real_image(c.im)
}

/// The real read back from `data`.
pub open spec fn real_from(data: Seq<u8>) -> Result<u64, BinaryError> {
    if data.len() < 8 {
        Err(BinaryError::RealTooShort { got: data.len() as usize })
    } else {
        Ok(le_value(data.take(8)) as u64)
    }
}

/// The string read back from `data`, by its characters.
pub open spec fn string_from(data: Seq<u8>) -> Result<Seq<char>, BinaryError> {
    if data.len() < 8 {
        Err(BinaryError::StringPrefixMissing)
    } else if data.len() - 8 < le_value(data.take(8)) {
        Err(BinaryError::StringBodyTooShort)
    } else {
        let body = data.subrange(8, 8 + le_value(data.take(8)) as int);
        if valid_utf8(body) {
            Ok(decode_utf8(body))
        } else {
            Err(BinaryError::InvalidUtf8)
        }
    }
}

/// Element `i` of a vector image whose elements start at byte eight.
pub open spec fn element_at(data: Seq<u8>, i: int) -> u64 {
    le_value(data.subrange(8 + 8 * i, 16 + 8 * i)) as u64
}

/// The vector of reals read back from `data`.
pub open spec fn vector_from(data: Seq<u8>) -> Result<Seq<u64>, BinaryError> {
    if data.len() < 8 {
        Err(BinaryError::VectorPrefixMissing)
    } else if data.len() < 8 + 8 * le_value(data.take(8)) {
        Err(BinaryError::VectorElementMissing)
    } else {
        Ok(Seq::new(le_value(data.take(8)), |i: int| element_at(data, i)))
    }
}

/// The logical value read back from `data`: its first byte is not zero.
pub open spec fn logical_from(data: Seq<u8>) -> Result<bool, BinaryError> {
    if data.len() == 0 {
        Err(BinaryError::LogicalMissing)
    } else {
        Ok(data[0] != 0)
    }
}

/// The complex number read back from `data`.
pub open spec fn complex_from(data: Seq<u8>) -> Result<ComplexBits, BinaryError> {
    if data.len() < 16 {
        Err(BinaryError::ComplexTooShort { got: data.len() as usize })
    } else {
        Ok(
            ComplexBits {
                re: le_value(data.subrange(0, 8)) as u64,
                im: le_value(data.subrange(8, 16)) as u64,
            },
        )
    }
}

/// Conversion of a Rosy value to its binary image.
pub trait RosyToBinary {
    fn to_binary(&self) -> Vec<u8>;
}

/// Conversion of a binary image back to a Rosy value.
pub trait RosyFromBinary: Sized {
    fn from_binary(data: &[u8]) -> Result<Self, BinaryError>;
}

impl RosyToBinary for u64 {
    fn to_binary(&self) -> (r: Vec<u8>)
        ensures
            r@ == real_image(*self),
    {
        le_u64_bytes(*self)
    }
}

impl RosyFromBinary for u64 {
    fn from_binary(data: &[u8]) -> (r: Result<u64, BinaryError>)
        ensures
            r == real_from(data@),
    {
        if data.len() < 8 {
            Err(BinaryError::RealTooShort { got: data.len() })
        } else {
            let v = le_u64_at(data, 0);
            proof {
                assert(data@.subrange(0, 8) =~= data@.take(8));
            }
            Ok(v)
        }
    }
}

impl RosyToBinary for String {
    fn to_binary(&self) -> (r: Vec<u8>)
        ensures
            r@ == string_image(self@),
    {
        let bytes = self.as_str().as_bytes();
        let mut out = le_u64_bytes(bytes.len() as u64);
        let mut i: usize = 0;
        let ghost pre = out@;
        while i < bytes.len()
            invariant
                i <= bytes@.len(),
                out@ == pre + bytes@.take(i as int),
            decreases bytes@.len() - i,
        {
            out.push(bytes[i]);
            proof {
                assert(bytes@.take(i + 1) =~= bytes@.take(i as int).push(bytes@[i as int]));
                assert(out@ =~= pre + bytes@.take(i + 1));
            }
            i = i + 1;
        }
        proof {
            assert(bytes@.take(i as int) =~= bytes@);
        }
        out
    }
}

impl RosyFromBinary for String {
    fn from_binary(data: &[u8]) -> (r: Result<String, BinaryError>)
        ensures
            match r {
                Ok(s) => string_from(data@) == Ok::<Seq<char>, BinaryError>(s@),
                Err(e) => string_from(data@) == Err::<Seq<char>, BinaryError>(e),
            },
    {
        if data.len() < 8 {
            return Err(BinaryError::StringPrefixMissing);
        }
        let n = le_u64_at(data, 0);
        proof {
            assert(data@.subrange(0, 8) =~= data@.take(8));
        }
        let avail: u64 = (data.len() - 8) as u64;
        if avail < n {
            return Err(BinaryError::StringBodyTooShort);
        }
        let end: usize = 8 + (n as usize);
        let mut body: Vec<u8> = Vec::new();
        let mut i: usize = 8;
        while i < end
            invariant
                8 <= i <= end,
                end <= data@.len(),
                body@ == data@.subrange(8, i as int),
            decreases end - i,
        {
            body.push(data[i]);
            proof {
                assert(body@ =~= data@.subrange(8, i + 1));
            }
            i = i + 1;
        }
        match string_from_utf8(body) {
            Some(s) => Ok(s),
            None => Err(BinaryError::InvalidUtf8),
        }
    }
}

impl RosyToBinary for Vec<u64> {
    fn to_binary(&self) -> (r: Vec<u8>)
        ensures
            r@ == vector_image(self@),
    {
        let mut out = le_u64_bytes(self.len() as u64);
        let ghost pre = out@;
        let mut i: usize = 0;
        while i < self.len()
            invariant
                i <= self@.len(),
                out@ == pre + elements_image(self@.take(i as int)),
            decreases self@.len() - i,
        {
            let b = le_u64_bytes(self[i]);
            let mut j: usize = 0;
            let ghost mid = out@;
            while j < b.len()
                invariant
                    j <= b@.len(),
                    out@ == mid + b@.take(j as int),
                decreases b@.len() - j,
            {
                out.push(b[j]);
                proof {
                    assert(b@.take(j + 1) =~= b@.take(j as int).push(b@[j as int]));
                    assert(out@ =~= mid + b@.take(j + 1));
                }
                j = j + 1;
            }
            proof {
                assert(b@.take(j as int) =~= b@);
                assert(self@.take(i + 1).drop_last() =~= self@.take(i as int));
                assert(out@ =~= pre + elements_image(self@.take(i + 1)));
            }
            i = i + 1;
        }
        proof {
            assert(self@.take(i as int) =~= self@);
        }
        out
    }
}

impl RosyFromBinary for Vec<u64> {
    fn from_binary(data: &[u8]) -> (r: Result<Vec<u64>, BinaryError>)
        ensures
            match r {
                Ok(v) => vector_from(data@) == Ok::<Seq<u64>, BinaryError>(v@),
                Err(e) => vector_from(data@) == Err::<Seq<u64>, BinaryError>(e),
            },
    {
        if data.len() < 8 {
            return Err(BinaryError::VectorPrefixMissing);
        }
        let n = le_u64_at(data, 0);
        proof {
            assert(data@.subrange(0, 8) =~= data@.take(8));
        }
        let mut result: Vec<u64> = Vec::new();
        let mut offset: usize = 8;
        let mut i: u64 = 0;
        while i < n
            invariant
                i <= n,
                n == le_value(data@.take(8)),
                offset == 8 + 8 * i,
                offset <= data@.len(),
                result@ == Seq::new(i as nat, |q: int| element_at(data@, q)),
            decreases n - i,
        {
            if data.len() - offset < 8 {
                proof {
                    assert(data@.len() < 8 + 8 * n) by (nonlinear_arith)
                        requires
                            data@.len() < offset + 8,
                            offset == 8 + 8 * i,
                            i < n,
                    ;
                }
                return Err(BinaryError::VectorElementMissing);
            }
            let x = le_u64_at(data, offset);
            result.push(x);
            proof {
                assert(result@ =~= Seq::new((i + 1) as nat, |q: int| element_at(data@, q)));
            }
            offset = offset + 8;
            i = i + 1;
        }
        Ok(result)
    }
}

impl RosyToBinary for bool {
    fn to_binary(&self) -> (r: Vec<u8>)
        ensures
            r@ == logical_image(*self),
    {
        let mut v: Vec<u8> = Vec::new();
        v.push(if *self { 1u8 } else { 0u8 });
        proof {
            assert(v@ =~= logical_image(*self));
        }
        v
    }
}

impl RosyFromBinary for bool {
    fn from_binary(data: &[u8]) -> (r: Result<bool, BinaryError>)
        ensures
            r == logical_from(data@),
    {
        if data.len() == 0 {
            Err(BinaryError::LogicalMissing)
        } else {
            Ok(data[0] != 0)
        }
    }
}

impl RosyToBinary for ComplexBits {
    fn to_binary(&self) -> (r: Vec<u8>)
        ensures
            r@ == complex_image(*self),
    {
        let mut out = le_u64_bytes(self.re);
        let ghost pre = out@;
        let b = le_u64_bytes(self.im);
        let mut j: usize = 0;
        while j < b.len()
            invariant
                j <= b@.len(),
                out@ == pre + b@.take(j as int),
            decreases b@.len() - j,
        {
            out.push(b[j]);
            proof {
                assert(b@.take(j + 1) =~= b@.take(j as int).push(b@[j as int]));
                assert(out@ =~= pre + b@.take(j + 1));
            }
            j = j + 1;
        }
        proof {
            assert(b@.take(j as int) =~= b@);
        }
        out
    }
}

impl RosyFromBinary for ComplexBits {
    fn from_binary(data: &[u8]) -> (r: Result<ComplexBits, BinaryError>)
        ensures
            r == complex_from(data@),
    {
        if data.len() < 16 {
            Err(BinaryError::ComplexTooShort { got: data.len() })
        } else {
            let re = le_u64_at(data, 0);
            let im = le_u64_at(data, 8);
            Ok(ComplexBits { re, im })
        }
    }
}

impl RosyFromBinary for DA {
    fn from_binary(data: &[u8]) -> (r: Result<DA, BinaryError>)
        ensures
            r == Err::<DA, BinaryError>(BinaryError::DaUnsupported),
    {
        Err(BinaryError::DaUnsupported)
    }
}

/// A real's image reads back as the same real.
pub proof fn law_real_binary_roundtrip(b: u64)
    ensures
        real_from(real_image(b)) == Ok::<u64, BinaryError>(b),
{
    lemma_le_bytes_len(b as nat, 8);
    lemma_pow256_8();
    lemma_le_roundtrip(b as nat, 8);
    assert(real_image(b).take(8) =~= real_image(b));
}

/// A string's image reads back as the same string (for strings whose byte length fits in
/// eight bytes).
pub proof fn law_string_binary_roundtrip(s: Seq<char>)
    requires
        encode_utf8(s).len() < pow256(8),
    ensures
        string_from(string_image(s)) == Ok::<Seq<char>, BinaryError>(s),
{
    let bytes = encode_utf8(s);
    let img = string_image(s);
    lemma_le_bytes_len(bytes.len(), 8);
    lemma_le_roundtrip(bytes.len(), 8);
    assert(img.take(8) =~= le_bytes(bytes.len(), 8));
    assert(img.subrange(8, 8 + bytes.len() as int) =~= bytes);
    encode_utf8_valid_utf8(s);
    encode_utf8_decode_utf8(s);
}

proof fn lemma_elements_image(v: Seq<u64>)
    ensures
        elements_image(v).len() == 8 * v.len(),
        forall|i: int|
            0 <= i < v.len() ==> #[trigger] elements_image(v).subrange(8 * i, 8 * i + 8) == real_image(v[i]),
    decreases v.len(),
{
    if v.len() > 0 {
        let w = v.drop_last();
        lemma_elements_image(w);
        lemma_le_bytes_len(v.last() as nat, 8);
        let e = elements_image(v);
        assert forall|i: int| 0 <= i < v.len() implies #[trigger] e.subrange(8 * i, 8 * i + 8) == real_image(v[i]) by {
            if i < w.len() {
                assert(e.subrange(8 * i, 8 * i + 8) =~= elements_image(w).subrange(8 * i, 8 * i + 8));
            } else {
                assert(e.subrange(8 * i, 8 * i + 8) =~= real_image(v.last()));
            }
        }
    }
}

/// A vector's image reads back as the same vector (for vectors whose length fits in eight
/// bytes).
pub proof fn law_vector_binary_roundtrip(v: Seq<u64>)
    requires
        v.len() < pow256(8),
    ensures
        vector_from(vector_image(v)) == Ok::<Seq<u64>, BinaryError>(v),
{
    let img = vector_image(v);
    lemma_le_bytes_len(v.len(), 8);
    lemma_le_roundtrip(v.len(), 8);
    lemma_elements_image(v);
    lemma_pow256_8();
    assert(img.take(8) =~= le_bytes(v.len(), 8));
    let r = Seq::new(v.len(), |i: int| element_at(img, i));
    assert forall|i: int| 0 <= i < v.len() implies r[i] == v[i] by {
        assert(img.subrange(8 + 8 * i, 16 + 8 * i) =~= elements_image(v).subrange(8 * i, 8 * i + 8));
        lemma_le_roundtrip(v[i] as nat, 8);
    }
    assert(r =~= v);
}

/// A logical value's image reads back as the same value.
pub proof fn law_logical_binary_roundtrip(b: bool)
    ensures
        logical_from(logical_image(b)) == Ok::<bool, BinaryError>(b),
{
}

/// A complex number's image reads back as the same number.
pub proof fn law_complex_binary_roundtrip(c: ComplexBits)
    ensures
        complex_from(complex_image(c)) == Ok::<ComplexBits, BinaryError>(c),
{
    let img = complex_image(c);
    lemma_le_bytes_len(c.re as nat, 8);
    lemma_le_bytes_len(c.im as nat, 8);
    lemma_pow256_8();
    lemma_le_roundtrip(c.re as nat, 8);
    lemma_le_roundtrip(c.im as nat, 8);
    assert(img.subrange(0, 8) =~= real_image(c.re));
    assert(img.subrange(8, 16) =~= real_image(c.im));
}

} // verus!
