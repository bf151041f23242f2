use vstd::arithmetic::power2::lemma_pow2_strictly_increases;
use vstd::arithmetic::power2::lemma_pow2_unfold;
use vstd::arithmetic::power2::pow2;
use vstd::prelude::*;

use std::cmp::Ordering;

use crate::error::Error;
use crate::payload::BtreePayload;
use crate::varint::parse_varint;
use crate::varint::varint_at;

verus! {

/// A column value of a record. A real number is held as the bits of its IEEE 754 double.
#[derive(Debug, PartialEq, Eq)]
pub enum Value {
    Null,
    Integer(i64),
    Real(u64),
    Text(Vec<u8>),
    Blob(Vec<u8>),
}

/// The mathematical content of a `Value`.
pub enum ValueView {
    Null,
    Integer(i64),
    Real(u64),
    Text(Seq<u8>),
    Blob(Seq<u8>),
}

impl View for Value {
    type V = ValueView;

    open spec fn view(&self) -> ValueView {
        match self {
            Value::Null => ValueView::Null,
            Value::Integer(i) => ValueView::Integer(*i),
            Value::Real(r) => ValueView::Real(*r),
            Value::Text(t) => ValueView::Text(t@),
            Value::Blob(b) => ValueView::Blob(b@),
        }
    }
}

/// A copy of `v`.
pub fn copy_value(v: &Value) -> (r: Value)
    ensures
        r@ == v@,
{
    match v {
        Value::Null => Value::Null,
        Value::Integer(i) => Value::Integer(*i),
        Value::Real(r) => Value::Real(*r),
        Value::Text(t) => Value::Text(copy_bytes(t.as_slice())),
        Value::Blob(b) => Value::Blob(copy_bytes(b.as_slice())),
    }
}

pub(crate) fn copy_bytes(s: &[u8]) -> (r: Vec<u8>)
    ensures
        r@ == s@,
{
    let r = copy_prefix(s, s.len());
    assert(s@.take(s@.len() as int) =~= s@);
    r
}

/// The first `n` bytes of `s`.
fn copy_prefix(s: &[u8], n: usize) -> (r: Vec<u8>)
    requires
        n <= s@.len(),
    ensures
        r@ == s@.take(n as int),
{
    let mut out: Vec<u8> = Vec::new();
    let mut i: usize = 0;
    while i < n
        invariant
            i <= n <= s@.len(),
            out@ == s@.take(i as int),
        decreases n - i,
    {
        out.push(s[i]);
        i += 1;
        assert(out@ =~= s@.take(i as int));
    }
    out
}

/// How text values compare.
#[derive(Debug, Clone, Copy, PartialEq, Eq, Structural)]
pub enum Collation {
    /// Byte by byte.
    Binary,
    /// Byte by byte after mapping ASCII upper case letters to lower case.
    NoCase,
    /// Byte by byte after dropping trailing spaces.
    RTrim,
}

/// The order of two integers.
pub open spec fn cmp_int(a: int, b: int) -> Ordering {
    if a < b {
        Ordering::Less
    } else if a == b {
        Ordering::Equal
    } else {
        Ordering::Greater
    }
}

/// The order of the two operands swapped.
pub open spec fn reverse(o: Ordering) -> Ordering {
    match o {
        Ordering::Less => Ordering::Greater,
        Ordering::Equal => Ordering::Equal,
        Ordering::Greater => Ordering::Less,
    }
}

/// Lexicographic order of byte strings; a proper prefix comes first.
pub open spec fn bytes_cmp(a: Seq<u8>, b: Seq<u8>) -> Ordering
    decreases a.len(),
{
    if a.len() == 0 || b.len() == 0 {
        cmp_int(a.len() as int, b.len() as int)
    } else if a[0] != b[0] {
        cmp_int(a[0] as int, b[0] as int)
    } else {
        bytes_cmp(a.drop_first(), b.drop_first())
    }
}

/// ASCII upper case letters mapped to lower case.
pub open spec fn fold_byte(b: u8) -> u8 {
    if 0x41 <= b <= 0x5a {
        (b + 0x20) as u8
    } else {
        b
    }
}

/// Length of `a` without its trailing spaces.
pub open spec fn rtrim_len(a: Seq<u8>) -> nat
    decreases a.len(),
{
    if a.len() > 0 && a.last() == 0x20 {
        rtrim_len(a.drop_last())
    } else {
        a.len()
    }
}

/// The order of two texts under a collation.
pub open spec fn text_cmp(c: Collation, a: Seq<u8>, b: Seq<u8>) -> Ordering {
    match c {
        Collation::Binary => bytes_cmp(a, b),
        Collation::NoCase => bytes_cmp(a.map_values(|x: u8| fold_byte(x)), b.map_values(|x: u8| fold_byte(x))),
        Collation::RTrim => bytes_cmp(a.take(rtrim_len(a) as int), b.take(rtrim_len(b) as int)),
    }
}

/// Sign, significand and binary exponent of a double: a finite value is
/// `(-1)^sign * significand * 2^exponent`.
pub open spec fn real_sign(bits: u64) -> bool {
    bits >> 63u64 == 1
}

/// The 11-bit exponent field of a double.
pub open spec fn real_biased_exp(bits: u64) -> int {
    ((bits >> 52u64) & 0x7ff) as int
}

/// The significand of a double, with its implicit leading bit where it is normal.
pub open spec fn real_significand(bits: u64) -> int {
    let m = (bits & 0xf_ffff_ffff_ffff) as int;
    if real_biased_exp(bits) == 0 {
        m
    } else {
        m + 0x10_0000_0000_0000
    }
}

/// The binary exponent of a double's least significant bit.
pub open spec fn real_exp(bits: u64) -> int {
    if real_biased_exp(bits) == 0 {
        -1074
    } else {
        real_biased_exp(bits) - 1075
    }
}

/// A key whose integer order is the numeric order of doubles that are not NaN.
pub open spec fn real_key(bits: u64) -> int {
    let mag = (bits & 0x7fff_ffff_ffff_ffff) as int;
    if real_sign(bits) {
        -mag
    } else {
        mag
    }
}

/// The numeric order of the integer `i` and the double with bits `bits`; infinities lie
/// beyond every integer.
pub open spec fn cmp_int_real(i: int, bits: u64) -> Ordering {
    if real_biased_exp(bits) == 0x7ff {
        if real_sign(bits) {
            Ordering::Greater
        } else {
            Ordering::Less
        }
    } else {
        let e = real_exp(bits);
        let m = if real_sign(bits) {
            -real_significand(bits)
        } else {
            real_significand(bits)
        };
        let lhs = if e < 0 {
            i * pow2((-e) as nat)
        } else {
            i
        };
        let rhs = if e < 0 {
            m
        } else {
            m * pow2(e as nat)
        };
        cmp_int(lhs, rhs)
    }
}

/// Rank of a value's storage class: NULL, then numbers, then text, then blobs.
pub open spec fn class_rank(v: ValueView) -> int {
    match v {
        ValueView::Null => 0,
        ValueView::Integer(_) => 1,
        ValueView::Real(_) => 1,
        ValueView::Text(_) => 2,
        ValueView::Blob(_) => 3,
    }
}

/// The order of `a` and `b`, texts compared under `c`.
pub open spec fn value_cmp(a: ValueView, c: Collation, b: ValueView) -> Ordering {
    if class_rank(a) != class_rank(b) {
        cmp_int(class_rank(a), class_rank(b))
    } else {
        match (a, b) {
            (ValueView::Integer(x), ValueView::Integer(y)) => cmp_int(x as int, y as int),
            (ValueView::Real(x), ValueView::Real(y)) => cmp_int(real_key(x), real_key(y)),
            (ValueView::Integer(x), ValueView::Real(y)) => cmp_int_real(x as int, y),
            (ValueView::Real(x), ValueView::Integer(y)) => reverse(cmp_int_real(y as int, x)),
            (ValueView::Text(x), ValueView::Text(y)) => text_cmp(c, x, y),
            (ValueView::Blob(x), ValueView::Blob(y)) => bytes_cmp(x, y),
            _ => Ordering::Equal,
        }
    }
}

fn cmp_i128(a: i128, b: i128) -> (r: Ordering)
    ensures
        r == cmp_int(a as int, b as int),
{
    if a < b {
        Ordering::Less
    } else if a == b {
        Ordering::Equal
    } else {
        Ordering::Greater
    }
}

/// `2^k` for `k <= 64`.
fn pow2_i128(k: u32) -> (r: i128)
    requires
        k <= 64,
    ensures
        r as int == pow2(k as nat),
        0 < r <= 0x1_0000_0000_0000_0000,
{
    proof {
        vstd::arithmetic::power2::lemma2_to64();
    }
    let mut p: i128 = 1;
    let mut j: u32 = 0;
    while j < k
        invariant
            j <= k <= 64,
            p as int == pow2(j as nat),
            0 < p <= 0x1_0000_0000_0000_0000,
            pow2(64) == 0x1_0000_0000_0000_0000,
        decreases k - j,
    {
        proof {
            lemma_pow2_unfold((j + 1) as nat);
            if j + 1 < 64 {
                lemma_pow2_strictly_increases((j + 1) as nat, 64);
            }
        }
        p = p * 2;
        j += 1;
    }
    p
}

/// The numeric order of an integer and a double.
fn compare_int_real(i: i64, bits: u64) -> (r: Ordering)
    ensures
        r == cmp_int_real(i as int, bits),
{
    let sign = bits >> 63u64 == 1;
    let biased = (bits >> 52u64) & 0x7ff;
    let frac = bits & 0xf_ffff_ffff_ffff;
    if biased == 0x7ff {
        return if sign {
            Ordering::Greater
        } else {
            Ordering::Less
        };
    }
    let sig: i128 = if biased == 0 {
        frac as i128
    } else {
        frac as i128 + 0x10_0000_0000_0000
    };
    let m: i128 = if sign {
        -sig
    } else {
        sig
    };
    proof {
        vstd::arithmetic::power2::lemma2_to64();
        assert(frac < 0x10_0000_0000_0000) by (bit_vector)
            requires
                frac == bits & 0xf_ffff_ffff_ffff,
        ;
        assert(biased <= 0x7ff) by (bit_vector)
            requires
                biased == (bits >> 52u64) & 0x7ff,
        ;
    }
    if biased >= 1075 {
        let e = (biased - 1075) as u32;
        if e > 11 {
            proof {
                if e > 12 {
                    lemma_pow2_strictly_increases(12, e as nat);
                }
                assert(sig * pow2(e as nat) >= 0x10_0000_0000_0000 * pow2(12)) by (nonlinear_arith)
                    requires
                        sig >= 0x10_0000_0000_0000,
                        pow2(e as nat) >= pow2(12),
                ;
                lemma_pow2_unfold(12);
                assert(pow2(12) == 4096) by {
                    vstd::arithmetic::power2::lemma2_to64();
                }
                if sign {
                    assert(m * pow2(e as nat) == -(sig * pow2(e as nat))) by (nonlinear_arith)
                        requires
                            m == -sig,
                    ;
                }
            }
            return if sign {
                Ordering::Greater
            } else {
                Ordering::Less
            };
        }
        let p = pow2_i128(e);
        proof {
            lemma_pow2_strictly_increases(e as nat, 12);
            assert(pow2(12) == 4096) by {
                vstd::arithmetic::power2::lemma2_to64();
            }
            assert(-0x20_0000_0000_0000 * 4096 <= m * p <= 0x20_0000_0000_0000 * 4096) by (nonlinear_arith)
                requires
                    -0x20_0000_0000_0000 <= m <= 0x20_0000_0000_0000,
                    0 < p <= 4096,
            ;
        }
        cmp_i128(i as i128, m * p)
    } else {
        let sh: u32 = if biased == 0 {
            1074
        } else {
            (1075 - biased) as u32
        };
        if sh > 64 {
            proof {
                lemma_pow2_strictly_increases(64, sh as nat);
                let e = real_exp(bits);
                assert((-e) as nat == sh as nat);
                assert(-0x20_0000_0000_0000 < m < 0x20_0000_0000_0000);
                if i == 0 {
                    assert(i * pow2(sh as nat) == 0) by (nonlinear_arith)
                        requires
                            i == 0,
                    ;
                }
                if i > 0 {
                    assert(i * pow2(sh as nat) >= pow2(sh as nat)) by (nonlinear_arith)
                        requires
                            i >= 1,
                    ;
                } else if i < 0 {
                    assert(i * pow2(sh as nat) <= -pow2(sh as nat)) by (nonlinear_arith)
                        requires
                            i <= -1,
                    ;
                }
            }
            return if i > 0 {
                Ordering::Greater
            } else if i < 0 {
                Ordering::Less
            } else {
                cmp_i128(0, m)
            };
        }
        let p = pow2_i128(sh);
        proof {
            assert(-0x8000_0000_0000_0000 * 0x1_0000_0000_0000_0000 <= i * p <= 0x7fff_ffff_ffff_ffff
                * 0x1_0000_0000_0000_0000) by (nonlinear_arith)
                requires
                    -0x8000_0000_0000_0000 <= i <= 0x7fff_ffff_ffff_ffff,
                    0 < p <= 0x1_0000_0000_0000_0000,
            ;
        }
        cmp_i128(i as i128 * p, m)
    }
}

/// Compares two byte strings lexicographically.
fn compare_bytes(a: &[u8], b: &[u8]) -> (r: Ordering)
    ensures
        r == bytes_cmp(a@, b@),
{
    let mut i: usize = 0;
    assert(a@.skip(0) =~= a@);
    assert(b@.skip(0) =~= b@);
    while i < a.len() && i < b.len()
        invariant
            i <= a@.len(),
            i <= b@.len(),
            bytes_cmp(a@, b@) == bytes_cmp(a@.skip(i as int), b@.skip(i as int)),
        decreases a@.len() - i,
    {
        if a[i] != b[i] {
            return if a[i] < b[i] {
                Ordering::Less
            } else {
                Ordering::Greater
            };
        }
        assert(a@.skip(i as int).drop_first() =~= a@.skip(i + 1));
        assert(b@.skip(i as int).drop_first() =~= b@.skip(i + 1));
        i += 1;
    }
    if a.len() < b.len() {
        Ordering::Less
    } else if a.len() == b.len() {
        Ordering::Equal
    } else {
        Ordering::Greater
    }
}

fn fold_bytes(a: &[u8]) -> (r: Vec<u8>)
    ensures
        r@ == a@.map_values(|x: u8| fold_byte(x)),
{
    let mut out: Vec<u8> = Vec::new();
    let mut i: usize = 0;
    while i < a.len()
        invariant
            i <= a@.len(),
            out@ == a@.map_values(|x: u8| fold_byte(x)).take(i as int),
        decreases a@.len() - i,
    {
        let b = a[i];
        out.push(
            if 0x41 <= b && b <= 0x5a {
                b + 0x20
            } else {
                b
            },
        );
        i += 1;
        assert(out@ =~= a@.map_values(|x: u8| fold_byte(x)).take(i as int));
    }
    assert(a@.map_values(|x: u8| fold_byte(x)).take(i as int) =~= a@.map_values(|x: u8| fold_byte(x)));
    out
}

fn trimmed_len(a: &[u8]) -> (r: usize)
    ensures
        r as int == rtrim_len(a@),
        r <= a@.len(),
{
    let mut n: usize = a.len();
    assert(a@.take(a@.len() as int) =~= a@);
    while n > 0 && a[n - 1] == 0x20
        invariant
            n <= a@.len(),
            rtrim_len(a@) == rtrim_len(a@.take(n as int)),
        decreases n,
    {
        assert(a@.take(n as int).drop_last() =~= a@.take(n - 1));
        n -= 1;
    }
    proof {
        lemma_rtrim_len(a@);
    }
    n
}

proof fn lemma_rtrim_len(a: Seq<u8>)
    ensures
        rtrim_len(a) <= a.len(),
    decreases a.len(),
{
    if a.len() > 0 && a.last() == 0x20 {
        lemma_rtrim_len(a.drop_last());
    }
}

/// Compares two texts under a collation.
fn compare_text(c: Collation, a: &[u8], b: &[u8]) -> (r: Ordering)
    ensures
        r == text_cmp(c, a@, b@),
{
    match c {
        Collation::Binary => compare_bytes(a, b),
        Collation::NoCase => {
            let fa = fold_bytes(a);
            let fb = fold_bytes(b);
            compare_bytes(fa.as_slice(), fb.as_slice())
        },
        Collation::RTrim => {
            let la = trimmed_len(a);
            let lb = trimmed_len(b);
            let ta = copy_prefix(a, la);
            let tb = copy_prefix(b, lb);
            compare_bytes(ta.as_slice(), tb.as_slice())
        },
    }
}

fn class_of(v: &Value) -> (r: u8)
    ensures
        r as int == class_rank(v@),
{
    match v {
        Value::Null => 0,
        Value::Integer(_) => 1,
        Value::Real(_) => 1,
        Value::Text(_) => 2,
        Value::Blob(_) => 3,
    }
}

/// The order of `a` and `b`, texts compared under `c`.
pub fn compare_value(a: &Value, c: Collation, b: &Value) -> (r: Ordering)
    ensures
        r == value_cmp(a@, c, b@),
{
    let ca = class_of(a);
    let cb = class_of(b);
    if ca != cb {
        return if ca < cb {
            Ordering::Less
        } else {
            Ordering::Greater
        };
    }
    match (a, b) {
        (Value::Integer(x), Value::Integer(y)) => cmp_i128(*x as i128, *y as i128),
        (Value::Real(x), Value::Real(y)) => {
            let kx: i128 = if *x >> 63u64 == 1 {
                -((*x & 0x7fff_ffff_ffff_ffff) as i128)
            } else {
                (*x & 0x7fff_ffff_ffff_ffff) as i128
            };
            let ky: i128 = if *y >> 63u64 == 1 {
                -((*y & 0x7fff_ffff_ffff_ffff) as i128)
            } else {
                (*y & 0x7fff_ffff_ffff_ffff) as i128
            };
            cmp_i128(kx, ky)
        },
        (Value::Integer(x), Value::Real(y)) => compare_int_real(*x, *y),
        (Value::Real(x), Value::Integer(y)) => match compare_int_real(*y, *x) {
            Ordering::Less => Ordering::Greater,
            Ordering::Equal => Ordering::Equal,
            Ordering::Greater => Ordering::Less,
        },
        (Value::Text(x), Value::Text(y)) => compare_text(c, x.as_slice(), y.as_slice()),
        (Value::Blob(x), Value::Blob(y)) => compare_bytes(x.as_slice(), y.as_slice()),
        _ => Ordering::Equal,
    }
}

/// `256^n` for `n <= 8`.
pub open spec fn pow256(n: int) -> int {
    if n <= 0 {
        1
    } else if n == 1 {
        0x100
    } else if n == 2 {
        0x1_0000
    } else if n == 3 {
        0x100_0000
    } else if n == 4 {
        0x1_0000_0000
    } else if n == 5 {
        0x100_0000_0000
    } else if n == 6 {
        0x1_0000_0000_0000
    } else if n == 7 {
        0x100_0000_0000_0000
    } else {
        0x1_0000_0000_0000_0000
    }
}

/// The unsigned big-endian integer of the `n` bytes at `off`.
pub open spec fn be_uint(s: Seq<u8>, off: int, n: int) -> int
    decreases n,
{
    if n <= 0 {
        0
    } else {
        be_uint(s, off, n - 1) * 0x100 + s[off + n - 1] as int
    }
}

/// The two's complement value of an `n`-byte unsigned integer `u`.
pub open spec fn sign_extend(u: int, n: int) -> int {
    if u >= pow256(n) / 2 {
        u - pow256(n)
    } else {
        u
    }
}

/// Number of content bytes of a column of serial type `t`; -1 for the reserved types.
pub open spec fn column_size(t: int) -> int {
    if t == 0 || t == 8 || t == 9 {
        0
    } else if 1 <= t <= 4 {
        t
    } else if t == 5 {
        6
    } else if t == 6 || t == 7 {
        8
    } else if t >= 12 {
        (t - 12) / 2
    } else {
        -1
    }
}

/// The value of a column of serial type `t` whose content starts at `off`.
pub open spec fn decode_column(s: Seq<u8>, off: int, t: int) -> Option<ValueView> {
    let n = column_size(t);
    if n < 0 || off < 0 || off + n > s.len() {
        None
    } else if t == 0 {
        Some(ValueView::Null)
    } else if 1 <= t <= 6 {
        Some(ValueView::Integer(sign_extend(be_uint(s, off, n), n) as i64))
    } else if t == 7 {
        Some(ValueView::Real(be_uint(s, off, 8) as u64))
    } else if t == 8 {
        Some(ValueView::Integer(0))
    } else if t == 9 {
        Some(ValueView::Integer(1))
    } else if t % 2 == 0 {
        Some(ValueView::Blob(s.subrange(off, off + n)))
    } else {
        Some(ValueView::Text(s.subrange(off, off + n)))
    }
}

/// The columns whose serial types lie in the header from `pos` up to `header_end`, with
/// contents from `body` on.
pub open spec fn record_from(s: Seq<u8>, pos: int, header_end: int, body: int) -> Option<
    Seq<ValueView>,
>
    decreases header_end - pos,
{
    if pos >= header_end {
        if pos == header_end {
            Some(Seq::empty())
        } else {
            None
        }
    } else {
        match varint_at(s, pos) {
            None => None,
            Some((t, n)) => if n <= 0 || pos + n > header_end {
                None
            } else {
                match decode_column(s, body, t) {
                    None => None,
                    Some(v) => match record_from(s, pos + n, header_end, body + column_size(t)) {
                        Some(rest) => Some(seq![v] + rest),
                        None => None,
                    },
                }
            },
        }
    }
}

/// The columns of a record: a header size, the serial types, then the contents.
pub open spec fn record_values(s: Seq<u8>) -> Option<Seq<ValueView>> {
    match varint_at(s, 0) {
        None => None,
        Some((hs, n)) => if hs < n || hs > s.len() {
            None
        } else {
            record_from(s, n, hs, hs)
        },
    }
}

/// The contents of a sequence of values.
pub open spec fn views(v: Seq<Value>) -> Seq<ValueView> {
    v.map_values(|x: Value| x@)
}

/// Decodes the column of serial type `t` whose content starts at `off`.
fn parse_column(s: &[u8], off: usize, t: u64) -> (r: Result<(Value, usize), Error>)
    requires
        s@.len() <= 0x7fff_ffff,
    ensures
        match r {
            Ok((v, n)) => decode_column(s@, off as int, t as int) == Some(v@) && n as int
                == column_size(t as int),
            Err(e) => e == Error::Corrupt && decode_column(s@, off as int, t as int) is None,
        },
{
    let n: u64 = if t == 0 || t == 8 || t == 9 {
        0
    } else if 1 <= t && t <= 4 {
        t
    } else if t == 5 {
        6
    } else if t == 6 || t == 7 {
        8
    } else if t >= 12 {
        (t - 12) / 2
    } else {
        return Err(Error::Corrupt);
    };
    if off > s.len() || n > (s.len() - off) as u64 {
        return Err(Error::Corrupt);
    }
    let n = n as usize;
    if t == 0 {
        Ok((Value::Null, 0))
    } else if 1 <= t && t <= 7 {
        let mut u: u64 = 0;
        let mut k: usize = 0;
        while k < n
            invariant
                k <= n <= 8,
                off + n <= s@.len() <= 0x7fff_ffff,
                u as int == be_uint(s@, off as int, k as int),
                u < pow256(k as int),
            decreases n - k,
        {
            u = u * 0x100 + s[off + k] as u64;
            k += 1;
        }
        if t == 7 {
            Ok((Value::Real(u), 8))
        } else {
            let half: i128 = if n == 1 {
                0x80
            } else if n == 2 {
                0x8000
            } else if n == 3 {
                0x80_0000
            } else if n == 4 {
                0x8000_0000
            } else if n == 6 {
                0x8000_0000_0000
            } else {
                0x8000_0000_0000_0000
            };
            let v: i128 = if u as i128 >= half {
                u as i128 - 2 * half
            } else {
                u as i128
            };
            Ok((Value::Integer(v as i64), n))
        }
    } else if t == 8 {
        Ok((Value::Integer(0), 0))
    } else if t == 9 {
        Ok((Value::Integer(1), 0))
    } else {
        let bytes = copy_range(s, off, n);
        if t % 2 == 0 {
            Ok((Value::Blob(bytes), n))
        } else {
            Ok((Value::Text(bytes), n))
        }
    }
}

/// The `n` bytes of `s` from `off` on.
fn copy_range(s: &[u8], off: usize, n: usize) -> (r: Vec<u8>)
    requires
        off + n <= s@.len() <= 0x7fff_ffff,
    ensures
        r@ == s@.subrange(off as int, off + n),
{
    let mut out: Vec<u8> = Vec::new();
    let mut i: usize = 0;
    while i < n
        invariant
            i <= n,
            off + n <= s@.len() <= 0x7fff_ffff,
            out@ == s@.subrange(off as int, off + i),
        decreases n - i,
    {
        out.push(s[off + i]);
        i += 1;
        assert(out@ =~= s@.subrange(off as int, off + i));
    }
    out
}

/// Decodes all columns of the record `s`.
pub fn parse_record(s: &[u8]) -> (r: Result<Vec<Value>, Error>)
    requires
        s@.len() <= 0x7fff_ffff,
    ensures
        match r {
            Ok(v) => record_values(s@) == Some(views(v@)),
            Err(e) => e == Error::Corrupt && record_values(s@) is None,
        },
{
    let (hs, n) = match parse_varint(s, 0) {
        Some(x) => x,
        None => {
            return Err(Error::Corrupt);
        },
    };
    if hs < n as u64 || hs > s.len() as u64 {
        return Err(Error::Corrupt);
    }
    let hs = hs as usize;
    let mut pos = n;
    let mut body = hs;
    let mut values: Vec<Value> = Vec::new();
    assert(views(values@) + record_from(s@, pos as int, hs as int, body as int).unwrap_or(Seq::empty())
        =~= record_from(s@, pos as int, hs as int, body as int).unwrap_or(Seq::empty()));
    while pos < hs
        invariant
            n <= pos <= hs <= s@.len() <= 0x7fff_ffff,
            body <= s@.len(),
            record_values(s@) == match record_from(s@, pos as int, hs as int, body as int) {
                Some(rest) => Some(views(values@) + rest),
                None => None,
            },
        decreases hs - pos,
    {
        let (t, m) = match parse_varint(s, pos) {
            Some(x) => x,
            None => {
                return Err(Error::Corrupt);
            },
        };
        if m > hs - pos {
            return Err(Error::Corrupt);
        }
        let (v, size) = parse_column(s, body, t)?;
        let ghost old_values = values@;
        let ghost vv = v@;
        values.push(v);
        proof {
            assert(views(values@) =~= views(old_values).push(vv));
            match record_from(s@, (pos + m) as int, hs as int, (body + size) as int) {
                Some(rest) => {
                    assert(views(old_values) + (seq![vv] + rest) =~= views(values@) + rest);
                },
                None => {},
            }
        }
        pos = pos + m;
        body = body + size;
    }
    assert(views(values@) + Seq::<ValueView>::empty() =~= views(values@));
    Ok(values)
}

/// The decoded columns of a record.
pub struct Columns {
    values: Vec<Value>,
}

impl View for Columns {
    type V = Seq<ValueView>;

    closed spec fn view(&self) -> Seq<ValueView> {
        views(self.values@)
    }
}

impl Columns {
    /// Column `i`; `None` past the last column.
    pub fn get(&self, i: usize) -> (r: Option<&Value>)
        ensures
            r is Some <==> i < self@.len(),
            r is Some ==> r->Some_0@ == self@[i as int],
    {
        if i < self.values.len() {
            Some(&self.values[i])
        } else {
            None
        }
    }

    /// Number of columns.
    pub fn len(&self) -> (r: usize)
        ensures
            r == self@.len(),
    {
        self.values.len()
    }

    /// Whether the record has no column.
    pub fn is_empty(&self) -> (r: bool)
        ensures
            r == (self@.len() == 0),
    {
        self.values.len() == 0
    }

    /// The columns in order, to iterate over.
    pub fn iter(&self) -> (r: &[Value])
        ensures
            views(r@) == self@,
    {
        self.values.as_slice()
    }
}

/// A table row: its rowid and its record.
pub struct Row {
    pub rowid: i64,
    pub payload: Vec<u8>,
}

impl Row {
    /// Decodes the columns of the row's record.
    pub fn parse(&self) -> (r: Result<Columns, Error>)
        ensures
            match r {
                Ok(c) => record_values(self.payload@) == Some(c@),
                Err(e) => e == Error::Corrupt && (self.payload@.len() > 0x7fff_ffff || record_values(
                    self.payload@,
                ) is None),
            },
    {
        if self.payload.len() > 0x7fff_ffff {
            return Err(Error::Corrupt);
        }
        let values = parse_record(self.payload.as_slice())?;
        Ok(Columns { values })
    }
}

/// The whole content of a payload, overflow pages included.
pub fn payload_bytes(payload: &BtreePayload) -> (r: Result<Vec<u8>, Error>)
    requires
        payload.wf(),
    ensures
        match r {
            Ok(b) => payload.spec_size() > 0 && payload.spec_range(0, payload.spec_size()) == Some(b@),
            Err(e) => e == Error::Corrupt && (payload.spec_size() <= 0 || payload.spec_range(
                0,
                payload.spec_size(),
            ) is None),
        },
{
    let size = payload.size();
    if size <= 0 {
        return Err(Error::Corrupt);
    }
    let mut buf: Vec<u8> = Vec::new();
    let mut i: i32 = 0;
    while i < size
        invariant
            0 <= i <= size,
            buf@.len() == i,
        decreases size - i,
    {
        buf.push(0);
        i += 1;
    }
    match payload.load(0, buf.as_mut_slice()) {
        Ok(n) => {
            proof {
                payload.lemma_range_len(0, size as int);
                assert(buf@.skip(n as int) =~= Seq::<u8>::empty());
                assert(buf@ =~= payload.spec_range(0, payload.spec_size()).unwrap());
            }
            Ok(buf)
        },
        Err(_) => Err(Error::Corrupt),
    }
}

/// Decodes the record that a payload holds.
pub fn parse_record_payload(payload: &BtreePayload) -> (r: Result<Columns, Error>)
    requires
        payload.wf(),
    ensures
        match r {
            Ok(c) => {
                &&& payload.spec_size() > 0
                &&& payload.spec_range(0, payload.spec_size()) is Some
                &&& record_values(payload.spec_range(0, payload.spec_size()).unwrap()) == Some(c@)
            },
            Err(e) => e == Error::Corrupt && (payload.spec_size() <= 0 || payload.spec_range(
                0,
                payload.spec_size(),
            ) is None || record_values(payload.spec_range(0, payload.spec_size()).unwrap())
                is None),
        },
{
    let bytes = payload_bytes(payload)?;
    proof {
        payload.lemma_range_len(0, payload.spec_size());
    }
    let values = parse_record(bytes.as_slice())?;
    Ok(Columns { values })
}

/// A key value with the collation it compares under.
pub struct ValueCmp {
    pub value: Value,
    pub collation: Collation,
}

impl ValueCmp {
    /// A key of `value` compared under `collation`.
    pub fn new(value: &Value, collation: &Collation) -> (r: ValueCmp)
        ensures
            r.value@ == value@,
            r.collation == *collation,
    {
        ValueCmp { value: copy_value(value), collation: *collation }
    }

    /// The order of the key and `v`.
    pub fn compare(&self, v: &Value) -> (r: Ordering)
        ensures
            r == value_cmp(self.value@, self.collation, v@),
    {
        compare_value(&self.value, self.collation, v)
    }
}

/// The keys as values with collations.
pub open spec fn keys_view(keys: Seq<ValueCmp>) -> Seq<(ValueView, Collation)> {
    keys.map_values(|k: ValueCmp| (k.value@, k.collation))
}

/// The order of the keys and a record's columns: the first pair that differs decides;
/// where the keys or the columns run out first, they compare equal.
pub open spec fn record_cmp(keys: Seq<(ValueView, Collation)>, values: Seq<ValueView>) -> Ordering
    decreases keys.len(),
{
    if keys.len() == 0 || values.len() == 0 {
        Ordering::Equal
    } else {
        let o = value_cmp(keys[0].0, keys[0].1, values[0]);
        if o != Ordering::Equal {
            o
        } else {
            record_cmp(keys.drop_first(), values.drop_first())
        }
    }
}

/// Compares the keys with the columns of a record.
pub fn compare_record(keys: &[ValueCmp], record: &Columns) -> (r: Ordering)
    ensures
        r == record_cmp(keys_view(keys@), record@),
{
    let mut i: usize = 0;
    let ghost k = keys_view(keys@);
    let ghost v = record@;
    assert(k.skip(0) =~= k);
    assert(v.skip(0) =~= v);
    while i < keys.len() && i < record.values.len()
        invariant
            i <= keys@.len(),
            i <= record.values@.len(),
            k == keys_view(keys@),
            v == record@,
            v.len() == record.values@.len(),
            record_cmp(k, v) == record_cmp(k.skip(i as int), v.skip(i as int)),
        decreases keys@.len() - i,
    {
        let o = keys[i].compare(&record.values[i]);
        assert(k.skip(i as int)[0] == (keys@[i as int].value@, keys@[i as int].collation));
        assert(v.skip(i as int)[0] == record.values@[i as int]@);
        match o {
            Ordering::Equal => {},
            _ => {
                return o;
            },
        }
        assert(k.skip(i as int).drop_first() =~= k.skip(i + 1));
        assert(v.skip(i as int).drop_first() =~= v.skip(i + 1));
        i += 1;
    }
    Ordering::Equal
}

} // verus!
