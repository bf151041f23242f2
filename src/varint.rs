use vstd::prelude::*;

verus! {

/// Value of the big-endian 16-bit integer at `off`.
pub open spec fn be16(s: Seq<u8>, off: int) -> int {
    s[off] as int * 0x100 + s[off + 1] as int
}

/// Value of the big-endian 32-bit integer at `off`.
pub open spec fn be32(s: Seq<u8>, off: int) -> int {
    s[off] as int * 0x100_0000 + s[off + 1] as int * 0x1_0000 + s[off + 2] as int * 0x100
        + s[off + 3] as int
}

/// Decoding state of a varint at `off` after `i` bytes, with `acc` accumulated so far.
///
/// The first eight bytes carry seven bits each and a continuation bit; a ninth byte, if
/// reached, carries eight bits. The result is the value and the number of bytes used.
pub open spec fn varint_from(s: Seq<u8>, off: int, i: int, acc: int) -> Option<(int, int)>
    decreases 9 - i,
{
    if i < 0 || i >= 9 || off < 0 || off + i >= s.len() {
        None
    } else if i == 8 {
        Some((acc * 0x100 + s[off + 8] as int, 9))
    } else if s[off + i] < 0x80 {
        Some((acc * 0x80 + s[off + i] as int, i + 1))
    } else {
        varint_from(s, off, i + 1, acc * 0x80 + (s[off + i] - 0x80))
    }
}

/// The varint that starts at `off`: its value and its length in bytes.
pub open spec fn varint_at(s: Seq<u8>, off: int) -> Option<(int, int)> {
    varint_from(s, off, 0, 0)
}

proof fn lemma_varint_from(s: Seq<u8>, off: int, i: int, acc: int)
    requires
        0 <= acc,
        varint_from(s, off, i, acc) is Some,
    ensures
        varint_from(s, off, i, acc).unwrap().0 >= 0,
        1 <= varint_from(s, off, i, acc).unwrap().1 <= 9,
        off >= 0,
        off + varint_from(s, off, i, acc).unwrap().1 <= s.len(),
    decreases 9 - i,
{
    if 0 <= i < 8 && off >= 0 && off + i < s.len() && s[off + i] >= 0x80 {
        lemma_varint_from(s, off, i + 1, acc * 0x80 + (s[off + i] - 0x80));
    }
}

/// A varint that decodes is non-negative and lies within the bytes.
pub proof fn lemma_varint_at(s: Seq<u8>, off: int)
    requires
        varint_at(s, off) is Some,
    ensures
        varint_at(s, off).unwrap().0 >= 0,
        1 <= varint_at(s, off).unwrap().1 <= 9,
        off >= 0,
        off + varint_at(s, off).unwrap().1 <= s.len(),
{
    lemma_varint_from(s, off, 0, 0);
}

proof fn lemma_varint_from_same(s1: Seq<u8>, s2: Seq<u8>, off: int, i: int, acc: int)
    requires
        s1.len() == s2.len(),
        forall|j: int| off <= j < s1.len() ==> s1[j] == s2[j],
    ensures
        varint_from(s1, off, i, acc) == varint_from(s2, off, i, acc),
    decreases 9 - i,
{
    if 0 <= i < 8 && off >= 0 && off + i < s1.len() && s1[off + i] >= 0x80 {
        lemma_varint_from_same(s1, s2, off, i + 1, acc * 0x80 + (s1[off + i] - 0x80));
    }
}

/// A varint depends only on the bytes from its start on.
pub proof fn lemma_varint_same(s1: Seq<u8>, s2: Seq<u8>, off: int)
    requires
        s1.len() == s2.len(),
        forall|j: int| off <= j < s1.len() ==> s1[j] == s2[j],
    ensures
        varint_at(s1, off) == varint_at(s2, off),
{
    lemma_varint_from_same(s1, s2, off, 0, 0);
}

/// Exclusive upper bound of the value accumulated from `i` continuation bytes.
pub open spec fn acc_cap(i: int) -> int {
    if i <= 0 {
        0x1
    } else if i == 1 {
        0x80
    } else if i == 2 {
        0x4000
    } else if i == 3 {
        0x20_0000
    } else if i == 4 {
        0x1000_0000
    } else if i == 5 {
        0x8_0000_0000
    } else if i == 6 {
        0x400_0000_0000
    } else if i == 7 {
        0x2_0000_0000_0000
    } else {
        0x100_0000_0000_0000
    }
}

/// Number of bytes of the shortest encoding of `v`.
pub open spec fn varint_len(v: u64) -> int {
    if v < 0x80 {
        1
    } else if v < 0x4000 {
        2
    } else if v < 0x20_0000 {
        3
    } else if v < 0x1000_0000 {
        4
    } else if v < 0x8_0000_0000 {
        5
    } else if v < 0x400_0000_0000 {
        6
    } else if v < 0x2_0000_0000_0000 {
        7
    } else if v < 0x100_0000_0000_0000 {
        8
    } else {
        9
    }
}

/// Byte `k` of the shortest encoding of `v`.
pub open spec fn varint_byte(v: u64, k: int) -> u8 {
    let n = varint_len(v);
    if n == 9 && k == 8 {
        (v & 0xff) as u8
    } else if n == 9 {
        (((v >> ((57 - 7 * k) as u64)) & 0x7f) | 0x80) as u8
    } else if k == n - 1 {
        (v & 0x7f) as u8
    } else {
        (((v >> ((7 * (n - 1 - k)) as u64)) & 0x7f) | 0x80) as u8
    }
}

/// The shortest encoding of `v`.
pub open spec fn varint_bytes(v: u64) -> Seq<u8> {
    Seq::new(varint_len(v) as nat, |k: int| varint_byte(v, k))
}

proof fn lemma_shr_step(v: u64, sh: u64)
    by (bit_vector)
    requires
        sh <= 56,
    ensures
        ((v >> ((sh + 7) as u64)) as int) * 0x80 + ((v >> sh) & 0x7f) as int == (v >> sh) as int,
{
}

proof fn lemma_group_bytes(x: u64)
    by (bit_vector)
    ensures
        (((x & 0x7f) | 0x80) as u8) >= 0x80,
        (((x & 0x7f) | 0x80) as u8) as int - 0x80 == (x & 0x7f) as int,
        ((x & 0x7f) as u8) < 0x80,
        ((x & 0x7f) as u8) as int == (x & 0x7f) as int,
{
}

/// Decoding the shortest encoding of a value below `2^56` from byte `k` on, with the value's
/// leading groups accumulated, gives the value back.
proof fn lemma_decode_short(s: Seq<u8>, off: int, v: u64, k: int)
    requires
        1 <= varint_len(v) <= 8,
        0 <= k < varint_len(v),
        0 <= off,
        off + varint_len(v) <= s.len(),
        forall|j: int| 0 <= j < varint_len(v) ==> s[off + j] == #[trigger] varint_byte(v, j),
    ensures
        varint_from(s, off, k, (v >> ((7 * (varint_len(v) - k)) as u64)) as int) == Some(
            (v as int, varint_len(v)),
        ),
    decreases varint_len(v) - k,
{
    let n = varint_len(v);
    let sh = (7 * (n - 1 - k)) as u64;
    assert((sh + 7) as u64 == (7 * (n - k)) as u64);
    lemma_shr_step(v, sh);
    lemma_group_bytes(v >> sh);
    assert(s[off + k] == varint_byte(v, k));
    if k < n - 1 {
        lemma_decode_short(s, off, v, k + 1);
        assert((7 * (n - (k + 1))) as u64 == sh);
    } else {
        assert(sh == 0);
        assert(v >> 0u64 == v) by (bit_vector);
        assert((v & 0x7f) == ((v >> 0u64) & 0x7f)) by (bit_vector);
    }
}

/// As `lemma_decode_short`, for the nine-byte encoding of a value of `2^56` or more.
proof fn lemma_decode_long(s: Seq<u8>, off: int, v: u64, k: int)
    requires
        varint_len(v) == 9,
        0 <= k <= 8,
        0 <= off,
        off + 9 <= s.len(),
        forall|j: int| 0 <= j < 9 ==> s[off + j] == #[trigger] varint_byte(v, j),
    ensures
        varint_from(s, off, k, ((v >> 8u64) >> ((7 * (8 - k)) as u64)) as int) == Some((v as int, 9int)),
    decreases 8 - k,
{
    let w = v >> 8u64;
    assert(s[off + k] == varint_byte(v, k));
    if k == 8 {
        assert(w >> 0u64 == w) by (bit_vector);
        assert((v >> 8u64) as int * 0x100 + ((v & 0xff) as u8) as int == v as int) by (bit_vector);
    } else {
        let sh = (7 * (7 - k)) as u64;
        assert((sh + 7) as u64 == (7 * (8 - k)) as u64);
        lemma_shr_step(w, sh);
        let t = (57 - 7 * k) as u64;
        assert(t == sh + 8);
        assert((v >> 8u64) >> sh == v >> t) by (bit_vector)
            requires
                t == sh + 8,
                t <= 57,
        ;
        lemma_group_bytes(w >> sh);
        lemma_decode_long(s, off, v, k + 1);
        assert((7 * (8 - (k + 1))) as u64 == sh);
    }
}

/// The shortest encoding of `v` decodes to `v`, whatever bytes follow it.
pub proof fn lemma_varint_round_trip(s: Seq<u8>, off: int, v: u64)
    requires
        0 <= off,
        off + varint_len(v) <= s.len(),
        s.subrange(off, off + varint_len(v)) == varint_bytes(v),
    ensures
        varint_at(s, off) == Some((v as int, varint_len(v))),
{
    let n = varint_len(v);
    assert forall|j: int| 0 <= j < n implies s[off + j] == #[trigger] varint_byte(v, j) by {
        assert(s.subrange(off, off + n)[j] == varint_bytes(v)[j]);
    }
    if n <= 8 {
        if n == 1 {
            assert(v >> 7u64 == 0) by (bit_vector) requires v < 0x80;
        } else if n == 2 {
            assert(v >> 14u64 == 0) by (bit_vector) requires v < 0x4000;
        } else if n == 3 {
            assert(v >> 21u64 == 0) by (bit_vector) requires v < 0x20_0000;
        } else if n == 4 {
            assert(v >> 28u64 == 0) by (bit_vector) requires v < 0x1000_0000;
        } else if n == 5 {
            assert(v >> 35u64 == 0) by (bit_vector) requires v < 0x8_0000_0000;
        } else if n == 6 {
            assert(v >> 42u64 == 0) by (bit_vector) requires v < 0x400_0000_0000;
        } else if n == 7 {
            assert(v >> 49u64 == 0) by (bit_vector) requires v < 0x2_0000_0000_0000;
        } else {
            assert(v >> 56u64 == 0) by (bit_vector) requires v < 0x100_0000_0000_0000;
        }
        lemma_decode_short(s, off, v, 0);
    } else {
        assert((v >> 8u64) >> 56u64 == 0) by (bit_vector);
        lemma_decode_long(s, off, v, 0);
    }
}

/// Reads the varint that starts at `off`; `None` where `buf` ends before it does.
pub fn parse_varint(buf: &[u8], off: usize) -> (r: Option<(u64, usize)>)
    ensures
        match r {
            Some((v, n)) => varint_at(buf@, off as int) == Some((v as int, n as int)) && 1 <= n <= 9
                && off + n <= buf@.len(),
            None => varint_at(buf@, off as int) is None,
        },
{
    let mut acc: u64 = 0;
    let mut i: usize = 0;
    while i < 9
        invariant
            i <= 8,
            acc < acc_cap(i as int),
            varint_at(buf@, off as int) == varint_from(buf@, off as int, i as int, acc as int),
        decreases 9 - i,
    {
        if off >= buf.len() || i >= buf.len() - off {
            return None;
        }
        let b = buf[off + i];
        if i == 8 {
            return Some((acc * 0x100 + b as u64, 9));
        }
        if b < 0x80 {
            return Some((acc * 0x80 + b as u64, i + 1));
        }
        acc = acc * 0x80 + (b - 0x80) as u64;
        i += 1;
    }
    None
}

/// Number of bytes that `put_varint` writes for `v`.
pub fn varint_size(v: u64) -> (r: usize)
    ensures
        r as int == varint_len(v),
{
    if v < 0x80 {
        1
    } else if v < 0x4000 {
        2
    } else if v < 0x20_0000 {
        3
    } else if v < 0x1000_0000 {
        4
    } else if v < 0x8_0000_0000 {
        5
    } else if v < 0x400_0000_0000 {
        6
    } else if v < 0x2_0000_0000_0000 {
        7
    } else if v < 0x100_0000_0000_0000 {
        8
    } else {
        9
    }
}

/// Appends the shortest encoding of `v` to `out`.
pub fn put_varint(out: &mut Vec<u8>, v: u64)
    ensures
        final(out)@ == old(out)@ + varint_bytes(v),
{
    let n = varint_size(v);
    let ghost start = out@;
    let mut k: usize = 0;
    while k < n
        invariant
            n as int == varint_len(v),
            k <= n,
            out@ == start + varint_bytes(v).take(k as int),
        decreases n - k,
    {
        let b: u8 = if n == 9 && k == 8 {
            (v & 0xff) as u8
        } else if n == 9 {
            (((v >> ((57 - 7 * k) as u64)) & 0x7f) | 0x80) as u8
        } else if k == n - 1 {
            (v & 0x7f) as u8
        } else {
            (((v >> ((7 * (n - 1 - k)) as u64)) & 0x7f) | 0x80) as u8
        };
        out.push(b);
        k += 1;
        assert(varint_bytes(v).take(k as int) =~= varint_bytes(v).take(k - 1) + seq![b]);
    }
    assert(varint_bytes(v).take(n as int) =~= varint_bytes(v));
}

} // verus!
