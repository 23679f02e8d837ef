//! Variable-length unsigned integers: seven payload bits per byte,
//! little-endian by byte order, with the high bit of the final byte set.
use vstd::prelude::*;

use crate::ReadError;

verus! {

/// 128 to the power `n`.
pub open spec fn p128(n: nat) -> nat
    decreases n,
{
    if n == 0 {
        1
    } else {
        128 * p128((n - 1) as nat)
    }
}

/// The value carried by the payload bits of `s`, little-endian by byte order.
pub open spec fn vbyte_value(s: Seq<u8>) -> nat
    decreases s.len(),
{
    if s.len() == 0 {
        0
    } else {
        (s[0] & 0x7f) as nat + 128 * vbyte_value(s.drop_first())
    }
}

/// `s` is one complete encoding: the high bit is set exactly on the last byte.
pub open spec fn is_vbyte(s: Seq<u8>) -> bool {
    &&& s.len() >= 1
    &&& forall|i: int| 0 <= i < s.len() - 1 ==> s[i] < 128
    &&& s[s.len() - 1] >= 128
}

proof fn lemma_vbyte_value_snoc(s: Seq<u8>, b: u8)
    ensures
        vbyte_value(s.push(b)) == vbyte_value(s) + (b & 0x7f) * p128(s.len()),
    decreases s.len(),
{
    if s.len() == 0 {
        assert(s.push(b).drop_first() =~= Seq::<u8>::empty());
        assert(vbyte_value(s.push(b)) == (b & 0x7f) as nat + 128 * vbyte_value(Seq::<u8>::empty()));
    } else {
        assert(s.push(b).drop_first() =~= s.drop_first().push(b));
        lemma_vbyte_value_snoc(s.drop_first(), b);
        let l1 = (s.len() - 1) as nat;
        assert(p128(s.len()) == 128 * p128(l1));
        assert(128 * ((b & 0x7f) as nat * p128(l1)) == (b & 0x7f) as nat * (128 * p128(l1)))
            by (nonlinear_arith);
    }
}

proof fn lemma_p128_mono(a: nat, b: nat)
    requires
        a <= b,
    ensures
        p128(a) <= p128(b),
    decreases b,
{
    if a < b {
        lemma_p128_mono(a, (b - 1) as nat);
    }
}

proof fn lemma_p128_bound(n: nat)
    requires
        n <= 8,
    ensures
        p128(n) <= 0x100000000000000,
{
    lemma_p128_mono(n, 8);
    assert(p128(0) == 1);
    assert(p128(1) == 128);
    assert(p128(2) == 0x4000);
    assert(p128(3) == 0x200000);
    assert(p128(4) == 0x10000000);
    assert(p128(5) == 0x800000000);
    assert(p128(6) == 0x40000000000);
    assert(p128(7) == 0x2000000000000);
    assert(p128(8) == 0x100000000000000);
}

/// A complete encoding of length `n` starts at `pos`.
pub open spec fn vbyte_len_at(data: Seq<u8>, pos: int, n: int) -> bool {
    1 <= n <= 9 && pos + n <= data.len() && is_vbyte(data.subrange(pos, pos + n))
}

/// The decoded value and encoded length of the vbyte at `pos`, or `None`
/// where no complete encoding of at most nine bytes starts there.
pub open spec fn spec_vbyte(data: Seq<u8>, pos: int) -> Option<(nat, int)> {
    if exists|n: int| vbyte_len_at(data, pos, n) {
        let n = choose|n: int| vbyte_len_at(data, pos, n);
        Some((vbyte_value(data.subrange(pos, pos + n)), n))
    } else {
        None
    }
}

/// An encoding's length is determined by its first terminating byte, so two
/// complete encodings at one position coincide.
pub proof fn lemma_vbyte_unique(data: Seq<u8>, pos: int, n1: int, n2: int)
    requires
        1 <= n1,
        1 <= n2,
        pos + n1 <= data.len(),
        pos + n2 <= data.len(),
        0 <= pos,
        is_vbyte(data.subrange(pos, pos + n1)),
        is_vbyte(data.subrange(pos, pos + n2)),
    ensures
        n1 == n2,
{
    if n1 < n2 {
        assert(data.subrange(pos, pos + n1)[n1 - 1] == data[pos + n1 - 1]);
        assert(data.subrange(pos, pos + n2)[n1 - 1] == data[pos + n1 - 1]);
    } else if n2 < n1 {
        assert(data.subrange(pos, pos + n2)[n2 - 1] == data[pos + n2 - 1]);
        assert(data.subrange(pos, pos + n1)[n2 - 1] == data[pos + n2 - 1]);
    }
}

/// A complete encoding at `pos` settles what `spec_vbyte` yields there.
pub proof fn lemma_vbyte_to_spec(data: Seq<u8>, pos: int, v: nat, n: int)
    requires
        0 <= pos,
        1 <= n <= 9,
        pos + n <= data.len(),
        is_vbyte(data.subrange(pos, pos + n)),
        v == vbyte_value(data.subrange(pos, pos + n)),
    ensures
        spec_vbyte(data, pos) == Some((v, n)),
{
    assert(vbyte_len_at(data, pos, n));
    let nc = choose|m: int| vbyte_len_at(data, pos, m);
    lemma_vbyte_unique(data, pos, n, nc);
}

/// Decode one vbyte starting at `pos`.  At most nine bytes are consumed, so a
/// decoded value always fits in 63 bits; a longer run, or one that leaves the
/// buffer before its final byte, is malformed.
pub fn decode_vbyte(data: &[u8], pos: usize) -> (r: Result<(u64, usize), ReadError>)
    ensures
        r matches Ok(vn) ==> {
            &&& 1 <= vn.1 <= 9
            &&& pos + vn.1 <= data@.len()
            &&& is_vbyte(data@.subrange(pos as int, pos + vn.1))
            &&& vn.0 == vbyte_value(data@.subrange(pos as int, pos + vn.1))
        },
        r is Ok <==> exists|n: int| vbyte_len_at(data@, pos as int, n),
        r is Err ==> r == Err::<(u64, usize), ReadError>(ReadError::MalformedVByte),
        r matches Ok(vn) ==> spec_vbyte(data@, pos as int) == Some((vn.0 as nat, vn.1 as int)),
        r is Err <==> spec_vbyte(data@, pos as int) is None,
{
    let len = data.len();
    let ghost gpos = pos as int;
    if pos > len {
        assert forall|n: int| !vbyte_len_at(data@, gpos, n) by {}
        return Err(ReadError::MalformedVByte);
    }
    let mut i: usize = 0;
    let mut value: u64 = 0;
    while i < 9
        invariant
            0 <= i <= 9,
            pos <= len,
            len == data@.len(),
            gpos == pos as int,
            pos + i <= len,
            forall|j: int| gpos <= j < gpos + i ==> data@[j] < 128,
            value == vbyte_value(data@.subrange(gpos, gpos + i)),
            value < p128(i as nat),
        decreases 9 - i,
    {
        if i >= len - pos {
            // the buffer ended before a terminating byte
            assert forall|n: int| !vbyte_len_at(data@, gpos, n) by {
                if 1 <= n <= 9 && gpos + n <= data@.len() {
                    assert(data@.subrange(gpos, gpos + n)[n - 1] == data@[gpos + n - 1]);
                }
            }
            return Err(ReadError::MalformedVByte);
        }
        let b = data[pos + i];
        let payload = b & 0x7f;
        proof {
            lemma_p128_bound(i as nat);
            assert(b & 0x7f < 128) by (bit_vector);
            assert(data@.subrange(gpos, gpos + i + 1) =~= data@.subrange(gpos, gpos + i).push(b));
            lemma_vbyte_value_snoc(data@.subrange(gpos, gpos + i), b);
            assert(payload as nat * p128(i as nat) <= 127 * p128(i as nat)) by (nonlinear_arith)
                requires
                    payload <= 127,
            ;
        }
        let ghost full = data@.subrange(gpos, gpos + i + 1);
        let place = pow128(i);
        if b >= 128 {
            let v = value + (payload as u64) * place;
            proof {
                assert(is_vbyte(full));
                assert(v == vbyte_value(full));
                lemma_vbyte_to_spec(data@, gpos, v as nat, i + 1);
                assert(vbyte_len_at(data@, gpos, i + 1));
            }
            return Ok((v, i + 1));
        }
        value = value + (payload as u64) * place;
        i = i + 1;
    }
    // nine continuation bytes without a terminator
    assert forall|n: int| !vbyte_len_at(data@, gpos, n) by {
        if 1 <= n <= 9 && gpos + n <= data@.len() {
            assert(data@.subrange(gpos, gpos + n)[n - 1] == data@[gpos + n - 1]);
        }
    }
    Err(ReadError::MalformedVByte)
}

/// Decode the shared-prefix length of a front-coded record: the same
/// encoding as [`decode_vbyte`], kept under its own name because the format
/// documents it as a distinct variant.
pub fn decode_vbyte_delta(data: &[u8], pos: usize) -> (r: Result<(u64, usize), ReadError>)
    ensures
        r matches Ok(vn) ==> {
            &&& 1 <= vn.1 <= 9
            &&& pos + vn.1 <= data@.len()
            &&& is_vbyte(data@.subrange(pos as int, pos + vn.1))
            &&& vn.0 == vbyte_value(data@.subrange(pos as int, pos + vn.1))
        },
        r is Ok <==> exists|n: int| vbyte_len_at(data@, pos as int, n),
        r is Err ==> r == Err::<(u64, usize), ReadError>(ReadError::MalformedVByte),
        r matches Ok(vn) ==> spec_vbyte(data@, pos as int) == Some((vn.0 as nat, vn.1 as int)),
        r is Err <==> spec_vbyte(data@, pos as int) is None,
{
    decode_vbyte(data, pos)
}

/// 128 to the power `i`, as a machine word.
fn pow128(i: usize) -> (r: u64)
    requires
        i <= 8,
    ensures
        r == p128(i as nat),
{
    let mut k: usize = 0;
    let mut r: u64 = 1;
    while k < i
        invariant
            0 <= k <= i <= 8,
            r == p128(k as nat),
        decreases i - k,
    {
        proof {
            lemma_p128_bound(k as nat);
        }
        r = r * 128;
        k = k + 1;
    }
    r
}

} // verus!
