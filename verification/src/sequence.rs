//! Fixed-width packed unsigned integers addressed by position.
use vstd::prelude::*;
use vstd::arithmetic::power2::{pow2, lemma_pow2_adds, lemma_pow2_pos, lemma2_to64,
    lemma2_to64_rest, lemma_pow2_strictly_increases};

use crate::ReadError;
use crate::bits::bit_of;
use crate::crc::{crc8, crc8_of, crc32c, crc32c_of};
use crate::vbyte::{decode_vbyte, spec_vbyte};
use crate::wire::{le32_at, read_le32};

verus! {

/// The value of the `k` bits starting at bit `base` of a packed little-endian
/// payload, least-significant bit first.
pub open spec fn bits_val(data: Seq<u8>, base: int, k: nat) -> nat
    decreases k,
{
    if k == 0 {
        0
    } else {
        bits_val(data, base, (k - 1) as nat) + if bit_of(data, base + k - 1) {
            pow2((k - 1) as nat)
        } else {
            0
        }
    }
}

pub proof fn lemma_bits_val_bound(data: Seq<u8>, base: int, k: nat)
    ensures
        bits_val(data, base, k) < pow2(k),
    decreases k,
{
    if k == 0 {
        lemma2_to64();
    } else {
        lemma_bits_val_bound(data, base, (k - 1) as nat);
        lemma_pow2_adds((k - 1) as nat, 1);
        lemma2_to64();
    }
}

/// Fixed-width packed unsigned integer sequence: entry `i` occupies the `w`
/// bits starting at bit `i * w` of the packed payload.
pub struct Sequence {
    pub bits_per_entry: usize,
    pub entries: usize,
    pub data: Vec<u8>,
}

impl Sequence {
    /// Shape of a well-formed sequence: a usable width, every entry packed
    /// inside the payload, and every value representable in a machine word.
    pub open spec fn wf(self) -> bool {
        &&& 1 <= self.bits_per_entry <= 64
        &&& self.entries * self.bits_per_entry <= self.data@.len() * 8
        &&& self.entries * self.bits_per_entry <= usize::MAX
        &&& forall|i: int|
            0 <= i < self.entries ==> #[trigger] self.value_at(i) <= usize::MAX as nat
    }

    /// The mathematical value of entry `i`.
    pub open spec fn value_at(self, i: int) -> nat {
        bits_val(self.data@, i * self.bits_per_entry, self.bits_per_entry as nat)
    }

    /// The sequence of stored values.
    pub open spec fn vals(self) -> Seq<nat> {
        Seq::new(self.entries as nat, |i: int| self.value_at(i))
    }

    /// Number of entries.
    pub fn len(&self) -> (r: usize)
        ensures
            r == self.entries,
    {
        self.entries
    }

    /// Read entry `i`; zero when `i` or the stored shape is out of range.
    pub fn get(&self, i: usize) -> (r: usize)
        ensures
            self.wf() && i < self.entries ==> r as nat == self.value_at(i as int),
    {
        let w = self.bits_per_entry;
        if w == 0 || w > 64 || i >= self.entries {
            return 0;
        }
        if i > usize::MAX / w {
            proof {
                if self.wf() {
                    assert((i as nat) * (w as nat) <= (self.entries as nat) * (w as nat))
                        by (nonlinear_arith)
                        requires
                            i < self.entries,
                            w >= 1,
                    ;
                    assert(usize::MAX / w * w + w > usize::MAX) by (nonlinear_arith)
                        requires
                            w >= 1,
                    ;
                    assert((i as nat) * (w as nat) > usize::MAX as nat) by (nonlinear_arith)
                        requires
                            i > usize::MAX / w,
                            w >= 1,
                            usize::MAX / w * w + w > usize::MAX,
                    ;
                }
            }
            return 0;
        }
        proof {
            assert((i as nat) * (w as nat) <= (usize::MAX / w) as nat * (w as nat)
                && (usize::MAX / w) as nat * (w as nat) <= usize::MAX as nat) by (nonlinear_arith)
                requires
                    i <= usize::MAX / w,
                    w >= 1,
            ;
        }
        let base = i * w;
        proof {
            if self.wf() {
                assert((i as nat + 1) * (w as nat) <= (self.entries as nat) * (w as nat)
                    && (i as nat + 1) * (w as nat) == (i as nat) * (w as nat) + w)
                    by (nonlinear_arith)
                    requires
                        i < self.entries,
                        w >= 1,
                ;
            }
        }
        if (base as u128) + (w as u128) > (self.data.len() as u128) * 8 {
            return 0;
        }
        if base > usize::MAX - w {
            return 0;
        }
        let r64 = get_raw(&self.data, w, base);
        proof {
            if self.wf() && i < self.entries {
                assert(self.value_at(i as int) <= usize::MAX as nat);
            }
        }
        if r64 > usize::MAX as u64 {
            return 0;
        }
        r64 as usize
    }
}

/// Entry `i` of a `w`-bit packed payload is representable in a machine word.
pub open spec fn entry_fits(payload: Seq<u8>, w: int, i: int) -> bool {
    bits_val(payload, i * w, w as nat) <= usize::MAX as nat
}

/// Outcome of parsing a sequence section at `pos`: width, entry count,
/// payload and the position one past the trailing checksum.  The framing is
/// one type byte `0x01`, one width byte, a vbyte entry count, a CRC-8 of
/// those header bytes, the packed payload, and a little-endian CRC-32C of
/// the payload.  A width outside `1..=64`, or an entry that does not fit a
/// machine word, is unsupported.
pub open spec fn spec_parse_sequence(data: Seq<u8>, pos: int) -> Result<
    (int, int, Seq<u8>, int),
    ReadError,
> {
    if pos + 2 > data.len() {
        Err(ReadError::UnexpectedEnd)
    } else if data[pos] != 1 {
        Err(ReadError::UnsupportedSectionType)
    } else if data[pos + 1] < 1 || data[pos + 1] > 64 {
        Err(ReadError::UnsupportedSectionType)
    } else {
        let w = data[pos + 1] as int;
        match spec_vbyte(data, pos + 2) {
            None => Err(ReadError::MalformedVByte),
            Some((n, vl)) => {
                let crcpos = pos + 2 + vl;
                if crcpos >= data.len() {
                    Err(ReadError::UnexpectedEnd)
                } else if data[crcpos] != crc8_of(data.subrange(pos, crcpos)) {
                    Err(ReadError::ChecksumMismatch)
                } else if n * w > usize::MAX as int {
                    Err(ReadError::UnsupportedSectionType)
                } else {
                    let nbytes = (n * w + 7) / 8;
                    let pstart = crcpos + 1;
                    if pstart + nbytes + 4 > data.len() {
                        Err(ReadError::UnexpectedEnd)
                    } else {
                        let payload = data.subrange(pstart, pstart + nbytes);
                        if le32_at(data, pstart + nbytes) != crc32c_of(payload) {
                            Err(ReadError::ChecksumMismatch)
                        } else if exists|i: int| 0 <= i < n && !#[trigger] entry_fits(payload, w, i) {
                            Err(ReadError::UnsupportedSectionType)
                        } else {
                            Ok((w, n as int, payload, pstart + nbytes + 4))
                        }
                    }
                }
            },
        }
    }
}

impl Sequence {
    /// Parse a sequence section at `pos`, returning the sequence and the
    /// position one past its trailing checksum.
    #[verifier::loop_isolation(false)]
    pub fn read(data: &[u8], pos: usize) -> (r: Result<(Sequence, usize), ReadError>)
        ensures
            r matches Ok(p) ==> (spec_parse_sequence(data@, pos as int) matches Ok(sp)
                && p.0.bits_per_entry == sp.0 && p.0.entries == sp.1 && p.0.data@ == sp.2 && p.1
                == sp.3 && p.0.wf()),
            r matches Err(e) ==> spec_parse_sequence(data@, pos as int) == Err::<
                (int, int, Seq<u8>, int),
                ReadError,
            >(e),
    {
        let len = data.len();
        if pos >= len || pos + 1 >= len {
            return Err(ReadError::UnexpectedEnd);
        }
        if data[pos] != 1 {
            return Err(ReadError::UnsupportedSectionType);
        }
        let w = data[pos + 1] as usize;
        if w < 1 || w > 64 {
            return Err(ReadError::UnsupportedSectionType);
        }
        let (n64, vl) = match decode_vbyte(data, pos + 2) {
            Ok(x) => x,
            Err(e) => {
                return Err(e);
            },
        };
        let crcpos = pos + 2 + vl;
        if crcpos >= len {
            return Err(ReadError::UnexpectedEnd);
        }
        let header = vstd::slice::slice_subrange(data, pos, crcpos);
        if data[crcpos] != crc8(header) {
            return Err(ReadError::ChecksumMismatch);
        }
        proof {
            assert((n64 as nat) * (w as nat) <= (u64::MAX as nat) * 64) by (nonlinear_arith)
                requires
                    n64 <= u64::MAX,
                    w <= 64,
            ;
        }
        if (n64 as u128) * (w as u128) > usize::MAX as u128 {
            return Err(ReadError::UnsupportedSectionType);
        }
        proof {
            assert((n64 as nat) <= (n64 as nat) * (w as nat)) by (nonlinear_arith)
                requires
                    w >= 1,
            ;
        }
        let n = n64 as usize;
        let nbits = n * w;
        let nbytes = nbits / 8 + if nbits % 8 != 0 {
            1
        } else {
            0
        };
        proof {
            assert(nbytes as int == (nbits as int + 7) / 8);
        }
        let pstart = crcpos + 1;
        if nbytes > len - pstart || 4 > len - pstart - nbytes {
            return Err(ReadError::UnexpectedEnd);
        }
        let payload = vstd::slice::slice_subrange(data, pstart, pstart + nbytes);
        let stored = read_le32(data, pstart + nbytes);
        if stored != crc32c(payload) {
            return Err(ReadError::ChecksumMismatch);
        }
        // every entry must fit a machine word
        let pdata = slice_owned(payload);
        let mut i: usize = 0;
        while i < n
            invariant
                i <= n,
                1 <= w <= 64,
                n * w <= usize::MAX,
                8 * payload@.len() >= n * w,
                pdata@ == payload@,
                forall|ii: int| 0 <= ii < i ==> #[trigger] entry_fits(payload@, w as int, ii),
            decreases n - i,
        {
            proof {
                assert((i as nat) * (w as nat) + w <= (n as nat) * (w as nat)
                    && (i as nat + 1) * (w as nat) == (i as nat) * (w as nat) + w
                    && (i as nat) * (w as nat) <= usize::MAX as nat) by (nonlinear_arith)
                    requires
                        i < n,
                        w >= 1,
                        (n as nat) * (w as nat) <= usize::MAX as nat,
                ;
            }
            let v = get_raw(&pdata, w, i * w);
            if v > usize::MAX as u64 {
                proof {
                    assert(!entry_fits(payload@, w as int, i as int));
                }
                return Err(ReadError::UnsupportedSectionType);
            }
            proof {
                assert(entry_fits(payload@, w as int, i as int));
            }
            i = i + 1;
        }
        let seq = Sequence { bits_per_entry: w, entries: n, data: pdata };
        proof {
            assert(seq.data@ == payload@);
            assert(seq.entries * seq.bits_per_entry <= seq.data@.len() * 8);
            assert forall|ii: int| 0 <= ii < n implies #[trigger] seq.value_at(ii)
                <= usize::MAX as nat by {
                assert(entry_fits(payload@, w as int, ii));
            }
            assert(seq.wf());
        }
        Ok((seq, pstart + nbytes + 4))
    }
}

/// Copy a byte slice into an owned vector.
fn slice_owned(s: &[u8]) -> (r: Vec<u8>)
    ensures
        r@ == s@,
{
    vstd::slice::slice_to_vec(s)
}

/// Read the `w` bits starting at bit `base`, least-significant first.
fn get_raw(data: &Vec<u8>, w: usize, base: usize) -> (r: u64)
    requires
        1 <= w <= 64,
        base + w <= data@.len() * 8,
        base + w <= usize::MAX,
    ensures
        r as nat == bits_val(data@, base as int, w as nat),
{
    let mut k: usize = 0;
    let mut v: u64 = 0;
    let mut place: u64 = 1;
    proof {
        lemma2_to64();
    }
    while k < w
        invariant
            0 <= k <= w <= 64,
            base + w <= data@.len() * 8,
            base + w <= usize::MAX,
            v as nat == bits_val(data@, base as int, k as nat),
            v < pow2(k as nat),
            k < w ==> place == pow2(k as nat),
        decreases w - k,
    {
        let j = base + k;
        proof {
            assert(j / 8 < data@.len()) by (nonlinear_arith)
                requires
                    (j as nat) < (data@.len() as nat) * 8,
            ;
        }
        let byte = data[j / 8];
        let sh = (j % 8) as u8;
        let bit = ((byte >> sh) & 1u8) == 1u8;
        proof {
            assert(bit == bit_of(data@, j as int));
            lemma_pow2_adds(k as nat, 1);
            lemma2_to64();
            lemma2_to64_rest();
            if (k + 1) as nat <= 64 {
                if (k + 1) < 64 {
                    lemma_pow2_strictly_increases((k + 1) as nat, 64);
                }
            }
        }
        if bit {
            v = v + place;
        }
        k = k + 1;
        if k < w {
            place = place * 2;
        }
    }
    v
}

} // verus!
