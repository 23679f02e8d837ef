//! Bit vectors with rank and select, backing every succinct index of the
//! format.  The succinct dictionary itself comes from the rsdict crate; its
//! contents are modelled as a `Seq<bool>`.
use vstd::prelude::*;

use crate::ReadError;
use crate::crc::{crc8, crc8_of, crc32c, crc32c_of};
use crate::vbyte::{decode_vbyte, spec_vbyte};
use crate::wire::{le32_at, read_le32};

verus! {

/// Count of set bits strictly left of position `i` (positions outside the
/// sequence count as unset).
pub open spec fn rank1_of(s: Seq<bool>, i: int) -> nat
    decreases i,
{
    if i <= 0 {
        0
    } else {
        rank1_of(s, i - 1) + if i - 1 < s.len() && s[i - 1] {
            1nat
        } else {
            0nat
        }
    }
}

/// Position of the `(k+1)`-th set bit.
pub open spec fn sel1(s: Seq<bool>, k: nat) -> int {
    choose|i: int| 0 <= i < s.len() && s[i] && rank1_of(s, i) == k
}

pub proof fn lemma_rank1_monotone(s: Seq<bool>, i: int, j: int)
    requires
        i <= j,
    ensures
        rank1_of(s, i) <= rank1_of(s, j),
        rank1_of(s, j) <= rank1_of(s, i) + (j - i),
    decreases j - i,
{
    if i < j {
        lemma_rank1_monotone(s, i, j - 1);
    }
}

/// While the final bit is set, every proper prefix misses at least one set
/// bit.
pub proof fn lemma_rank1_lt_total(s: Seq<bool>, k: int)
    requires
        0 <= k < s.len(),
        s[s.len() - 1],
    ensures
        rank1_of(s, k) < rank1_of(s, s.len() as int),
{
    lemma_rank1_monotone(s, k, s.len() - 1);
}

/// Ranks agree on a common prefix.
pub proof fn lemma_rank1_take(s: Seq<bool>, n: int, i: int)
    requires
        0 <= i <= n <= s.len(),
    ensures
        rank1_of(s.take(n), i) == rank1_of(s, i),
    decreases i,
{
    if i > 0 {
        lemma_rank1_take(s, n, i - 1);
    }
}

/// Every rank below the total is realised by a set bit.
pub proof fn lemma_sel1_exists(s: Seq<bool>, k: nat)
    requires
        k < rank1_of(s, s.len() as int),
    ensures
        exists|i: int| 0 <= i < s.len() && s[i] && rank1_of(s, i) == k,
    decreases s.len(),
{
    let n = s.len() as int;
    if s[n - 1] && rank1_of(s, n - 1) == k {
        assert(0 <= n - 1 < s.len() && s[n - 1] && rank1_of(s, n - 1) == k);
    } else {
        assert(k < rank1_of(s, n - 1));
        let t = s.take(n - 1);
        lemma_rank1_take(s, n - 1, n - 1);
        lemma_sel1_exists(t, k);
        let i = choose|i: int| 0 <= i < t.len() && t[i] && rank1_of(t, i) == k;
        lemma_rank1_take(s, n - 1, i);
        assert(0 <= i < s.len() && s[i] && rank1_of(s, i) == k);
    }
}

/// Set bits at distinct positions carry distinct ranks.
pub proof fn lemma_sel1_unique(s: Seq<bool>, i: int, j: int)
    requires
        0 <= i < s.len(),
        0 <= j < s.len(),
        s[i],
        s[j],
        rank1_of(s, i) == rank1_of(s, j),
    ensures
        i == j,
{
    if i < j {
        lemma_rank1_monotone(s, i + 1, j);
    } else if j < i {
        lemma_rank1_monotone(s, j + 1, i);
    }
}

/// What `sel1` picks is a set bit of the stated rank.
pub proof fn lemma_sel1_props(s: Seq<bool>, k: nat)
    requires
        k < rank1_of(s, s.len() as int),
    ensures
        0 <= sel1(s, k) < s.len(),
        s[sel1(s, k)],
        rank1_of(s, sel1(s, k)) == k,
{
    lemma_sel1_exists(s, k);
}

/// First position whose rank is `g`: the start of parent `g`'s child range
/// in a last-sibling bitmap; the length once `g` runs past the set bits.
pub open spec fn spec_find(s: Seq<bool>, g: nat) -> int {
    if g == 0 {
        0
    } else if g <= rank1_of(s, s.len() as int) {
        sel1(s, (g - 1) as nat) + 1
    } else {
        s.len() as int
    }
}

/// `spec_find(s, g)` is the first position of rank `g`: it carries rank `g`
/// itself, and everything before it ranks below `g`.
pub proof fn lemma_find_props(s: Seq<bool>, g: nat)
    requires
        g <= rank1_of(s, s.len() as int),
    ensures
        0 <= spec_find(s, g) <= s.len(),
        rank1_of(s, spec_find(s, g)) == g,
        forall|k: int| 0 <= k < spec_find(s, g) ==> rank1_of(s, k) < g,
{
    if g > 0 {
        lemma_sel1_props(s, (g - 1) as nat);
        let i = sel1(s, (g - 1) as nat);
        assert(rank1_of(s, i + 1) == g);
        assert forall|k: int| 0 <= k < spec_find(s, g) implies rank1_of(s, k) < g by {
            lemma_rank1_monotone(s, k, i);
        }
    }
}

/// Group starts never move backwards.
pub proof fn lemma_find_mono(s: Seq<bool>, g1: nat, g2: nat)
    requires
        g1 <= g2,
        g2 <= rank1_of(s, s.len() as int),
    ensures
        spec_find(s, g1) <= spec_find(s, g2),
{
    if spec_find(s, g2) < spec_find(s, g1) {
        lemma_find_props(s, g1);
        lemma_find_props(s, g2);
    }
}

/// Positions at or past `spec_find(s, g)` rank at least `g`.
pub proof fn lemma_find_after(s: Seq<bool>, g: nat, k: int)
    requires
        g <= rank1_of(s, s.len() as int),
        spec_find(s, g) <= k,
    ensures
        rank1_of(s, k) >= g,
{
    lemma_find_props(s, g);
    lemma_rank1_monotone(s, spec_find(s, g), k);
}

#[verifier::external_type_specification]
#[verifier::external_body]
pub struct ExRsDict(rsdict::RsDict);

/// The bits held by an rsdict bit vector, in push order.
pub uninterp spec fn rs_bits(d: rsdict::RsDict) -> Seq<bool>;

/// Relies on rsdict::RsDict::new: a fresh vector holds no bits.
#[verifier::external_body]
pub(crate) fn rs_new() -> (r: rsdict::RsDict)
    ensures
        rs_bits(r) == Seq::<bool>::empty(),
{
    rsdict::RsDict::new()
}

/// Relies on rsdict::RsDict::push: appends one bit at the end.
#[verifier::external_body]
pub(crate) fn rs_push(d: &mut rsdict::RsDict, b: bool)
    ensures
        rs_bits(*final(d)) == rs_bits(*old(d)).push(b),
{
    d.push(b)
}

/// Relies on rsdict::RsDict::len: one per pushed bit.
#[verifier::external_body]
pub(crate) fn rs_len(d: &rsdict::RsDict) -> (r: usize)
    ensures
        r == rs_bits(*d).len(),
{
    d.len()
}

/// Relies on rsdict::RsDict::rank: set bits strictly left of `pos`; the call
/// panics when `pos` is out of bounds, so in-bounds positions are required.
#[verifier::external_body]
pub(crate) fn rs_rank1(d: &rsdict::RsDict, pos: usize) -> (r: usize)
    requires
        pos < rs_bits(*d).len(),
    ensures
        r == rank1_of(rs_bits(*d), pos as int),
{
    d.rank(pos as u64, true) as usize
}

/// Relies on rsdict::RsDict::count_ones: the number of set bits.
#[verifier::external_body]
pub(crate) fn rs_ones(d: &rsdict::RsDict) -> (r: usize)
    ensures
        r == rank1_of(rs_bits(*d), rs_bits(*d).len() as int),
{
    d.count_ones()
}

/// Relies on rsdict::RsDict::select1: the position of the `(k+1)`-th set bit,
/// `None` where fewer than `k + 1` bits are set.
#[verifier::external_body]
pub(crate) fn rs_select1(d: &rsdict::RsDict, k: usize) -> (r: Option<usize>)
    ensures
        r matches Some(i) ==> i < rs_bits(*d).len() && rs_bits(*d)[i as int] && rank1_of(
            rs_bits(*d),
            i as int,
        ) == k,
        r is None ==> rank1_of(rs_bits(*d), rs_bits(*d).len() as int) <= k,
    {
    d.select1(k as u64).map(|i| i as usize)
}

/// Relies on rsdict::RsDict::get_bit: the bit at `pos`; the call indexes the
/// backing blocks, so in-bounds positions are required.
#[verifier::external_body]
pub(crate) fn rs_get_bit(d: &rsdict::RsDict, pos: usize) -> (r: bool)
    requires
        pos < rs_bits(*d).len(),
    ensures
        r == rs_bits(*d)[pos as int],
{
    d.get_bit(pos as u64)
}

/// Succinct bit vector with constant-time rank and select.
pub struct Bitmap {
    pub dict: rsdict::RsDict,
}

impl View for Bitmap {
    type V = Seq<bool>;

    open spec fn view(&self) -> Seq<bool> {
        rs_bits(self.dict)
    }
}

impl Bitmap {
    /// Number of bits held.
    pub fn len(&self) -> (r: usize)
        ensures
            r == self@.len(),
    {
        rs_len(&self.dict)
    }

    /// The bit at `pos`; unset when `pos` is out of bounds.
    pub fn get(&self, pos: usize) -> (r: bool)
        ensures
            pos < self@.len() ==> r == self@[pos as int],
            pos >= self@.len() ==> r == false,
    {
        if pos < rs_len(&self.dict) {
            rs_get_bit(&self.dict, pos)
        } else {
            false
        }
    }

    /// Count of set bits in `[0, pos)`, clamped at the length.
    pub fn rank1(&self, pos: usize) -> (r: usize)
        ensures
            pos <= self@.len() ==> r == rank1_of(self@, pos as int),
    {
        let n = rs_len(&self.dict);
        if pos < n {
            rs_rank1(&self.dict, pos)
        } else {
            proof {
                if pos > n {
                    lemma_rank1_monotone(self@, self@.len() as int, pos as int);
                }
            }
            rs_ones(&self.dict)
        }
    }

    /// Count of set bits overall.
    pub fn ones(&self) -> (r: usize)
        ensures
            r == rank1_of(self@, self@.len() as int),
    {
        rs_ones(&self.dict)
    }

    /// Position of the `(k+1)`-th set bit, `None` where fewer bits are set.
    pub fn select1(&self, k: usize) -> (r: Option<usize>)
        ensures
            r matches Some(i) ==> i < self@.len() && self@[i as int] && rank1_of(self@, i as int)
                == k,
            r is None ==> rank1_of(self@, self@.len() as int) <= k,
    {
        rs_select1(&self.dict, k)
    }

    /// Build a bitmap holding exactly the given bits.
    pub fn from_bits(bits: &Vec<bool>) -> (r: Bitmap)
        ensures
            r@ == bits@,
    {
        let mut dict = rs_new();
        let mut j: usize = 0;
        while j < bits.len()
            invariant
                j <= bits@.len(),
                rs_bits(dict) =~= bits@.take(j as int),
            decreases bits@.len() - j,
        {
            rs_push(&mut dict, bits[j]);
            proof {
                assert(bits@.take(j as int).push(bits@[j as int]) =~= bits@.take(j + 1));
            }
            j = j + 1;
        }
        proof {
            assert(bits@.take(bits@.len() as int) =~= bits@);
        }
        Bitmap { dict }
    }
}

impl Bitmap {
    /// Parse a bitmap section at `pos`: one type byte `0x01`, a vbyte bit
    /// count, a CRC-8 of those header bytes, the packed payload, and a
    /// little-endian CRC-32C of the payload.
    pub fn read(data: &[u8], pos: usize) -> (r: Result<(Bitmap, usize), ReadError>)
        ensures
            r matches Ok(bp) ==> (spec_parse_bitmap(data@, pos as int) matches Ok(sp) && bp.0@
                == sp.0 && bp.1 == sp.1),
            r matches Err(e) ==> spec_parse_bitmap(data@, pos as int) == Err::<
                (Seq<bool>, int),
                ReadError,
            >(e),
    {
        let len = data.len();
        if pos >= len {
            return Err(ReadError::UnexpectedEnd);
        }
        if data[pos] != 1 {
            return Err(ReadError::UnsupportedSectionType);
        }
        let (nbits64, vl) = match decode_vbyte(data, pos + 1) {
            Ok(x) => x,
            Err(e) => {
                return Err(e);
            },
        };
        let crcpos = pos + 1 + vl;
        if crcpos >= len {
            return Err(ReadError::UnexpectedEnd);
        }
        let header = vstd::slice::slice_subrange(data, pos, crcpos);
        if data[crcpos] != crc8(header) {
            return Err(ReadError::ChecksumMismatch);
        }
        let nbytes64: u64 = nbits64 / 8 + if nbits64 % 8 != 0 {
            1
        } else {
            0
        };
        let pstart = crcpos + 1;
        let rem: u64 = (len - pstart) as u64;
        if nbytes64 + 4 > rem {
            return Err(ReadError::UnexpectedEnd);
        }
        let nbytes = nbytes64 as usize;
        let payload = vstd::slice::slice_subrange(data, pstart, pstart + nbytes);
        let stored = read_le32(data, pstart + nbytes);
        if stored != crc32c(payload) {
            return Err(ReadError::ChecksumMismatch);
        }
        if nbits64 > usize::MAX as u64 {
            return Err(ReadError::UnexpectedEnd);
        }
        let n = nbits64 as usize;
        let mut bits: Vec<bool> = Vec::new();
        let mut j: usize = 0;
        proof {
            assert(n as nat <= 8 * nbytes as nat);
        }
        while j < n
            invariant
                j <= n,
                n as nat <= 8 * nbytes as nat,
                payload@.len() == nbytes,
                bits@ =~= Seq::new(j as nat, |jj: int| bit_of(payload@, jj)),
            decreases n - j,
        {
            proof {
                assert(j / 8 < nbytes) by (nonlinear_arith)
                    requires
                        (j as nat) < 8 * (nbytes as nat),
                ;
            }
            let byte = payload[j / 8];
            let sh = (j % 8) as u8;
            let bit = ((byte >> sh) & 1) == 1;
            bits.push(bit);
            proof {
                let f = |jj: int| bit_of(payload@, jj);
                assert(Seq::new(j as nat, f).push(f(j as int)) =~= Seq::new((j + 1) as nat, f));
            }
            j = j + 1;
        }
        let bm = Bitmap::from_bits(&bits);
        Ok((bm, pstart + nbytes + 4))
    }
}

/// The bit stored for position `j` in a packed little-endian payload.
pub open spec fn bit_of(payload: Seq<u8>, j: int) -> bool {
    ((payload[j / 8] >> ((j % 8) as u8)) & 1u8) == 1u8
}

/// Outcome of parsing a bitmap section at `pos`: the bits and the position
/// one past the trailing checksum.  The framing is one type byte `0x01`, a
/// vbyte bit count, a CRC-8 of those header bytes, the packed payload, and a
/// little-endian CRC-32C of the payload.
pub open spec fn spec_parse_bitmap(data: Seq<u8>, pos: int) -> Result<(Seq<bool>, int), ReadError> {
    if pos >= data.len() {
        Err(ReadError::UnexpectedEnd)
    } else if data[pos] != 1 {
        Err(ReadError::UnsupportedSectionType)
    } else {
        match spec_vbyte(data, pos + 1) {
            None => Err(ReadError::MalformedVByte),
            Some((n, vl)) => {
                let crcpos = pos + 1 + vl;
                if crcpos >= data.len() {
                    Err(ReadError::UnexpectedEnd)
                } else if data[crcpos] != crc8_of(data.subrange(pos, crcpos)) {
                    Err(ReadError::ChecksumMismatch)
                } else {
                    let nbytes = (n + 7) / 8;
                    let pstart = crcpos + 1;
                    if pstart + nbytes + 4 > data.len() {
                        Err(ReadError::UnexpectedEnd)
                    } else {
                        let payload = data.subrange(pstart, pstart + nbytes);
                        if le32_at(data, pstart + nbytes) != crc32c_of(payload) {
                            Err(ReadError::ChecksumMismatch)
                        } else if n > usize::MAX as nat {
                            Err(ReadError::UnexpectedEnd)
                        } else {
                            Ok((Seq::new(n, |j: int| bit_of(payload, j)), pstart + nbytes + 4))
                        }
                    }
                }
            },
        }
    }
}

} // verus!
