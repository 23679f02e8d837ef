//! Dictionary section with plain front coding: a sorted sequence of byte
//! strings stored in blocks, each block holding one verbatim header string
//! followed by suffix records that share a prefix with their predecessor.
use vstd::prelude::*;
use vstd::math::min;
use vstd::string::StringSliceAdditionalSpecFns;
use vstd::utf8::{valid_utf8, decode_utf8};

use crate::ReadError;
use crate::crc::{crc8, crc8_of, crc32c, crc32c_of};
use crate::sequence::Sequence;
use crate::vbyte::{decode_vbyte, decode_vbyte_delta, spec_vbyte};
use crate::wire::{le32_at, read_le32};

verus! {

/// Index of the first zero byte at or after `pos`, or the length when none
/// remains.
pub open spec fn first_zero(data: Seq<u8>, pos: int) -> int
    decreases data.len() - pos,
{
    if pos >= data.len() {
        data.len() as int
    } else if data[pos] == 0 {
        pos
    } else {
        first_zero(data, pos + 1)
    }
}

pub proof fn lemma_first_zero(data: Seq<u8>, pos: int)
    requires
        0 <= pos <= data.len(),
    ensures
        pos <= first_zero(data, pos) <= data.len(),
        forall|j: int| pos <= j < first_zero(data, pos) ==> data[j] != 0,
        first_zero(data, pos) < data.len() ==> data[first_zero(data, pos)] == 0,
    decreases data.len() - pos,
{
    if pos < data.len() && data[pos] != 0 {
        lemma_first_zero(data, pos + 1);
    }
}

/// String `j` of the block whose header starts at `off`, together with the
/// position one past its record.  The header is stored verbatim and
/// zero-terminated; each following record is a vbyte shared-prefix length, a
/// zero-terminated suffix.
pub open spec fn block_entry(data: Seq<u8>, off: int, j: nat) -> (Seq<u8>, int)
    decreases j,
{
    if j == 0 {
        let e = first_zero(data, off);
        (data.subrange(off, e), e + 1)
    } else {
        let prev = block_entry(data, off, (j - 1) as nat);
        match spec_vbyte(data, prev.1) {
            None => (Seq::empty(), data.len() as int + 1),
            Some((delta, vl)) => {
                let spos = prev.1 + vl;
                let e = first_zero(data, spos);
                (
                    prev.0.take(min(delta as int, prev.0.len() as int)) + data.subrange(spos, e),
                    e + 1,
                )
            },
        }
    }
}

/// Records `0..=j` of the block at `off` are stored intact: every terminator
/// lies inside the buffer, every shared-prefix length is a complete vbyte no
/// longer than its predecessor.
pub open spec fn entries_ok(data: Seq<u8>, off: int, j: nat) -> bool
    decreases j,
{
    if j == 0 {
        0 <= off && first_zero(data, off) < data.len()
    } else {
        entries_ok(data, off, (j - 1) as nat) && {
            let prev = block_entry(data, off, (j - 1) as nat);
            match spec_vbyte(data, prev.1) {
                None => false,
                Some((delta, vl)) => delta <= prev.0.len() && first_zero(data, prev.1 + vl)
                    < data.len(),
            }
        }
    }
}

pub proof fn lemma_entries_ok_mono(data: Seq<u8>, off: int, j1: nat, j2: nat)
    requires
        j1 <= j2,
        entries_ok(data, off, j2),
    ensures
        entries_ok(data, off, j1),
    decreases j2,
{
    if j1 < j2 {
        lemma_entries_ok_mono(data, off, j1, (j2 - 1) as nat);
    }
}

/// Strict lexicographic byte order, examined from index `k` on.
pub open spec fn lex_lt_from(a: Seq<u8>, b: Seq<u8>, k: int) -> bool
    decreases b.len() - k,
{
    if k >= b.len() {
        false
    } else if k >= a.len() {
        true
    } else if a[k] < b[k] {
        true
    } else if a[k] > b[k] {
        false
    } else {
        lex_lt_from(a, b, k + 1)
    }
}

/// Strict lexicographic byte order.
pub open spec fn lex_lt(a: Seq<u8>, b: Seq<u8>) -> bool {
    lex_lt_from(a, b, 0)
}

pub proof fn lemma_lex_from_trans(a: Seq<u8>, b: Seq<u8>, c: Seq<u8>, k: int)
    requires
        0 <= k,
        lex_lt_from(a, b, k),
        lex_lt_from(b, c, k),
    ensures
        lex_lt_from(a, c, k),
    decreases b.len() - k,
{
    if k < a.len() && k < b.len() && k < c.len() && a[k] == b[k] && b[k] == c[k] {
        lemma_lex_from_trans(a, b, c, k + 1);
    }
}

pub proof fn lemma_lex_trans(a: Seq<u8>, b: Seq<u8>, c: Seq<u8>)
    requires
        lex_lt(a, b),
        lex_lt(b, c),
    ensures
        lex_lt(a, c),
{
    lemma_lex_from_trans(a, b, c, 0);
}

pub proof fn lemma_lex_irrefl_from(a: Seq<u8>, k: int)
    requires
        0 <= k,
    ensures
        !lex_lt_from(a, a, k),
    decreases a.len() - k,
{
    if k < a.len() {
        lemma_lex_irrefl_from(a, k + 1);
    }
}

/// Strict order is irreflexive: equal strings are never ordered.
pub proof fn lemma_lex_irrefl(a: Seq<u8>, b: Seq<u8>)
    requires
        a == b,
    ensures
        !lex_lt(a, b),
{
    lemma_lex_irrefl_from(a, 0);
}

/// Compare two byte strings: `-1`, `0` or `1` as `a` is below, equal to or
/// above `b` in lexicographic byte order.
pub fn cmp_bytes(a: &[u8], b: &[u8]) -> (r: i8)
    ensures
        r == -1 <==> lex_lt(a@, b@),
        r == 0 <==> a@ == b@,
        r == 1 <==> lex_lt(b@, a@),
        r == -1 || r == 0 || r == 1,
{
    let alen = a.len();
    let blen = b.len();
    let mut i: usize = 0;
    while i < alen && i < blen
        invariant
            0 <= i <= alen,
            i <= blen,
            alen == a@.len(),
            blen == b@.len(),
            forall|j: int| 0 <= j < i ==> a@[j] == b@[j],
            lex_lt(a@, b@) == lex_lt_from(a@, b@, i as int),
            lex_lt(b@, a@) == lex_lt_from(b@, a@, i as int),
        decreases alen - i,
    {
        let x = a[i];
        let y = b[i];
        if x < y {
            return -1;
        }
        if x > y {
            return 1;
        }
        i = i + 1;
    }
    if alen == blen {
        proof {
            assert(a@ =~= b@);
            lemma_lex_irrefl_from(a@, i as int);
        }
        0
    } else if alen < blen {
        proof {
            if a@ == b@ {
                assert(a@.len() == b@.len());
            }
        }
        -1
    } else {
        proof {
            if a@ == b@ {
                assert(a@.len() == b@.len());
            }
        }
        1
    }
}

/// Failures of [`DictSectPFC::extract`].
#[derive(Debug, Clone, PartialEq, Eq)]
pub enum ExtractError {
    /// The id is zero or exceeds the section's string count.
    IdOutOfBounds { id: usize, len: usize },
    /// The reconstructed bytes are not valid UTF-8; both the raw bytes and a
    /// lossy reconstruction are surfaced.
    InvalidUtf8 { data: Vec<u8>, recovered: String },
}

/// What `String::from_utf8_lossy` yields: a function of the bytes alone.
pub uninterp spec fn lossy_of(bytes: Seq<u8>) -> Seq<char>;

/// Relies on std's str::from_utf8: `Ok` exactly on valid UTF-8, decoding the
/// bytes; `to_owned` copies the characters.
#[verifier::external_body]
fn utf8_to_string(v: &Vec<u8>) -> (r: Option<String>)
    ensures
        r is Some <==> valid_utf8(v@),
        r matches Some(s) ==> s@ == decode_utf8(v@),
{
    match std::str::from_utf8(v.as_slice()) {
        Ok(s) => Some(s.to_owned()),
        Err(_) => None,
    }
}

/// Relies on std's String::from_utf8_lossy: the replacement-decoded text
/// depends on the bytes alone.
#[verifier::external_body]
fn utf8_lossy(v: &Vec<u8>) -> (r: String)
    ensures
        r@ == lossy_of(v@),
{
    String::from_utf8_lossy(v.as_slice()).into_owned()
}

/// Plain-front-coded dictionary section: `num_strings` sorted byte strings in
/// blocks of `block_size`, with `sequence` holding each block header's offset
/// into `packed_data`.
pub struct DictSectPFC {
    pub num_strings: usize,
    pub packed_length: usize,
    pub block_size: usize,
    pub sequence: Sequence,
    pub packed_data: Vec<u8>,
}

impl DictSectPFC {
    /// Number of blocks needed for the stored strings.
    pub open spec fn num_blocks(self) -> int {
        (self.num_strings + self.block_size - 1) as int / self.block_size as int
    }

    /// Strings stored in block `b`.
    pub open spec fn block_count(self, b: int) -> int {
        min(self.block_size as int, self.num_strings - b * self.block_size)
    }

    /// The string with zero-based index `i`.
    pub open spec fn str_at(self, i: int) -> Seq<u8> {
        block_entry(
            self.packed_data@,
            self.sequence.value_at(i / self.block_size as int) as int,
            (i % self.block_size as int) as nat,
        ).0
    }

    /// Well-formed section: a sane shape, every block decodable, and the
    /// strings strictly increasing in lexicographic byte order.
    pub open spec fn wf(self) -> bool {
        &&& self.sequence.wf()
        &&& self.block_size >= 1
        &&& self.sequence.entries == self.num_blocks() + 1
        &&& self.packed_length == self.packed_data@.len()
        &&& forall|b: int|
            0 <= b < self.num_blocks() ==> #[trigger] entries_ok(
                self.packed_data@,
                self.sequence.value_at(b) as int,
                (self.block_count(b) - 1) as nat,
            )
        &&& forall|i: int, j: int|
            0 <= i < j < self.num_strings ==> lex_lt(
                #[trigger] self.str_at(i),
                #[trigger] self.str_at(j),
            )
    }

    /// The 1-based id of `key`, zero when absent.
    pub open spec fn spec_lookup(self, key: Seq<u8>) -> nat {
        if exists|i: int| 0 <= i < self.num_strings && #[trigger] self.str_at(i) == key {
            ((choose|i: int| 0 <= i < self.num_strings && #[trigger] self.str_at(i) == key)
                + 1) as nat
        } else {
            0
        }
    }

    /// Number of strings held by the section.
    pub fn num_strings(&self) -> (r: usize)
        ensures
            r == self.num_strings,
    {
        self.num_strings
    }

    /// Bytes held by the section's block index and packed payload.
    pub fn size_in_bytes(&self) -> (r: usize)
        ensures
            self.sequence.data@.len() + self.packed_data@.len() <= usize::MAX ==> r as nat
                == self.sequence.data@.len() + self.packed_data@.len(),
    {
        let a = self.sequence.data.len();
        let b = self.packed_data.len();
        if a > usize::MAX - b {
            0
        } else {
            a + b
        }
    }

    /// Distance from `off` to the next zero byte of the packed payload.
    fn strlen(&self, off: usize) -> (r: usize)
        ensures
            off <= self.packed_data@.len() ==> off + r == first_zero(
                self.packed_data@,
                off as int,
            ),
    {
        let length = self.packed_data.len();
        if off >= length {
            return 0;
        }
        let mut position = off;
        let mut done = false;
        while !done && position < length
            invariant
                off <= position <= length,
                length == self.packed_data@.len(),
                first_zero(self.packed_data@, off as int) == first_zero(
                    self.packed_data@,
                    position as int,
                ),
                done ==> position < length && self.packed_data@[position as int] == 0,
            decreases length - position, 1int - if done {
                1int
            } else {
                0int
            },
        {
            if self.packed_data[position] != 0 {
                position = position + 1;
            } else {
                done = true;
            }
        }
        position - off
    }

    /// Extract the string with the given 1-based id from the dictionary.
    #[verifier::loop_isolation(false)]
    pub fn extract(&self, id: usize) -> (r: Result<String, ExtractError>)
        ensures
            id == 0 || id > self.num_strings ==> r == Err::<String, ExtractError>(
                ExtractError::IdOutOfBounds { id, len: self.num_strings },
            ),
            self.wf() && 1 <= id <= self.num_strings ==> match r {
                Ok(s) => valid_utf8(self.str_at(id - 1)) && s@ == decode_utf8(
                    self.str_at(id - 1),
                ),
                Err(e) => !valid_utf8(self.str_at(id - 1)) && (e matches
                    ExtractError::InvalidUtf8 { data, recovered } ==> data@ == self.str_at(id - 1)
                    && recovered@ == lossy_of(self.str_at(id - 1))) && (e is InvalidUtf8),
            },
    {
        if id == 0 || id > self.num_strings {
            return Err(ExtractError::IdOutOfBounds { id, len: self.num_strings });
        }
        if self.block_size == 0 {
            return Ok(String::new());
        }
        let bsz = self.block_size;
        let block = (id - 1) / bsz;
        let sidx = (id - 1) % bsz;
        let ghost data = self.packed_data@;
        proof {
            if self.wf() {
                let gi = (id - 1) as int;
                let gb = bsz as int;
                let gn = self.num_strings as int;
                assert(gi / gb < (gn + gb - 1) / gb && gi % gb <= min(gb, gn - (gi / gb) * gb) - 1)
                    by (nonlinear_arith)
                    requires
                        0 <= gi < gn,
                        gb >= 1,
                ;
                assert(gi / gb < self.num_blocks());
                assert(gi % gb <= self.block_count(gi / gb) - 1);
            }
        }
        let off = self.sequence.get(block);
        let ghost goff = off as int;
        proof {
            if self.wf() {
                assert(goff == self.sequence.value_at(block as int));
                assert(entries_ok(data, goff, (self.block_count(block as int) - 1) as nat));
                lemma_entries_ok_mono(data, goff, sidx as nat, (self.block_count(block as int)
                    - 1) as nat);
                lemma_entries_ok_mono(data, goff, 0, sidx as nat);
                assert(entries_ok(data, goff, 0));
                lemma_first_zero(data, goff);
            }
        }
        let plen = self.packed_data.len();
        if off >= plen {
            // a well-formed section keeps every header inside the payload
            return Ok(String::new());
        }
        let mut slen = self.strlen(off);
        proof {
            lemma_first_zero(data, off as int);
        }
        let mut buf: Vec<u8> = Vec::new();
        buf.extend_from_slice(
            vstd::slice::slice_subrange(self.packed_data.as_slice(), off, off + slen),
        );
        proof {
            assert(buf@ =~= block_entry(data, goff, 0).0);
        }
        let mut position = off;
        let mut k: usize = 0;
        while k < sidx
            invariant
                0 <= k <= sidx,
                position <= plen,
                position + slen == first_zero(data, position as int),
                position + slen <= plen,
                buf@ == block_entry(data, goff, k as nat).0,
                position + slen + 1 == block_entry(data, goff, k as nat).1,
            decreases sidx - k,
        {
            proof {
                if self.wf() {
                    lemma_entries_ok_mono(data, goff, (k + 1) as nat, sidx as nat);
                }
            }
            if slen >= plen - position {
                // a well-formed record is zero-terminated inside the payload
                proof {
                    if self.wf() {
                        assert(entries_ok(data, goff, (k + 1) as nat));
                        assert(first_zero(data, position as int) < plen);
                    }
                }
                return Ok(String::new());
            }
            position = position + slen + 1;
            let (delta, vl) = match decode_vbyte_delta(self.packed_data.as_slice(), position) {
                Ok(x) => x,
                Err(_) => {
                    proof {
                        if self.wf() {
                            assert(entries_ok(data, goff, (k + 1) as nat));
                        }
                    }
                    return Ok(String::new());
                },
            };
            position = position + vl;
            slen = self.strlen(position);
            proof {
                lemma_first_zero(data, position as int);
            }
            let dl = if delta > buf.len() as u64 {
                buf.len()
            } else {
                delta as usize
            };
            buf.truncate(dl);
            buf.extend_from_slice(
                vstd::slice::slice_subrange(self.packed_data.as_slice(), position, position + slen),
            );
            proof {
                assert(buf@ =~= block_entry(data, goff, (k + 1) as nat).0);
            }
            k = k + 1;
        }
        proof {
            if self.wf() {
                assert(buf@ == self.str_at(id - 1));
            }
        }
        match utf8_to_string(&buf) {
            Some(s) => Ok(s),
            None => {
                let recovered = utf8_lossy(&buf);
                Err(ExtractError::InvalidUtf8 { data: buf, recovered })
            },
        }
    }
}

impl DictSectPFC {
    /// A stored string resolves to its own id: looking up the string with
    /// index `i` yields `i + 1`.
    pub proof fn lemma_lookup_found(self, key: Seq<u8>, i: int)
        requires
            self.wf(),
            0 <= i < self.num_strings,
            self.str_at(i) == key,
        ensures
            self.spec_lookup(key) == i + 1,
    {
        assert(0 <= i < self.num_strings && self.str_at(i) == key);
        let i2 = choose|j: int| 0 <= j < self.num_strings && #[trigger] self.str_at(j) == key;
        if i2 != i {
            if i < i2 {
                assert(lex_lt(self.str_at(i), self.str_at(i2)));
            } else {
                assert(lex_lt(self.str_at(i2), self.str_at(i)));
            }
            lemma_lex_irrefl(key, key);
        }
    }

    /// A string held by no index looks up to zero.
    pub proof fn lemma_lookup_absent(self, key: Seq<u8>)
        requires
            self.wf(),
            forall|i: int| 0 <= i < self.num_strings ==> #[trigger] self.str_at(i) != key,
        ensures
            self.spec_lookup(key) == 0,
    {
    }

    /// The strings are strictly increasing in lexicographic byte order.
    pub proof fn lemma_strictly_sorted(self, i: int, j: int)
        requires
            self.wf(),
            0 <= i < j < self.num_strings,
        ensures
            lex_lt(self.str_at(i), self.str_at(j)),
    {
    }

    /// A present key's id points back at the key.
    pub proof fn lemma_lookup_then_extract(self, key: Seq<u8>)
        requires
            self.wf(),
            exists|i: int| 0 <= i < self.num_strings && #[trigger] self.str_at(i) == key,
        ensures
            1 <= self.spec_lookup(key) <= self.num_strings,
            self.str_at(self.spec_lookup(key) - 1) == key,
    {
        let i = choose|i: int| 0 <= i < self.num_strings && #[trigger] self.str_at(i) == key;
        self.lemma_lookup_found(key, i);
    }

    /// Translate a byte key to its 1-based id; zero when absent.
    #[verifier::loop_isolation(false)]
    fn lookup_bytes(&self, key: &[u8]) -> (r: usize)
        ensures
            self.wf() ==> r as nat == self.spec_lookup(key@),
    {
        let ghost gkey = key@;
        let n = self.num_strings;
        let bsz = self.block_size;
        if n == 0 || bsz == 0 {
            proof {
                if self.wf() {
                    self.lemma_lookup_absent(gkey);
                }
            }
            return 0;
        }
        let nblocks = (n - 1) / bsz + 1;
        let ghost data = self.packed_data@;
        proof {
            if self.wf() {
                assert(((n - 1) as int) / (bsz as int) + 1 == self.num_blocks()
                    && self.num_blocks() * (bsz as int) >= n) by (nonlinear_arith)
                    requires
                        n >= 1,
                        bsz >= 1,
                        self.num_blocks() == ((n + bsz - 1) as int) / (bsz as int),
                ;
            }
        }
        let mut low: usize = 0;
        let mut high: usize = nblocks - 1;
        while low < high
            invariant
                0 <= low <= high < nblocks,
                self.wf() ==> forall|i: int|
                    0 <= i < low * bsz && i < n ==> lex_lt(#[trigger] self.str_at(i), gkey),
                self.wf() ==> forall|i: int|
                    (high + 1) * bsz <= i < n ==> lex_lt(gkey, #[trigger] self.str_at(i)),
            decreases high - low,
        {
            let mid = low + (high - low + 1) / 2;
            proof {
                assert((mid as int) * (bsz as int) <= ((n - 1) as int / bsz as int) * (bsz as int)
                    <= n - 1) by (nonlinear_arith)
                    requires
                        n >= 1,
                        bsz >= 1,
                        mid <= ((n - 1) as int) / (bsz as int),
                ;
                assert(((mid * bsz) as int) / (bsz as int) == mid && ((mid * bsz) as int) % (
                bsz as int) == 0) by (nonlinear_arith)
                    requires
                        bsz >= 1,
                ;
            }
            let header_id0 = mid * bsz;
            let off = self.sequence.get(mid);
            let ghost goff = off as int;
            proof {
                if self.wf() {
                    assert(goff == self.sequence.value_at(mid as int));
                    assert(entries_ok(data, goff, (self.block_count(mid as int) - 1) as nat));
                    lemma_entries_ok_mono(data, goff, 0, (self.block_count(mid as int) - 1) as nat);
                    lemma_first_zero(data, goff);
                }
            }
            let plen = self.packed_data.len();
            if off >= plen {
                // a well-formed section keeps every header inside the payload
                return 0;
            }
            let slen = self.strlen(off);
            proof {
                lemma_first_zero(data, off as int);
            }
            let header = vstd::slice::slice_subrange(self.packed_data.as_slice(), off, off + slen);
            proof {
                if self.wf() {
                    assert(header@ =~= block_entry(data, goff, 0).0);
                    assert(header@ == self.str_at(header_id0 as int));
                }
            }
            let c = cmp_bytes(header, key);
            if c == 0 {
                proof {
                    if self.wf() {
                        self.lemma_lookup_found(gkey, header_id0 as int);
                    }
                }
                return header_id0 + 1;
            }
            if c == -1 {
                // the header lies below the key: nothing before this block fits
                proof {
                    if self.wf() {
                        assert forall|i: int| 0 <= i < mid * bsz && i < n implies lex_lt(
                            #[trigger] self.str_at(i),
                            gkey,
                        ) by {
                            self.lemma_strictly_sorted(i, header_id0 as int);
                            lemma_lex_trans(self.str_at(i), self.str_at(header_id0 as int), gkey);
                        }
                    }
                }
                low = mid;
            } else {
                // the key lies below the header: nothing from this block on fits
                proof {
                    if self.wf() {
                        assert forall|i: int| mid * bsz <= i < n implies lex_lt(
                            gkey,
                            #[trigger] self.str_at(i),
                        ) by {
                            if i > header_id0 {
                                self.lemma_strictly_sorted(header_id0 as int, i);
                                lemma_lex_trans(
                                    gkey,
                                    self.str_at(header_id0 as int),
                                    self.str_at(i),
                                );
                            }
                        }
                    }
                }
                high = mid - 1;
            }
        }
        self.scan_block(low, key)
    }

    /// Scan candidate block `cand` for `key`, knowing every string before the
    /// block lies below the key and every string after it lies above.
    #[verifier::loop_isolation(false)]
    fn scan_block(&self, cand: usize, key: &[u8]) -> (r: usize)
        requires
            self.num_strings >= 1,
            self.block_size >= 1,
            cand as int <= ((self.num_strings - 1) as int) / (self.block_size as int),
            self.wf() ==> forall|i: int|
                0 <= i < cand * self.block_size && i < self.num_strings ==> lex_lt(
                    #[trigger] self.str_at(i),
                    key@,
                ),
            self.wf() ==> forall|i: int|
                (cand + 1) * self.block_size <= i < self.num_strings ==> lex_lt(
                    key@,
                    #[trigger] self.str_at(i),
                ),
        ensures
            self.wf() ==> r as nat == self.spec_lookup(key@),
    {
        let ghost gkey = key@;
        let ghost data = self.packed_data@;
        let n = self.num_strings;
        let bsz = self.block_size;
        proof {
            assert((cand as int) * (bsz as int) <= n - 1 && (cand as int + 1) * (bsz as int) == (
            cand as int) * (bsz as int) + bsz && ((cand * bsz) as int) / (bsz as int) == cand && ((
            cand * bsz) as int) % (bsz as int) == 0) by (nonlinear_arith)
                requires
                    n >= 1,
                    bsz >= 1,
                    cand as int <= ((n - 1) as int) / (bsz as int),
            ;
            if self.wf() {
                assert(((n - 1) as int) / (bsz as int) + 1 == self.num_blocks())
                    by (nonlinear_arith)
                    requires
                        n >= 1,
                        bsz >= 1,
                        self.num_blocks() == ((n + bsz - 1) as int) / (bsz as int),
                ;
                assert(cand < self.num_blocks());
            }
        }
        let base = cand * bsz;
        let count = if bsz <= n - base {
            bsz
        } else {
            n - base
        };
        proof {
            if self.wf() {
                assert(count == self.block_count(cand as int));
            }
        }
        let off = self.sequence.get(cand);
        let ghost goff = off as int;
        proof {
            if self.wf() {
                assert(goff == self.sequence.value_at(cand as int));
                assert(entries_ok(data, goff, (self.block_count(cand as int) - 1) as nat));
                lemma_entries_ok_mono(data, goff, 0, (self.block_count(cand as int) - 1) as nat);
                lemma_first_zero(data, goff);
            }
        }
        let plen = self.packed_data.len();
        if off >= plen {
            // a well-formed section keeps every header inside the payload
            return 0;
        }
        let mut slen = self.strlen(off);
        proof {
            lemma_first_zero(data, off as int);
        }
        let mut buf: Vec<u8> = Vec::new();
        buf.extend_from_slice(
            vstd::slice::slice_subrange(self.packed_data.as_slice(), off, off + slen),
        );
        proof {
            assert(buf@ =~= block_entry(data, goff, 0).0);
        }
        let mut position = off;
        let mut j: usize = 0;
        loop
            invariant
                0 <= j < count,
                count <= bsz,
                base + count <= n,
                base == cand * bsz,
                position <= plen,
                plen == data.len(),
                position + slen == first_zero(data, position as int),
                position + slen <= plen,
                buf@ == block_entry(data, goff, j as nat).0,
                position + slen + 1 == block_entry(data, goff, j as nat).1,
                self.wf() ==> forall|i: int|
                    base <= i < base + j ==> lex_lt(#[trigger] self.str_at(i), gkey),
            decreases count - j,
        {
            let c = cmp_bytes(buf.as_slice(), key);
            proof {
                if self.wf() {
                    assert(((base + j) as int) / (bsz as int) == cand && ((base + j) as int) % (
                    bsz as int) == j) by (nonlinear_arith)
                        requires
                            base == (cand as int) * (bsz as int),
                            0 <= j < bsz,
                            bsz >= 1,
                    ;
                    assert(buf@ == self.str_at(base + j));
                }
            }
            if c == 0 {
                proof {
                    if self.wf() {
                        self.lemma_lookup_found(gkey, base + j);
                    }
                }
                return base + j + 1;
            }
            if c == 1 {
                // overshot: the key would have had to appear before this string
                proof {
                    if self.wf() {
                        assert forall|i: int| 0 <= i < n implies #[trigger] self.str_at(i)
                            != gkey by {
                            if base + j < i {
                                self.lemma_strictly_sorted(base + j, i);
                                lemma_lex_trans(gkey, self.str_at(base + j), self.str_at(i));
                            }
                            if lex_lt(self.str_at(i), gkey) || lex_lt(gkey, self.str_at(i)) {
                                if self.str_at(i) == gkey {
                                    lemma_lex_irrefl(gkey, gkey);
                                    lemma_lex_irrefl(self.str_at(i), self.str_at(i));
                                }
                            }
                        }
                        self.lemma_lookup_absent(gkey);
                    }
                }
                return 0;
            }
            if j + 1 >= count {
                // end of the block without a match
                proof {
                    if self.wf() {
                        assert forall|i: int| 0 <= i < n implies #[trigger] self.str_at(i)
                            != gkey by {
                            if base + count <= i {
                                assert((cand as int + 1) * (bsz as int) <= i || base + count == n);
                            }
                            if lex_lt(self.str_at(i), gkey) || lex_lt(gkey, self.str_at(i)) {
                                if self.str_at(i) == gkey {
                                    lemma_lex_irrefl(gkey, gkey);
                                }
                            }
                        }
                        self.lemma_lookup_absent(gkey);
                    }
                }
                return 0;
            }
            proof {
                if self.wf() {
                    lemma_entries_ok_mono(data, goff, (j + 1) as nat, (self.block_count(
                        cand as int,
                    ) - 1) as nat);
                }
            }
            if slen >= plen - position {
                // a well-formed record is zero-terminated inside the payload
                proof {
                    if self.wf() {
                        assert(entries_ok(data, goff, (j + 1) as nat));
                    }
                }
                return 0;
            }
            position = position + slen + 1;
            let (delta, vl) = match decode_vbyte_delta(self.packed_data.as_slice(), position) {
                Ok(x) => x,
                Err(_) => {
                    proof {
                        if self.wf() {
                            assert(entries_ok(data, goff, (j + 1) as nat));
                        }
                    }
                    return 0;
                },
            };
            position = position + vl;
            slen = self.strlen(position);
            proof {
                lemma_first_zero(data, position as int);
            }
            let dl = if delta > buf.len() as u64 {
                buf.len()
            } else {
                delta as usize
            };
            buf.truncate(dl);
            buf.extend_from_slice(
                vstd::slice::slice_subrange(self.packed_data.as_slice(), position, position + slen),
            );
            proof {
                assert(buf@ =~= block_entry(data, goff, (j + 1) as nat).0);
            }
            j = j + 1;
        }
    }

    /// Translate a string to its 1-based id; zero when absent.
    pub fn string_to_id(&self, element: &str) -> (r: usize)
        ensures
            self.wf() ==> r as nat == self.spec_lookup(element.spec_bytes()),
    {
        self.lookup_bytes(element.as_bytes())
    }
}

/// Outcome of parsing a dictionary section at `pos`: the three header
/// values, the block-offset sequence, the packed payload and the position
/// one past the trailing checksum.  The framing is one type tag `0x02`,
/// three vbytes (string count, packed length, block size), a CRC-8 of those
/// header bytes, the offset sequence with its own framing, the packed
/// payload and a little-endian CRC-32C of the payload.
pub open spec fn spec_parse_dict(data: Seq<u8>, pos: int) -> Result<
    ((int, int, int), (int, int, Seq<u8>), Seq<u8>, int),
    ReadError,
> {
    if pos >= data.len() {
        Err(ReadError::UnexpectedEnd)
    } else if data[pos] != 2 {
        Err(ReadError::UnsupportedSectionType)
    } else {
        match spec_vbyte(data, pos + 1) {
            None => Err(ReadError::MalformedVByte),
            Some((n, l1)) => match spec_vbyte(data, pos + 1 + l1) {
                None => Err(ReadError::MalformedVByte),
                Some((plen, l2)) => match spec_vbyte(data, pos + 1 + l1 + l2) {
                    None => Err(ReadError::MalformedVByte),
                    Some((bsz, l3)) => {
                        let crcpos = pos + 1 + l1 + l2 + l3;
                        if crcpos >= data.len() {
                            Err(ReadError::UnexpectedEnd)
                        } else if data[crcpos] != crc8_of(data.subrange(pos, crcpos)) {
                            Err(ReadError::ChecksumMismatch)
                        } else if n > usize::MAX as nat || plen > usize::MAX as nat || bsz
                            > usize::MAX as nat {
                            Err(ReadError::UnsupportedSectionType)
                        } else {
                            match crate::sequence::spec_parse_sequence(data, crcpos + 1) {
                                Err(e) => Err(e),
                                Ok((w, sn, spay, send)) => {
                                    if send + plen + 4 > data.len() {
                                        Err(ReadError::UnexpectedEnd)
                                    } else {
                                        let packed = data.subrange(send, send + plen);
                                        if le32_at(data, send + plen) != crc32c_of(packed) {
                                            Err(ReadError::ChecksumMismatch)
                                        } else {
                                            Ok(
                                                (
                                                    (n as int, plen as int, bsz as int),
                                                    (w, sn, spay),
                                                    packed,
                                                    send + plen + 4,
                                                ),
                                            )
                                        }
                                    }
                                },
                            }
                        }
                    },
                },
            },
        }
    }
}

impl DictSectPFC {
    /// Parse a dictionary section at `pos`, returning the section and the
    /// position one past its trailing checksum.  The sorted-strings
    /// invariant of the payload is a property of the file and is not
    /// checked here.
    #[verifier::loop_isolation(false)]
    pub fn read(data: &[u8], pos: usize) -> (r: Result<(DictSectPFC, usize), ReadError>)
        ensures
            r matches Ok(p) ==> (spec_parse_dict(data@, pos as int) matches Ok(sp) && {
                &&& p.0.num_strings == sp.0.0
                &&& p.0.packed_length == sp.0.1
                &&& p.0.block_size == sp.0.2
                &&& p.0.sequence.bits_per_entry == sp.1.0
                &&& p.0.sequence.entries == sp.1.1
                &&& p.0.sequence.data@ == sp.1.2
                &&& p.0.sequence.wf()
                &&& p.0.packed_data@ == sp.2
                &&& p.1 == sp.3
            }),
            r matches Err(e) ==> spec_parse_dict(data@, pos as int) == Err::<
                ((int, int, int), (int, int, Seq<u8>), Seq<u8>, int),
                ReadError,
            >(e),
    {
        let len = data.len();
        if pos >= len {
            return Err(ReadError::UnexpectedEnd);
        }
        if data[pos] != 2 {
            return Err(ReadError::UnsupportedSectionType);
        }
        let (n64, l1) = match decode_vbyte(data, pos + 1) {
            Ok(x) => x,
            Err(e) => {
                return Err(e);
            },
        };
        let (plen64, l2) = match decode_vbyte(data, pos + 1 + l1) {
            Ok(x) => x,
            Err(e) => {
                return Err(e);
            },
        };
        let (bsz64, l3) = match decode_vbyte(data, pos + 1 + l1 + l2) {
            Ok(x) => x,
            Err(e) => {
                return Err(e);
            },
        };
        let crcpos = pos + 1 + l1 + l2 + l3;
        if crcpos >= len {
            return Err(ReadError::UnexpectedEnd);
        }
        let header = vstd::slice::slice_subrange(data, pos, crcpos);
        if data[crcpos] != crc8(header) {
            return Err(ReadError::ChecksumMismatch);
        }
        if n64 > usize::MAX as u64 || plen64 > usize::MAX as u64 || bsz64 > usize::MAX as u64 {
            return Err(ReadError::UnsupportedSectionType);
        }
        let num_strings = n64 as usize;
        let packed_length = plen64 as usize;
        let block_size = bsz64 as usize;
        let (sequence, send) = match Sequence::read(data, crcpos + 1) {
            Ok(x) => x,
            Err(e) => {
                return Err(e);
            },
        };
        if packed_length > len - send || 4 > len - send - packed_length {
            return Err(ReadError::UnexpectedEnd);
        }
        let packed = vstd::slice::slice_subrange(data, send, send + packed_length);
        let stored = read_le32(data, send + packed_length);
        if stored != crc32c(packed) {
            return Err(ReadError::ChecksumMismatch);
        }
        let packed_data = vstd::slice::slice_to_vec(packed);
        let d = DictSectPFC { num_strings, packed_length, block_size, sequence, packed_data };
        Ok((d, send + packed_length + 4))
    }
}

} // verus!
