//! Bitmap-encoded triples: two adjacency lists over the permuted (x, y, z)
//! coordinate space, an object-indexed auxiliary, and a wavelet matrix over
//! the y column, answering full scans and single-position queries.
use vstd::prelude::*;

use crate::ReadError;
use crate::adjlist::AdjList;
use crate::bits::{Bitmap, rank1_of, sel1, spec_find, lemma_find_props, lemma_find_after,
    lemma_find_mono, lemma_rank1_monotone, lemma_rank1_lt_total, lemma_rank1_take,
    lemma_sel1_props, lemma_sel1_unique, spec_parse_bitmap};
use crate::sequence::{Sequence, spec_parse_sequence};
use crate::wavelet::{wm_syms, sym_mask, wm_build, wm_len, wm_max, wm_rank, wm_select};
use vstd::string::StringSliceAdditionalSpecFns;

verus! {

/// Declared storage order of a triples section: which coordinate of the
/// stored (x, y, z) space holds the subject, predicate and object.
#[derive(Debug, Clone, Copy, PartialEq, Eq, Structural)]
pub enum Order {
    Unknown,
    SPO,
    SOP,
    PSO,
    POS,
    OSP,
    OPS,
}

/// The order named by a control-info order number, `InvalidOrder` outside
/// `0..=6`.
pub open spec fn spec_order(n: u32) -> Result<Order, ReadError> {
    if n == 0 {
        Ok(Order::Unknown)
    } else if n == 1 {
        Ok(Order::SPO)
    } else if n == 2 {
        Ok(Order::SOP)
    } else if n == 3 {
        Ok(Order::PSO)
    } else if n == 4 {
        Ok(Order::POS)
    } else if n == 5 {
        Ok(Order::OSP)
    } else if n == 6 {
        Ok(Order::OPS)
    } else {
        Err(ReadError::InvalidOrder)
    }
}

impl Order {
    /// Decode a control-info order number.
    pub fn try_from(n: u32) -> (r: Result<Order, ReadError>)
        ensures
            r == spec_order(n),
    {
        match n {
            0 => Ok(Order::Unknown),
            1 => Ok(Order::SPO),
            2 => Ok(Order::SOP),
            3 => Ok(Order::PSO),
            4 => Ok(Order::POS),
            5 => Ok(Order::OSP),
            6 => Ok(Order::OPS),
            _ => Err(ReadError::InvalidOrder),
        }
    }
}

/// A triple of identifiers, already permuted into (subject, predicate,
/// object) space.
#[derive(Debug, Clone, PartialEq, Eq, Structural)]
pub struct TripleId {
    pub subject_id: usize,
    pub predicate_id: usize,
    pub object_id: usize,
}

impl TripleId {
    /// Bundle three identifiers.
    pub fn new(subject_id: usize, predicate_id: usize, object_id: usize) -> (r: TripleId)
        ensures
            r.subject_id == subject_id,
            r.predicate_id == predicate_id,
            r.object_id == object_id,
    {
        TripleId { subject_id, predicate_id, object_id }
    }
}

/// Map stored coordinates (x, y, z) to (subject, predicate, object) under
/// the given order.
pub open spec fn permute(order: Order, x: nat, y: nat, z: nat) -> (nat, nat, nat) {
    match order {
        Order::SPO => (x, y, z),
        Order::SOP => (x, z, y),
        Order::PSO => (y, x, z),
        Order::POS => (y, z, x),
        Order::OSP => (z, x, y),
        Order::OPS => (z, y, x),
        Order::Unknown => (0, 0, 0),
    }
}

/// An emitted triple carries exactly the stated coordinates.
pub open spec fn matches_triple(t: TripleId, c: (nat, nat, nat)) -> bool {
    t.subject_id == c.0 && t.predicate_id == c.1 && t.object_id == c.2
}

/// Ascending positions at which `zs` holds the id `o`.
pub open spec fn positions_of(zs: Seq<nat>, o: nat) -> Seq<int>
    decreases zs.len(),
{
    if zs.len() == 0 {
        Seq::empty()
    } else {
        let p = positions_of(zs.drop_last(), o);
        if zs.last() == o {
            p.push(zs.len() - 1)
        } else {
            p
        }
    }
}

/// The values of a machine-word sequence as mathematical integers.
pub open spec fn ints_of(s: Seq<usize>) -> Seq<int> {
    Seq::new(s.len(), |j: int| s[j] as int)
}

/// The grouping-bit pattern of one object group: set on the first entry.
pub open spec fn group_bits(n: nat) -> Seq<bool> {
    Seq::new(n, |j: int| j == 0)
}

/// The flattened object index over ids `1..=o`: the positions of each id in
/// ascending id order.
pub open spec fn flat_pos(zs: Seq<nat>, o: nat) -> Seq<int>
    decreases o,
{
    if o == 0 {
        Seq::empty()
    } else {
        flat_pos(zs, (o - 1) as nat) + positions_of(zs, o)
    }
}

/// The grouping bits matching [`flat_pos`].
pub open spec fn flat_bits(zs: Seq<nat>, o: nat) -> Seq<bool>
    decreases o,
{
    if o == 0 {
        Seq::empty()
    } else {
        flat_bits(zs, (o - 1) as nat) + group_bits(positions_of(zs, o).len())
    }
}

/// Object-indexed auxiliary: for each object id in ascending order, the
/// ascending positions of the z sequence holding it, flattened, with a
/// bitmap marking each group's first entry.
pub struct OpIndex {
    pub positions: Vec<usize>,
    pub bitmap: Bitmap,
}

/// The y/z adjacency lists with the object index and the predicate wavelet
/// matrix.
pub struct TriplesBitmap {
    pub order: Order,
    pub adjlist_y: AdjList,
    pub adjlist_z: AdjList,
    pub op_index: OpIndex,
    pub wavelet_y: sucds::char_sequences::WaveletMatrix<sucds::bit_vectors::Rank9Sel>,
}

impl TriplesBitmap {
    /// The y ids.
    pub open spec fn ys(self) -> Seq<nat> {
        self.adjlist_y.ids()
    }

    /// The y last-sibling bits.
    pub open spec fn yb(self) -> Seq<bool> {
        self.adjlist_y.bits()
    }

    /// The z ids.
    pub open spec fn zs(self) -> Seq<nat> {
        self.adjlist_z.ids()
    }

    /// The z last-sibling bits.
    pub open spec fn zb(self) -> Seq<bool> {
        self.adjlist_z.bits()
    }

    /// The y ids as machine words, the wavelet matrix's symbols.
    pub open spec fn ys_us(self) -> Seq<usize> {
        Seq::new(self.ys().len(), |q: int| self.ys()[q] as usize)
    }

    /// The y position owning z position `k`.
    pub open spec fn t_ypos(self, k: int) -> int {
        rank1_of(self.zb(), k) as int
    }

    /// The x coordinate of the triple at z position `k`.
    pub open spec fn t_x(self, k: int) -> nat {
        rank1_of(self.yb(), self.t_ypos(k)) + 1
    }

    /// The y coordinate of the triple at z position `k`.
    pub open spec fn t_y(self, k: int) -> nat {
        self.ys()[self.t_ypos(k)]
    }

    /// The z coordinate of the triple at z position `k`.
    pub open spec fn t_z(self, k: int) -> nat {
        self.zs()[k]
    }

    /// The (subject, predicate, object) triple at z position `k`.
    pub open spec fn spec_triple(self, k: int) -> (nat, nat, nat) {
        permute(self.order, self.t_x(k), self.t_y(k), self.t_z(k))
    }

    /// The greatest z id, zero when none is stored.
    pub open spec fn max_z(self) -> nat {
        seq_max(self.zs())
    }

    /// Positions of the object group for id `o` inside the flattened object
    /// index.
    pub open spec fn op_group(self, o: nat) -> Seq<int> {
        let s = self.op_index.bitmap@;
        let start = spec_op_start(s, (o - 1) as nat);
        let end = spec_op_start(s, o);
        Seq::new((end - start) as nat, |j: int| self.op_index.positions@[start + j] as int)
    }

    /// Well-formed triples section.  The shapes agree, the final siblings
    /// terminate, every id is positive, every y position owns one z group,
    /// the wavelet matrix indexes the y ids, and the object index groups the
    /// z positions of each object id `1..=max_z` in ascending order.
    pub open spec fn wf(self) -> bool {
        &&& self.adjlist_y.wf()
        &&& self.adjlist_z.wf()
        &&& self.order != Order::Unknown
        &&& self.ys().len() > 0
        &&& self.zs().len() > 0
        &&& self.zs().len() < usize::MAX
        &&& rank1_of(self.zb(), self.zs().len() as int) == self.ys().len()
        &&& forall|q: int| 0 <= q < self.ys().len() ==> #[trigger] self.ys()[q] >= 1
        &&& forall|k: int| 0 <= k < self.zs().len() ==> #[trigger] self.zs()[k] >= 1
        &&& wm_syms(self.wavelet_y) == self.ys_us()
        &&& self.op_index.positions@.len() == self.zs().len()
        &&& self.op_index.bitmap@.len() == self.op_index.positions@.len()
        &&& rank1_of(self.op_index.bitmap@, self.op_index.bitmap@.len() as int) == self.max_z()
        &&& forall|o: nat|
            1 <= o <= self.max_z() ==> #[trigger] self.op_group(o) == positions_of(self.zs(), o)
    }

    /// Permute stored coordinates into a (subject, predicate, object)
    /// triple; a zero coordinate or an unknown order is refused.
    pub fn coord_to_triple(&self, x: usize, y: usize, z: usize) -> (r: Result<TripleId, ReadError>)
        ensures
            x == 0 || y == 0 || z == 0 ==> r == Err::<TripleId, ReadError>(
                ReadError::MalformedTriple,
            ),
            x >= 1 && y >= 1 && z >= 1 && self.order == Order::Unknown ==> r == Err::<
                TripleId,
                ReadError,
            >(ReadError::InvalidOrder),
            x >= 1 && y >= 1 && z >= 1 && self.order != Order::Unknown ==> (r matches Ok(t)
                && matches_triple(t, permute(self.order, x as nat, y as nat, z as nat))),
    {
        if x == 0 || y == 0 || z == 0 {
            return Err(ReadError::MalformedTriple);
        }
        match self.order {
            Order::SPO => Ok(TripleId::new(x, y, z)),
            Order::SOP => Ok(TripleId::new(x, z, y)),
            Order::PSO => Ok(TripleId::new(y, x, z)),
            Order::POS => Ok(TripleId::new(y, z, x)),
            Order::OSP => Ok(TripleId::new(z, x, y)),
            Order::OPS => Ok(TripleId::new(z, y, x)),
            Order::Unknown => Err(ReadError::InvalidOrder),
        }
    }

    /// Enumerate all triples in storage order.
    #[verifier::loop_isolation(false)]
    pub fn scan(&self) -> (r: Result<Vec<TripleId>, ReadError>)
        ensures
            self.wf() ==> (r matches Ok(v) && v@.len() == self.zs().len() && forall|k: int|
                0 <= k < v@.len() ==> matches_triple(#[trigger] v@[k], self.spec_triple(k))),
    {
        let ylen = self.adjlist_y.len();
        let zlen = self.adjlist_z.len();
        let mut v: Vec<TripleId> = Vec::new();
        let mut x: usize = 1;
        let mut pos_y: usize = 0;
        let mut pos_z: usize = 0;
        while pos_z < zlen
            invariant
                0 <= pos_z <= zlen,
                pos_y <= pos_z,
                1 <= x <= pos_y + 1,
                v@.len() == pos_z,
                self.wf() ==> pos_y as int == self.t_ypos(pos_z as int),
                self.wf() ==> x as nat == rank1_of(self.yb(), pos_y as int) + 1,
                self.wf() ==> forall|k: int|
                    0 <= k < pos_z ==> matches_triple(#[trigger] v@[k], self.spec_triple(k)),
            decreases zlen - pos_z,
        {
            proof {
                if self.wf() {
                    lemma_rank1_lt_total(self.zb(), pos_z as int);
                }
            }
            if pos_y >= ylen {
                // exhausted y positions: only possible on malformed data
                return Ok(v);
            }
            let y = self.adjlist_y.get_id(pos_y);
            let z = self.adjlist_z.get_id(pos_z);
            let t = match self.coord_to_triple(x, y, z) {
                Ok(t) => t,
                Err(e) => {
                    return Err(e);
                },
            };
            v.push(t);
            if self.adjlist_z.at_last_sibling(pos_z) {
                if self.adjlist_y.at_last_sibling(pos_y) {
                    if x < usize::MAX {
                        x = x + 1;
                    }
                }
                pos_y = pos_y + 1;
            }
            pos_z = pos_z + 1;
        }
        Ok(v)
    }

    /// First y position owned by x id `xid`.
    pub open spec fn x_min_y(self, xid: nat) -> int {
        spec_find(self.yb(), (xid - 1) as nat)
    }

    /// One past the last y position owned by x id `xid`.
    pub open spec fn x_max_y(self, xid: nat) -> int {
        spec_find(self.yb(), xid)
    }

    /// First z position of x id `xid`'s slab.
    pub open spec fn x_min_z(self, xid: nat) -> int {
        spec_find(self.zb(), self.x_min_y(xid) as nat)
    }

    /// One past the last z position of x id `xid`'s slab.
    pub open spec fn x_max_z(self, xid: nat) -> int {
        spec_find(self.zb(), self.x_max_y(xid) as nat)
    }

    /// Enumerate the triples whose stored x coordinate is `x_id` (the
    /// subject for subject-first orders), in storage order; ids out of
    /// range yield the empty sequence.
    #[verifier::loop_isolation(false)]
    #[verifier::rlimit(100)]
    #[verifier::spinoff_prover]
    pub fn with_s(&self, x_id: usize) -> (r: Result<Vec<TripleId>, ReadError>)
        ensures
            self.wf() && x_id >= 1 ==> (r matches Ok(v) && {
                &&& v@.len() == self.x_max_z(x_id as nat) - self.x_min_z(x_id as nat)
                &&& forall|j: int|
                    0 <= j < v@.len() ==> matches_triple(
                        #[trigger] v@[j],
                        self.spec_triple(self.x_min_z(x_id as nat) + j),
                    )
            }),
            self.wf() && x_id == 0 ==> (r matches Ok(v) && v@.len() == 0),
    {
        let ghost gx = x_id as nat;
        if x_id == 0 {
            return Ok(Vec::new());
        }
        let ylen = self.adjlist_y.len();
        let zlen = self.adjlist_z.len();
        let min_y = self.adjlist_y.find(x_id - 1);
        let max_y = self.adjlist_y.find(x_id);
        let min_z = self.adjlist_z.find(min_y);
        let max_z = self.adjlist_z.find(max_y);
        let ghost w = self.wf();
        proof {
            if w {
                self.lemma_slab(gx);
            }
        }
        if min_z >= max_z {
            return Ok(Vec::new());
        }
        let mut v: Vec<TripleId> = Vec::new();
        let mut pos_y = min_y;
        let mut pos_z = min_z;
        while pos_z < max_z
            invariant
                min_z <= pos_z <= max_z,
                v@.len() == pos_z - min_z,
                w ==> pos_y as int == self.t_ypos(pos_z as int),
                w ==> forall|j: int|
                    0 <= j < v@.len() ==> matches_triple(
                        #[trigger] v@[j],
                        self.spec_triple(min_z + j),
                    ),
            decreases max_z - pos_z,
        {
            proof {
                if w {
                    assert(rank1_of(self.zb(), pos_z as int) >= min_y);
                    assert(rank1_of(self.zb(), pos_z as int) < max_y);
                    assert(rank1_of(self.yb(), pos_y as int) == gx - 1);
                }
            }
            if pos_y >= ylen {
                // exhausted y positions: only possible on malformed data
                return Ok(v);
            }
            let y = self.adjlist_y.get_id(pos_y);
            let z = self.adjlist_z.get_id(pos_z);
            let t = match self.coord_to_triple(x_id, y, z) {
                Ok(t) => t,
                Err(e) => {
                    return Err(e);
                },
            };
            v.push(t);
            if self.adjlist_z.at_last_sibling(pos_z) {
                pos_y = pos_y + 1;
            }
            pos_z = pos_z + 1;
        }
        Ok(v)
    }

    /// The slab bounds of an x id: the y slab sits inside the y sequence,
    /// the z slab inside the z sequence, positions inside the z slab are
    /// owned by y positions of the x slab, and y positions of the x slab
    /// rank exactly `xid - 1`.
    proof fn lemma_slab(self, xid: nat)
        requires
            self.wf(),
            xid >= 1,
        ensures
            0 <= self.x_min_y(xid) <= self.x_max_y(xid) <= self.ys().len(),
            0 <= self.x_min_z(xid) <= self.x_max_z(xid) <= self.zs().len(),
            rank1_of(self.zb(), self.x_min_z(xid)) == self.x_min_y(xid),
            forall|k: int|
                self.x_min_z(xid) <= k ==> #[trigger] rank1_of(self.zb(), k) >= self.x_min_y(xid),
            forall|k: int|
                0 <= k < self.x_max_z(xid) ==> #[trigger] rank1_of(self.zb(), k) < self.x_max_y(
                    xid,
                ),
            forall|q: int|
                self.x_min_y(xid) <= q < self.x_max_y(xid) ==> #[trigger] rank1_of(self.yb(), q)
                    == xid - 1,
    {
        let ylen = self.yb().len() as int;
        let ny = rank1_of(self.yb(), ylen);
        let min_y = self.x_min_y(xid);
        let max_y = self.x_max_y(xid);
        lemma_rank1_monotone(self.yb(), ylen - 1, ylen);
        if xid > ny {
            // past the last x id both bounds collapse at the end
            if xid - 1 == ny {
                lemma_sel1_props(self.yb(), (ny - 1) as nat);
                lemma_sel1_unique(self.yb(), sel1(self.yb(), (ny - 1) as nat), ylen - 1);
            }
            assert(min_y == ylen && max_y == ylen);
        } else {
            lemma_find_props(self.yb(), (xid - 1) as nat);
            lemma_find_props(self.yb(), xid);
            lemma_find_mono(self.yb(), (xid - 1) as nat, xid);
            assert forall|q: int| min_y <= q < max_y implies #[trigger] rank1_of(self.yb(), q)
                == xid - 1 by {
                lemma_find_after(self.yb(), (xid - 1) as nat, q);
            }
        }
        lemma_find_props(self.zb(), min_y as nat);
        lemma_find_props(self.zb(), max_y as nat);
        lemma_find_mono(self.zb(), min_y as nat, max_y as nat);
        assert forall|k: int| self.x_min_z(xid) <= k implies #[trigger] rank1_of(self.zb(), k)
            >= min_y by {
            lemma_find_after(self.zb(), min_y as nat, k);
        }
    }

    /// The slab bounds of `with_s` carve out exactly the triples whose
    /// stored x coordinate is `xid`: scanning and filtering on x agrees with
    /// the slab query as ordered sequences.
    #[verifier::rlimit(60)]
    pub proof fn lemma_with_s_is_filter(self, xid: nat, k: int)
        requires
            self.wf(),
            xid >= 1,
            0 <= k < self.zs().len(),
        ensures
            self.t_x(k) == xid <==> self.x_min_z(xid) <= k < self.x_max_z(xid),
    {
        let ny = rank1_of(self.yb(), self.yb().len() as int);
        let nz = rank1_of(self.zb(), self.zb().len() as int);
        let ylen = self.yb().len() as int;
        let q = self.t_ypos(k);
        lemma_rank1_lt_total(self.zb(), k);
        let min_y = self.x_min_y(xid);
        let max_y = self.x_max_y(xid);
        lemma_rank1_monotone(self.yb(), self.yb().len() - 1, ylen);
        if xid > ny {
            if xid - 1 == ny {
                lemma_sel1_props(self.yb(), (ny - 1) as nat);
                lemma_sel1_unique(self.yb(), sel1(self.yb(), (ny - 1) as nat), ylen - 1);
            }
            assert(min_y == ylen && max_y == ylen);
            lemma_find_props(self.zb(), ylen as nat);
            assert(self.x_min_z(xid) == self.x_max_z(xid));
            lemma_rank1_lt_total(self.yb(), q);
            assert(self.t_x(k) < xid);
        } else {
            lemma_find_props(self.yb(), (xid - 1) as nat);
            lemma_find_props(self.yb(), xid);
            lemma_find_mono(self.yb(), (xid - 1) as nat, xid);
            lemma_find_props(self.zb(), min_y as nat);
            lemma_find_props(self.zb(), max_y as nat);
            lemma_find_mono(self.zb(), min_y as nat, max_y as nat);
            if self.t_x(k) == xid {
                // q ranks xid - 1, so it lies in the y slab of xid
                assert(rank1_of(self.yb(), q) == xid - 1);
                if q >= max_y {
                    lemma_find_after(self.yb(), xid, q);
                }
                assert(min_y <= q < max_y);
                if k < spec_find(self.zb(), q as nat) {
                    lemma_find_props(self.zb(), q as nat);
                }
                lemma_find_mono(self.zb(), min_y as nat, q as nat);
                if k >= self.x_max_z(xid) {
                    lemma_find_after(self.zb(), max_y as nat, k);
                }
            } else {
                if self.x_min_z(xid) <= k < self.x_max_z(xid) {
                    lemma_find_after(self.zb(), min_y as nat, k);
                    assert(q >= min_y);
                    assert(q < max_y);
                    lemma_find_after(self.yb(), (xid - 1) as nat, q);
                    assert(rank1_of(self.yb(), q) == xid - 1);
                    assert(false);
                }
            }
        }
    }

    /// Enumerate the triples whose stored z coordinate is `o` (the object
    /// for subject-first orders), grouped by
    /// ascending z position; ids out of range yield the empty sequence.
    #[verifier::loop_isolation(false)]
    #[verifier::rlimit(100)]
    pub fn with_o(&self, o: usize) -> (r: Result<Vec<TripleId>, ReadError>)
        ensures
            self.wf() && o >= 1 ==> (r matches Ok(v) && {
                &&& v@.len() == positions_of(self.zs(), o as nat).len()
                &&& forall|j: int|
                    0 <= j < v@.len() ==> matches_triple(
                        #[trigger] v@[j],
                        self.spec_triple(positions_of(self.zs(), o as nat)[j]),
                    )
            }),
            self.wf() && o == 0 ==> (r matches Ok(v) && v@.len() == 0),
    {
        let ghost w = self.wf();
        let ghost g = positions_of(self.zs(), o as nat);
        if o == 0 {
            return Ok(Vec::new());
        }
        let oblen = self.op_index.bitmap.len();
        let ghost opb = self.op_index.bitmap@;
        let start = match self.op_index.bitmap.select1(o - 1) {
            Some(i) => {
                proof {
                    lemma_rank1_monotone(opb, i + 1, opb.len() as int);
                    lemma_sel1_props(opb, (o - 1) as nat);
                    lemma_sel1_unique(opb, i as int, sel1(opb, (o - 1) as nat));
                }
                i
            },
            None => oblen,
        };
        let end = match self.op_index.bitmap.select1(o) {
            Some(i) => {
                proof {
                    lemma_rank1_monotone(opb, i + 1, opb.len() as int);
                    lemma_sel1_props(opb, o as nat);
                    lemma_sel1_unique(opb, i as int, sel1(opb, o as nat));
                }
                i
            },
            None => oblen,
        };
        proof {
            if w {
                assert(start as int == spec_op_start(opb, (o - 1) as nat));
                assert(end as int == spec_op_start(opb, o as nat));
                let total = rank1_of(opb, opb.len() as int);
                if ((o - 1) as nat) < total {
                    lemma_sel1_props(opb, (o - 1) as nat);
                    if (o as nat) < total {
                        lemma_sel1_props(opb, o as nat);
                        if end <= start {
                            lemma_rank1_monotone(opb, end as int, start as int);
                        }
                    }
                }
                assert(start <= end);
                if o as nat <= self.max_z() {
                    assert(self.op_group(o as nat) == g);
                    assert(end - start == g.len());
                } else {
                    // an id above every stored object has no group
                    lemma_seq_max_bound(self.zs());
                    lemma_positions_of_props(self.zs(), o as nat);
                    if g.len() > 0 {
                        assert(self.zs()[g[0]] == o as nat);
                    }
                    assert(g.len() == 0);
                    assert(start == oblen && end == oblen);
                }
                lemma_positions_of_props(self.zs(), o as nat);
            }
        }
        if start >= end {
            return Ok(Vec::new());
        }
        let ylen = self.adjlist_y.len();
        let zlen = self.adjlist_z.len();
        let mut v: Vec<TripleId> = Vec::new();
        let mut idx = start;
        while idx < end
            invariant
                start <= idx <= end,
                v@.len() == idx - start,
                w ==> forall|j: int|
                    0 <= j < v@.len() ==> matches_triple(#[trigger] v@[j], self.spec_triple(g[j])),
            decreases end - idx,
        {
            if idx >= self.op_index.positions.len() {
                // a well-formed index holds one position per entry
                return Err(ReadError::MalformedTriple);
            }
            let pos_z = self.op_index.positions[idx];
            proof {
                if w {
                    assert(g[idx - start] == self.op_group(o as nat)[idx - start]);
                    assert(pos_z as int == g[idx - start]);
                    assert(0 <= g[idx - start] < self.zs().len() && self.zs()[g[idx - start]]
                        == o as nat);
                    lemma_rank1_lt_total(self.zb(), pos_z as int);
                }
            }
            if pos_z >= zlen {
                return Err(ReadError::MalformedTriple);
            }
            let pos_y = self.adjlist_z.bitmap.rank1(pos_z);
            proof {
                if w {
                    lemma_rank1_monotone(self.zb(), 0, pos_z as int);
                }
            }
            if pos_y >= ylen {
                // a well-formed section owns every z position to a y position
                return Err(ReadError::MalformedTriple);
            }
            let x0 = self.adjlist_y.bitmap.rank1(pos_y);
            proof {
                if w {
                    lemma_rank1_monotone(self.yb(), 0, pos_y as int);
                }
            }
            let x = if x0 < usize::MAX {
                x0 + 1
            } else {
                x0
            };
            let y = self.adjlist_y.get_id(pos_y);
            let t = match self.coord_to_triple(x, y, o) {
                Ok(t) => t,
                Err(e) => {
                    return Err(e);
                },
            };
            v.push(t);
            idx = idx + 1;
        }
        Ok(v)
    }

    /// The wavelet mask of y positions holding predicate `p`.
    pub open spec fn ymask(self, p: usize) -> Seq<bool> {
        sym_mask(self.ys_us(), p)
    }

    /// The z position `k` belongs to a triple whose y id is `p`.
    pub open spec fn z_matches(self, p: usize, k: int) -> bool {
        0 <= self.t_ypos(k) < self.ys().len() && self.ys_us()[self.t_ypos(k)] == p
    }

    /// Ascending z positions below `m` whose y id is `p`.
    pub open spec fn z_with_y_upto(self, p: usize, m: int) -> Seq<int>
        decreases m,
    {
        if m <= 0 {
            Seq::empty()
        } else {
            let t = self.z_with_y_upto(p, m - 1);
            if self.z_matches(p, m - 1) {
                t.push(m - 1)
            } else {
                t
            }
        }
    }

    /// Ascending z positions whose y id is `p`.
    pub open spec fn z_with_y(self, p: usize) -> Seq<int> {
        self.z_with_y_upto(p, self.zs().len() as int)
    }

    /// A span without matches adds nothing to the matching positions.
    proof fn lemma_upto_gap(self, p: usize, a: int, b: int)
        requires
            a <= b,
            forall|k: int| a <= k < b ==> !#[trigger] self.z_matches(p, k),
        ensures
            self.z_with_y_upto(p, b) == self.z_with_y_upto(p, a),
        decreases b - a,
    {
        if a < b {
            self.lemma_upto_gap(p, a, b - 1);
        }
    }

    /// Enumerate the triples whose stored y coordinate is `p` (the
    /// predicate for subject-first orders), grouped by
    /// ascending y occurrence and ascending z within each; ids out of range
    /// yield the empty sequence.
    #[verifier::loop_isolation(false)]
    #[verifier::rlimit(100)]
    #[verifier::spinoff_prover]
    pub fn with_p(&self, p: usize) -> (r: Result<Vec<TripleId>, ReadError>)
        ensures
            self.wf() ==> (r matches Ok(v) && {
                &&& v@.len() == self.z_with_y(p).len()
                &&& forall|j: int|
                    0 <= j < v@.len() ==> matches_triple(
                        #[trigger] v@[j],
                        self.spec_triple(self.z_with_y(p)[j]),
                    )
            }),
    {
        let ghost w = self.wf();
        let ghost mask = self.ymask(p);
        let ylen = self.adjlist_y.len();
        let zlen = self.adjlist_z.len();
        let wlen = wm_len(&self.wavelet_y);
        if wlen == 0 {
            // a well-formed section has a nonempty y sequence
            return Ok(Vec::new());
        }
        let mx = wm_max(&self.wavelet_y);
        if p > mx {
            proof {
                if w {
                    assert forall|k: int| 0 <= k < zlen implies !#[trigger] self.z_matches(
                        p,
                        k,
                    ) by {}
                    self.lemma_upto_gap(p, 0, zlen as int);
                }
            }
            return Ok(Vec::new());
        }
        let occs = wm_rank(&self.wavelet_y, wlen, p);
        proof {
            if w {
                assert(mask.len() == self.ys().len());
                assert(occs == rank1_of(mask, mask.len() as int));
            }
        }
        let mut v: Vec<TripleId> = Vec::new();
        let mut i: usize = 0;
        let ghost mut bnd: int = 0;
        while i < occs
            invariant
                0 <= i <= occs,
                w ==> occs == rank1_of(mask, mask.len() as int),
                w ==> mask.len() == self.ys().len(),
                w ==> 0 <= bnd <= self.zs().len(),
                w ==> (i > 0 ==> bnd == spec_find(
                    self.zb(),
                    (sel1(mask, (i - 1) as nat) + 1) as nat,
                ) && sel1(mask, (i - 1) as nat) + 1 <= self.ys().len()),
                w ==> (i == 0 ==> bnd == 0),
                w ==> v@.len() == self.z_with_y_upto(p, bnd).len(),
                w ==> forall|j: int|
                    0 <= j < v@.len() ==> matches_triple(
                        #[trigger] v@[j],
                        self.spec_triple(self.z_with_y_upto(p, bnd)[j]),
                    ),
            decreases occs - i,
        {
            let q = wm_select(&self.wavelet_y, i, p);
            proof {
                if w {
                    lemma_sel1_props(mask, i as nat);
                    lemma_sel1_unique(mask, q as int, sel1(mask, i as nat));
                    assert(q < self.ys().len());
                    assert(rank1_of(self.zb(), self.zb().len() as int) == self.ys().len());
                }
            }
            if q >= ylen {
                return Err(ReadError::MalformedTriple);
            }
            let zstart = self.adjlist_z.find(q);
            let zend = self.adjlist_z.find(q + 1);
            proof {
                if w {
                    lemma_find_props(self.zb(), q as nat);
                    lemma_find_props(self.zb(), (q + 1) as nat);
                    lemma_find_mono(self.zb(), q as nat, (q + 1) as nat);
                    // between the previous range and this one nothing matches
                    assert(bnd <= zstart) by {
                        if i > 0 {
                            let pq = sel1(mask, (i - 1) as nat);
                            lemma_sel1_props(mask, (i - 1) as nat);
                            if q as int + 1 <= pq {
                                lemma_rank1_monotone(mask, q as int + 1, pq);
                            }
                            lemma_find_mono(self.zb(), (pq + 1) as nat, q as nat);
                        }
                    }
                    assert forall|k: int| bnd <= k < zstart implies !#[trigger] self.z_matches(
                        p,
                        k,
                    ) by {
                        let t = self.t_ypos(k);
                        assert(t < q) by {
                            lemma_find_props(self.zb(), q as nat);
                        }
                        if i > 0 {
                            let pq = sel1(mask, (i - 1) as nat);
                            lemma_find_after(self.zb(), (pq + 1) as nat, k);
                            assert(t >= pq + 1);
                            if 0 <= t < mask.len() && mask[t] {
                                lemma_sel1_props(mask, (i - 1) as nat);
                                lemma_rank1_monotone(mask, pq + 1, t);
                                lemma_rank1_monotone(mask, t + 1, q as int);
                            }
                        } else {
                            if 0 <= t < mask.len() && mask[t] {
                                lemma_rank1_monotone(mask, t + 1, q as int);
                            }
                        }
                    }
                    self.lemma_upto_gap(p, bnd, zstart as int);
                }
            }
            let x0 = self.adjlist_y.bitmap.rank1(q);
            proof {
                if w {
                    lemma_rank1_monotone(self.yb(), 0, q as int);
                }
            }
            let x = if x0 < usize::MAX {
                x0 + 1
            } else {
                x0
            };
            let y = self.adjlist_y.get_id(q);
            proof {
                if w {
                    if zend <= zstart {
                        lemma_rank1_monotone(self.zb(), zend as int, zstart as int);
                    }
                }
            }
            if zstart >= zend {
                // a well-formed section gives every y position a z group
                return Err(ReadError::MalformedTriple);
            }
            let mut pos_z = zstart;
            while pos_z < zend
                invariant
                    zstart <= pos_z <= zend,
                    w ==> zend <= self.zs().len(),
                    w ==> v@.len() == self.z_with_y_upto(p, pos_z as int).len(),
                    w ==> forall|j: int|
                        0 <= j < v@.len() ==> matches_triple(
                            #[trigger] v@[j],
                            self.spec_triple(self.z_with_y_upto(p, pos_z as int)[j]),
                        ),
                decreases zend - pos_z,
            {
                proof {
                    if w {
                        lemma_find_after(self.zb(), q as nat, pos_z as int);
                        lemma_find_props(self.zb(), (q + 1) as nat);
                        assert(self.t_ypos(pos_z as int) == q);
                        assert(self.z_matches(p, pos_z as int));
                    }
                }
                if pos_z >= zlen {
                    return Err(ReadError::MalformedTriple);
                }
                let z = self.adjlist_z.get_id(pos_z);
                let t = match self.coord_to_triple(x, y, z) {
                    Ok(t) => t,
                    Err(e) => {
                        return Err(e);
                    },
                };
                v.push(t);
                pos_z = pos_z + 1;
            }
            proof {
                if w {
                    bnd = zend as int;
                }
            }
            i = i + 1;
        }
        proof {
            if w {
                // past the last occurrence nothing matches
                assert forall|k: int| bnd <= k < self.zs().len() implies !#[trigger] self
                    .z_matches(p, k) by {
                    let t = self.t_ypos(k);
                    if i > 0 {
                        let pq = sel1(mask, (i - 1) as nat);
                        lemma_sel1_props(mask, (i - 1) as nat);
                        lemma_find_after(self.zb(), (pq + 1) as nat, k);
                        if 0 <= t < mask.len() && mask[t] {
                            lemma_rank1_monotone(mask, pq + 1, t);
                            lemma_rank1_monotone(mask, t + 1, mask.len() as int);
                        }
                    } else {
                        if 0 <= t < mask.len() && mask[t] {
                            lemma_rank1_monotone(mask, t + 1, mask.len() as int);
                        }
                    }
                }
                self.lemma_upto_gap(p, bnd, self.zs().len() as int);
            }
        }
        Ok(v)
    }

    /// The matching positions of `with_p` are exactly the z positions whose
    /// y id is `p`, in ascending order: filtering a scan on the y coordinate
    /// agrees with the predicate query.
    pub proof fn lemma_with_p_is_filter(self, p: usize, m: int)
        requires
            0 <= m <= self.zs().len(),
        ensures
            forall|j: int|
                0 <= j < self.z_with_y_upto(p, m).len() ==> 0 <= #[trigger] self.z_with_y_upto(
                    p,
                    m,
                )[j] < m && self.z_matches(p, self.z_with_y_upto(p, m)[j]),
            forall|j1: int, j2: int|
                0 <= j1 < j2 < self.z_with_y_upto(p, m).len() ==> #[trigger] self.z_with_y_upto(
                    p,
                    m,
                )[j1] < #[trigger] self.z_with_y_upto(p, m)[j2],
            forall|k: int|
                0 <= k < m && #[trigger] self.z_matches(p, k) ==> self.z_with_y_upto(p, m).contains(
                    k,
                ),
        decreases m,
    {
        if m > 0 {
            self.lemma_with_p_is_filter(p, m - 1);
            let t = self.z_with_y_upto(p, m - 1);
            let c = self.z_with_y_upto(p, m);
            assert forall|k: int| 0 <= k < m && #[trigger] self.z_matches(p, k) implies c.contains(
                k,
            ) by {
                if k < m - 1 {
                    assert(t.contains(k));
                    let j = choose|j: int| 0 <= j < t.len() && t[j] == k;
                    assert(c[j] == k);
                } else {
                    assert(c[c.len() - 1] == k);
                }
            }
        }
    }

    /// The object listing carves out exactly the z positions holding `o`:
    /// filtering a scan on the z coordinate agrees with the object query.
    pub proof fn lemma_with_o_is_filter(self, o: nat, k: int)
        requires
            0 <= k < self.zs().len(),
        ensures
            self.zs()[k] == o <==> positions_of(self.zs(), o).contains(k),
    {
        lemma_positions_of_props(self.zs(), o);
        if self.zs()[k] == o {
            lemma_positions_of_complete(self.zs(), o, k);
            let j = choose|j: int|
                0 <= j < positions_of(self.zs(), o).len() && #[trigger] positions_of(
                    self.zs(),
                    o,
                )[j] == k;
            assert(positions_of(self.zs(), o)[j] == k);
        }
        if positions_of(self.zs(), o).contains(k) {
            let j = choose|j: int|
                0 <= j < positions_of(self.zs(), o).len() && positions_of(self.zs(), o)[j] == k;
            assert(self.zs()[positions_of(self.zs(), o)[j]] == o);
        }
    }

    /// The predicate query draws from exactly the occurrences that the
    /// wavelet matrix counts: a y position contributes matching z entries
    /// precisely when it holds `p`, so `with_p` emits one z group per
    /// occurrence of `p` in the y sequence.
    pub proof fn lemma_with_p_occurrences(self, p: usize, q: int)
        requires
            self.wf(),
            0 <= q < self.ys().len(),
        ensures
            self.ymask(p)[q] <==> exists|k: int|
                0 <= k < self.zs().len() && #[trigger] self.z_matches(p, k) && self.t_ypos(k) == q,
    {
        if self.ymask(p)[q] {
            // the start of q's z group is a matching witness
            let nz = rank1_of(self.zb(), self.zb().len() as int);
            lemma_find_props(self.zb(), q as nat);
            lemma_find_props(self.zb(), (q + 1) as nat);
            let k = spec_find(self.zb(), q as nat);
            if spec_find(self.zb(), (q + 1) as nat) <= k {
                lemma_find_after(self.zb(), (q + 1) as nat, k);
            }
            assert(k < spec_find(self.zb(), (q + 1) as nat));
            assert(k < self.zs().len());
            assert(self.t_ypos(k) == q);
            assert(self.z_matches(p, k));
        }
    }

    /// Every coordinate of a well-formed section's triple table is positive.
    pub proof fn lemma_triples_positive(self, k: int)
        requires
            self.wf(),
            0 <= k < self.zs().len(),
        ensures
            self.spec_triple(k).0 >= 1,
            self.spec_triple(k).1 >= 1,
            self.spec_triple(k).2 >= 1,
    {
        lemma_rank1_lt_total(self.zb(), k);
    }
}

/// The greatest value of a sequence, zero when empty.
pub open spec fn seq_max(s: Seq<nat>) -> nat
    decreases s.len(),
{
    if s.len() == 0 {
        0
    } else {
        let m = seq_max(s.drop_last());
        if s.last() > m {
            s.last()
        } else {
            m
        }
    }
}

/// Every position listed for `o` lies inside `zs`, holds exactly `o`, and
/// the listing ascends.
pub proof fn lemma_positions_of_props(zs: Seq<nat>, o: nat)
    ensures
        forall|j: int|
            0 <= j < positions_of(zs, o).len() ==> 0 <= #[trigger] positions_of(zs, o)[j]
                < zs.len() && zs[positions_of(zs, o)[j]] == o,
        forall|j1: int, j2: int|
            0 <= j1 < j2 < positions_of(zs, o).len() ==> #[trigger] positions_of(zs, o)[j1]
                < #[trigger] positions_of(zs, o)[j2],
    decreases zs.len(),
{
    if zs.len() > 0 {
        let zt = zs.drop_last();
        let p = positions_of(zs, o);
        let pt = positions_of(zt, o);
        lemma_positions_of_props(zt, o);
        assert(forall|k: int| 0 <= k < zt.len() ==> zt[k] == zs[k]);
        assert forall|j: int| 0 <= j < p.len() implies 0 <= #[trigger] p[j] < zs.len() && zs[p[j]]
            == o by {
            if zs.last() == o {
                if j < pt.len() {
                    assert(p[j] == pt[j]);
                } else {
                    assert(p[j] == zs.len() - 1);
                }
            } else {
                assert(p[j] == pt[j]);
            }
        }
        assert forall|j1: int, j2: int| 0 <= j1 < j2 < p.len() implies #[trigger] p[j1]
            < #[trigger] p[j2] by {
            if zs.last() == o {
                if j2 < pt.len() {
                    assert(p[j1] == pt[j1] && p[j2] == pt[j2]);
                } else {
                    assert(p[j1] == pt[j1] && p[j2] == zs.len() - 1);
                    assert(pt[j1] < zt.len());
                }
            } else {
                assert(p[j1] == pt[j1] && p[j2] == pt[j2]);
            }
        }
    }
}

/// Every position holding `o` is listed for `o`.
pub proof fn lemma_positions_of_complete(zs: Seq<nat>, o: nat, k: int)
    requires
        0 <= k < zs.len(),
        zs[k] == o,
    ensures
        exists|j: int| 0 <= j < positions_of(zs, o).len() && #[trigger] positions_of(zs, o)[j]
            == k,
    decreases zs.len(),
{
    if k == zs.len() - 1 {
        assert(positions_of(zs, o)[positions_of(zs, o).len() - 1] == k);
    } else {
        assert(zs.drop_last()[k] == zs[k]);
        lemma_positions_of_complete(zs.drop_last(), o, k);
        let j = choose|j: int|
            0 <= j < positions_of(zs.drop_last(), o).len() && #[trigger] positions_of(
                zs.drop_last(),
                o,
            )[j] == k;
        assert(positions_of(zs, o)[j] == k);
    }
}

/// No value of `s` exceeds `seq_max(s)`.
pub proof fn lemma_seq_max_bound(s: Seq<nat>)
    ensures
        forall|k: int| 0 <= k < s.len() ==> #[trigger] s[k] <= seq_max(s),
    decreases s.len(),
{
    if s.len() > 0 {
        lemma_seq_max_bound(s.drop_last());
        assert(forall|k: int| 0 <= k < s.len() - 1 ==> s.drop_last()[k] == s[k]);
    }
}

/// Section metadata handed in by the control-info collaborator: the format
/// URI and the raw `order` property, both as bytes.
pub struct ControlInfo {
    pub format: Vec<u8>,
    pub order: Option<Vec<u8>>,
}

/// `s` holds only decimal digits.
pub open spec fn is_digits(s: Seq<u8>) -> bool {
    forall|i: int| 0 <= i < s.len() ==> 0x30 <= #[trigger] s[i] <= 0x39
}

/// The decimal value written in `s`.
pub open spec fn dec_val(s: Seq<u8>) -> nat
    decreases s.len(),
{
    if s.len() == 0 {
        0
    } else {
        dec_val(s.drop_last()) * 10 + (s.last() - 0x30) as nat
    }
}

/// `s` is an acceptable decimal order number: one to ten digits whose value
/// fits 32 bits.
pub open spec fn is_dec_u32(s: Seq<u8>) -> bool {
    is_digits(s) && 1 <= s.len() <= 10 && dec_val(s) <= u32::MAX
}

/// Ten to the power `n`.
pub open spec fn p10(n: nat) -> nat
    decreases n,
{
    if n == 0 {
        1
    } else {
        10 * p10((n - 1) as nat)
    }
}

proof fn lemma_p10_small(n: nat)
    requires
        n <= 10,
    ensures
        p10(n) <= 10000000000,
    decreases n,
{
    if n > 0 {
        lemma_p10_small((n - 1) as nat);
        if p10(n) > 10000000000 {
            assert(p10((n - 1) as nat) > 1000000000);
            let mut m = n;
            assert(p10(0) == 1);
            assert(p10(1) == 10);
            assert(p10(2) == 100);
            assert(p10(3) == 1000);
            assert(p10(4) == 10000);
            assert(p10(5) == 100000);
            assert(p10(6) == 1000000);
            assert(p10(7) == 10000000);
            assert(p10(8) == 100000000);
            assert(p10(9) == 1000000000);
            assert(p10(10) == 10000000000);
        }
    }
}

/// Parse a decimal number of at most ten digits.
#[verifier::loop_isolation(false)]
pub fn parse_decimal(s: &[u8]) -> (r: Option<u32>)
    ensures
        r is Some <==> is_dec_u32(s@),
        r matches Some(v) ==> v == dec_val(s@),
{
    let n = s.len();
    if n == 0 || n > 10 {
        return None;
    }
    let mut acc: u64 = 0;
    let mut i: usize = 0;
    while i < n
        invariant
            0 <= i <= n == s@.len() <= 10,
            forall|j: int| 0 <= j < i ==> 0x30 <= #[trigger] s@[j] <= 0x39,
            acc == dec_val(s@.take(i as int)),
            acc < p10(i as nat),
        decreases n - i,
    {
        let b = s[i];
        if b < 0x30 || b > 0x39 {
            return None;
        }
        proof {
            assert(s@.take(i + 1).drop_last() =~= s@.take(i as int));
            assert(s@.take(i + 1).last() == s@[i as int]);
            lemma_p10_small(i as nat);
            lemma_p10_small((i + 1) as nat);
        }
        acc = acc * 10 + ((b - 0x30) as u64);
        i = i + 1;
    }
    proof {
        assert(s@.take(n as int) =~= s@);
    }
    if acc > u32::MAX as u64 {
        return None;
    }
    Some(acc as u32)
}

/// The order declared by a control-info record: its `order` property read
/// as a decimal number; absent or unparseable is a fatal format error.
pub open spec fn spec_ci_order(ci: ControlInfo) -> Result<Order, ReadError> {
    match ci.order {
        Option::None => Err(ReadError::InvalidOrder),
        Option::Some(ob) => if is_dec_u32(ob@) {
            spec_order(dec_val(ob@) as u32)
        } else {
            Err(ReadError::InvalidOrder)
        },
    }
}

/// Outcome of parsing the four framed parts of a triples-bitmap section in
/// order: both bitmaps, both sequences, and the position one past the last.
pub open spec fn spec_parse_triples_parts(data: Seq<u8>, pos: int) -> Result<
    ((Seq<bool>, Seq<bool>), ((int, int, Seq<u8>), (int, int, Seq<u8>)), int),
    ReadError,
> {
    match spec_parse_bitmap(data, pos) {
        Err(e) => Err(e),
        Ok(by) => match spec_parse_bitmap(data, by.1) {
            Err(e) => Err(e),
            Ok(bz) => match spec_parse_sequence(data, bz.1) {
                Err(e) => Err(e),
                Ok(sy) => match spec_parse_sequence(data, sy.3) {
                    Err(e) => Err(e),
                    Ok(sz) => Ok(
                        ((by.0, bz.0), ((sy.0, sy.1, sy.2), (sz.0, sz.1, sz.2)), sz.3),
                    ),
                },
            },
        },
    }
}

impl TriplesBitmap {
    /// Parse a triples-bitmap section at `pos`: the declared order from the
    /// control info, then the y and z bitmaps and the y and z sequences,
    /// each with its own framing, then the object index and the wavelet
    /// matrix built in memory.  The id-positivity and density invariants of
    /// the payload are properties of the file and are not checked here.
    #[verifier::loop_isolation(false)]
    #[verifier::rlimit(100)]
    pub fn read(data: &[u8], pos: usize, ci: &ControlInfo) -> (r: Result<
        (TriplesBitmap, usize),
        ReadError,
    >)
        ensures
            r matches Ok(p) ==> (spec_parse_triples_parts(data@, pos as int) matches Ok(sp) && {
                &&& spec_ci_order(*ci) == Ok::<Order, ReadError>(p.0.order)
                &&& p.0.yb() == sp.0.0
                &&& p.0.zb() == sp.0.1
                &&& p.0.adjlist_y.sequence.wf()
                &&& p.0.adjlist_y.sequence.bits_per_entry == sp.1.0.0
                &&& p.0.adjlist_y.sequence.entries == sp.1.0.1
                &&& p.0.adjlist_y.sequence.data@ == sp.1.0.2
                &&& p.0.adjlist_z.sequence.wf()
                &&& p.0.adjlist_z.sequence.bits_per_entry == sp.1.1.0
                &&& p.0.adjlist_z.sequence.entries == sp.1.1.1
                &&& p.0.adjlist_z.sequence.data@ == sp.1.1.2
                &&& p.1 == sp.2
                &&& p.0.ys().len() > 0 ==> wm_syms(p.0.wavelet_y) == p.0.ys_us()
                &&& ints_of(p.0.op_index.positions@) == flat_pos(p.0.zs(), p.0.max_z())
                &&& p.0.op_index.bitmap@ == flat_bits(p.0.zs(), p.0.max_z())
            }),
            r is Ok <==> (spec_ci_order(*ci) is Ok && (spec_parse_triples_parts(
                data@,
                pos as int,
            ) matches Ok(sp) && sp.1.0.1 > 0)),
            r matches Err(e) ==> (spec_ci_order(*ci) == Err::<Order, ReadError>(e) || (
            spec_ci_order(*ci) is Ok && spec_parse_triples_parts(data@, pos as int) == Err::<
                ((Seq<bool>, Seq<bool>), ((int, int, Seq<u8>), (int, int, Seq<u8>)), int),
                ReadError,
            >(e)) || (spec_ci_order(*ci) is Ok && (spec_parse_triples_parts(data@, pos as int)
                matches Ok(sp) && sp.1.0.1 == 0) && e == ReadError::UnsupportedSectionType)),
    {
        let order = match parse_order(ci) {
            Ok(o) => o,
            Err(e) => {
                return Err(e);
            },
        };
        let (bitmap_y, p1) = match Bitmap::read(data, pos) {
            Ok(x) => x,
            Err(e) => {
                return Err(e);
            },
        };
        let (bitmap_z, p2) = match Bitmap::read(data, p1) {
            Ok(x) => x,
            Err(e) => {
                return Err(e);
            },
        };
        let (sequence_y, p3) = match Sequence::read(data, p2) {
            Ok(x) => x,
            Err(e) => {
                return Err(e);
            },
        };
        let (sequence_z, p4) = match Sequence::read(data, p3) {
            Ok(x) => x,
            Err(e) => {
                return Err(e);
            },
        };
        let adjlist_y = AdjList { sequence: sequence_y, bitmap: bitmap_y };
        let adjlist_z = AdjList { sequence: sequence_z, bitmap: bitmap_z };
        // gather the y ids for the wavelet matrix
        let ylen = adjlist_y.len();
        let mut yvec: Vec<usize> = Vec::new();
        let mut q: usize = 0;
        while q < ylen
            invariant
                0 <= q <= ylen,
                ylen == adjlist_y.sequence.entries,
                adjlist_y.sequence.wf(),
                yvec@.len() == q,
                forall|j: int| 0 <= j < q ==> #[trigger] yvec@[j] == adjlist_y.ids()[j] as usize,
            decreases ylen - q,
        {
            yvec.push(adjlist_y.get_id(q));
            q = q + 1;
        }
        if ylen == 0 {
            // an empty y sequence leaves nothing to index
            return Err(ReadError::UnsupportedSectionType);
        }
        let wavelet_y = match wm_build(&yvec) {
            Some(wm) => wm,
            None => {
                return Err(ReadError::UnsupportedSectionType);
            },
        };
        proof {
            let tbys = Seq::new(adjlist_y.ids().len(), |j: int| adjlist_y.ids()[j] as usize);
            assert(yvec@ =~= tbys);
        }
        // find the greatest z id
        let ghost zseq = adjlist_z.ids();
        let zlen = adjlist_z.len();
        let mut maxv: usize = 0;
        let mut k: usize = 0;
        while k < zlen
            invariant
                0 <= k <= zlen,
                zlen == adjlist_z.sequence.entries,
                adjlist_z.sequence.wf(),
                zseq == adjlist_z.ids(),
                maxv as nat == seq_max(zseq.take(k as int)),
            decreases zlen - k,
        {
            let zv = adjlist_z.get_id(k);
            proof {
                assert(zseq.take(k + 1).drop_last() =~= zseq.take(k as int));
                assert(zseq.take(k + 1).last() == zseq[k as int]);
            }
            if zv > maxv {
                maxv = zv;
            }
            k = k + 1;
        }
        proof {
            assert(zseq.take(zlen as int) =~= zseq);
            assert(maxv as nat == seq_max(zseq));
        }
        // group the z positions of each object id in ascending order
        let mut op_pos: Vec<usize> = Vec::new();
        let mut op_bits: Vec<bool> = Vec::new();
        let mut om1: usize = 0;
        proof {
            assert(ints_of(op_pos@) =~= flat_pos(zseq, 0));
            assert(op_bits@ =~= flat_bits(zseq, 0));
        }
        while om1 < maxv
            invariant
                0 <= om1 <= maxv,
                zlen == adjlist_z.sequence.entries,
                adjlist_z.sequence.wf(),
                zseq == adjlist_z.ids(),
                ints_of(op_pos@) == flat_pos(zseq, om1 as nat),
                op_bits@ == flat_bits(zseq, om1 as nat),
            decreases maxv - om1,
        {
            let o = om1 + 1;
            let mut first = true;
            let mut k2: usize = 0;
            while k2 < zlen
                invariant
                    0 <= k2 <= zlen,
                    o == om1 + 1,
                    om1 < maxv,
                    zlen == adjlist_z.sequence.entries,
                    adjlist_z.sequence.wf(),
                    zseq == adjlist_z.ids(),
                    ints_of(op_pos@) == flat_pos(zseq, om1 as nat) + positions_of(
                        zseq.take(k2 as int),
                        o as nat,
                    ),
                    op_bits@ == flat_bits(zseq, om1 as nat) + group_bits(
                        positions_of(zseq.take(k2 as int), o as nat).len(),
                    ),
                    first == (positions_of(zseq.take(k2 as int), o as nat).len() == 0),
                decreases zlen - k2,
            {
                proof {
                    assert(zseq.take(k2 + 1).drop_last() =~= zseq.take(k2 as int));
                    assert(zseq.take(k2 + 1).last() == zseq[k2 as int]);
                }
                if adjlist_z.get_id(k2) == o {
                    op_bits.push(first);
                    proof {
                        let n0 = positions_of(zseq.take(k2 as int), o as nat).len();
                        assert(group_bits(n0).push(n0 == 0) =~= group_bits(n0 + 1));
                        assert((flat_bits(zseq, om1 as nat) + group_bits(n0)).push(n0 == 0)
                            =~= flat_bits(zseq, om1 as nat) + group_bits(n0 + 1));
                    }
                    first = false;
                    op_pos.push(k2);
                    proof {
                        let fp = flat_pos(zseq, om1 as nat);
                        let g0 = positions_of(zseq.take(k2 as int), o as nat);
                        assert(ints_of(op_pos@) =~= (fp + g0).push(k2 as int));
                        assert((fp + g0).push(k2 as int) =~= fp + g0.push(k2 as int));
                    }
                }
                k2 = k2 + 1;
            }
            proof {
                assert(zseq.take(zlen as int) =~= zseq);
                assert(ints_of(op_pos@) == flat_pos(zseq, o as nat));
                assert(op_bits@ == flat_bits(zseq, o as nat));
            }
            om1 = o;
        }
        proof {
            assert(ints_of(op_pos@) == flat_pos(zseq, maxv as nat));
            assert(op_bits@ == flat_bits(zseq, maxv as nat));
        }
        let op_bitmap = Bitmap::from_bits(&op_bits);
        let op_index = OpIndex { positions: op_pos, bitmap: op_bitmap };
        let tb = TriplesBitmap { order, adjlist_y, adjlist_z, op_index, wavelet_y };
        Ok((tb, p4))
    }
}

/// Read the declared order out of a control-info record.
pub fn parse_order(ci: &ControlInfo) -> (r: Result<Order, ReadError>)
    ensures
        r == spec_ci_order(*ci),
{
    match &ci.order {
        None => Err(ReadError::InvalidOrder),
        Some(ob) => {
            match parse_decimal(ob.as_slice()) {
                None => Err(ReadError::InvalidOrder),
                Some(v) => Order::try_from(v),
            }
        },
    }
}

proof fn lemma_flat_lens(zs: Seq<nat>, o: nat)
    ensures
        flat_bits(zs, o).len() == flat_pos(zs, o).len(),
    decreases o,
{
    if o > 0 {
        lemma_flat_lens(zs, (o - 1) as nat);
    }
}

proof fn lemma_rank1_concat(a: Seq<bool>, b: Seq<bool>, i: int)
    requires
        0 <= i <= b.len(),
    ensures
        rank1_of(a + b, a.len() + i) == rank1_of(a, a.len() as int) + rank1_of(b, i),
    decreases i,
{
    if i == 0 {
        assert((a + b).take(a.len() as int) =~= a);
        lemma_rank1_take(a + b, a.len() as int, a.len() as int);
    } else {
        lemma_rank1_concat(a, b, i - 1);
        assert((a + b)[a.len() + i - 1] == b[i - 1]);
    }
}

proof fn lemma_group_bits_rank(n: nat, i: int)
    requires
        0 <= i <= n,
    ensures
        rank1_of(group_bits(n), i) == if i > 0 {
            1int
        } else {
            0int
        },
    decreases i,
{
    if i > 0 {
        lemma_group_bits_rank(n, i - 1);
    }
}

/// With every id `1..=o` present, the grouping bits carry one set bit per
/// id.
proof fn lemma_flat_bits_rank_dense(zs: Seq<nat>, o: nat)
    requires
        forall|i: nat| 1 <= i <= o ==> #[trigger] positions_of(zs, i).len() > 0,
    ensures
        rank1_of(flat_bits(zs, o), flat_bits(zs, o).len() as int) == o,
    decreases o,
{
    if o > 0 {
        lemma_flat_bits_rank_dense(zs, (o - 1) as nat);
        let a = flat_bits(zs, (o - 1) as nat);
        let b = group_bits(positions_of(zs, o).len());
        lemma_rank1_concat(a, b, b.len() as int);
        lemma_group_bits_rank(b.len(), b.len() as int);
    }
}

/// Each flattened index is a prefix of every longer one.
proof fn lemma_flat_prefix(zs: Seq<nat>, g: nat, m: nat)
    requires
        g <= m,
    ensures
        flat_pos(zs, g).len() <= flat_pos(zs, m).len(),
        flat_bits(zs, g).len() <= flat_bits(zs, m).len(),
        flat_pos(zs, m).take(flat_pos(zs, g).len() as int) == flat_pos(zs, g),
        flat_bits(zs, m).take(flat_bits(zs, g).len() as int) == flat_bits(zs, g),
    decreases m,
{
    if g < m {
        lemma_flat_prefix(zs, g, (m - 1) as nat);
        let ap = flat_pos(zs, (m - 1) as nat);
        let ab = flat_bits(zs, (m - 1) as nat);
        assert(flat_pos(zs, m).take(flat_pos(zs, g).len() as int) =~= ap.take(
            flat_pos(zs, g).len() as int,
        ));
        assert(flat_bits(zs, m).take(flat_bits(zs, g).len() as int) =~= ab.take(
            flat_bits(zs, g).len() as int,
        ));
    } else {
        assert(flat_pos(zs, m).take(flat_pos(zs, g).len() as int) =~= flat_pos(zs, g));
        assert(flat_bits(zs, m).take(flat_bits(zs, g).len() as int) =~= flat_bits(zs, g));
    }
}

/// With every id `1..=m` present, the set bit of rank `g` sits at the start
/// of group `g + 1`.
proof fn lemma_flat_start(zs: Seq<nat>, m: nat, g: nat)
    requires
        forall|i: nat| 1 <= i <= m ==> #[trigger] positions_of(zs, i).len() > 0,
        g < m,
    ensures
        sel1(flat_bits(zs, m), g) == flat_bits(zs, g).len(),
{
    let bf = flat_bits(zs, m);
    let sg = flat_bits(zs, g).len() as int;
    lemma_flat_bits_rank_dense(zs, m);
    lemma_flat_bits_rank_dense(zs, g);
    lemma_flat_prefix(zs, g, m);
    lemma_flat_prefix(zs, (g + 1) as nat, m);
    // the position carries a set bit: it opens group g + 1
    let nb = positions_of(zs, (g + 1) as nat).len();
    assert(nb > 0);
    assert(flat_bits(zs, (g + 1) as nat) == flat_bits(zs, g) + group_bits(nb));
    assert(flat_bits(zs, (g + 1) as nat)[sg] == group_bits(nb)[0]);
    assert(sg < flat_bits(zs, (g + 1) as nat).len());
    assert(bf.take(flat_bits(zs, (g + 1) as nat).len() as int)[sg] == bf[sg]);
    assert(bf[sg]);
    // and it ranks exactly g
    lemma_rank1_take(bf, sg, sg);
    assert(bf.take(sg) == flat_bits(zs, g));
    assert(rank1_of(bf, sg) == g);
    lemma_sel1_props(bf, g);
    lemma_sel1_unique(bf, sg, sel1(bf, g));
}

proof fn lemma_flat_pos_empty(zs: Seq<nat>, m: nat)
    requires
        zs.len() == 0,
    ensures
        flat_pos(zs, m).len() == 0,
    decreases m,
{
    if m > 0 {
        lemma_flat_pos_empty(zs, (m - 1) as nat);
    }
}

proof fn lemma_flat_pos_last(zs: Seq<nat>, m: nat)
    requires
        zs.len() > 0,
    ensures
        flat_pos(zs, m).len() == flat_pos(zs.drop_last(), m).len() + if 1 <= zs.last() <= m {
            1int
        } else {
            0int
        },
    decreases m,
{
    if m > 0 {
        lemma_flat_pos_last(zs, (m - 1) as nat);
    }
}

/// With every id in `1..=m`, the flattened index lists each z position
/// exactly once.
proof fn lemma_flat_pos_total(zs: Seq<nat>, m: nat)
    requires
        forall|k: int| 0 <= k < zs.len() ==> 1 <= #[trigger] zs[k] <= m,
    ensures
        flat_pos(zs, m).len() == zs.len(),
    decreases zs.len(),
{
    if zs.len() > 0 {
        let zt = zs.drop_last();
        assert(forall|k: int| 0 <= k < zt.len() ==> zt[k] == zs[k]);
        lemma_flat_pos_total(zt, m);
        lemma_flat_pos_last(zs, m);
        assert(1 <= zs[zs.len() - 1] <= m);
        assert(zs.last() == zs[zs.len() - 1]);
    } else {
        lemma_flat_pos_empty(zs, m);
    }
}

impl TriplesBitmap {
    /// A section whose object index and wavelet matrix were built as `read`
    /// builds them is well-formed as soon as the payload data meets the
    /// format's own invariants: agreeing shapes with terminated final
    /// siblings, one z group per y position, positive ids, and every object
    /// id up to the greatest one in use.
    pub proof fn lemma_built_wf(self)
        requires
            self.adjlist_y.wf(),
            self.adjlist_z.wf(),
            self.order != Order::Unknown,
            self.ys().len() > 0,
            self.zs().len() > 0,
            self.zs().len() < usize::MAX,
            rank1_of(self.zb(), self.zs().len() as int) == self.ys().len(),
            forall|q: int| 0 <= q < self.ys().len() ==> #[trigger] self.ys()[q] >= 1,
            forall|k: int| 0 <= k < self.zs().len() ==> #[trigger] self.zs()[k] >= 1,
            wm_syms(self.wavelet_y) == self.ys_us(),
            ints_of(self.op_index.positions@) == flat_pos(self.zs(), self.max_z()),
            self.op_index.bitmap@ == flat_bits(self.zs(), self.max_z()),
            forall|o: nat| 1 <= o <= self.max_z() ==> #[trigger] positions_of(self.zs(), o).len()
                > 0,
        ensures
            self.wf(),
    {
        let zs = self.zs();
        let m = self.max_z();
        let bf = flat_bits(zs, m);
        lemma_seq_max_bound(zs);
        lemma_flat_pos_total(zs, m);
        lemma_flat_lens(zs, m);
        lemma_flat_bits_rank_dense(zs, m);
        assert(self.op_index.positions@.len() == zs.len());
        assert forall|o: nat| 1 <= o <= m implies #[trigger] self.op_group(o) == positions_of(
            zs,
            o,
        ) by {
            lemma_flat_lens(zs, (o - 1) as nat);
            lemma_flat_lens(zs, o);
            let start = flat_pos(zs, (o - 1) as nat).len() as int;
            let end = flat_pos(zs, o).len() as int;
            lemma_flat_start(zs, m, (o - 1) as nat);
            assert(spec_op_start(bf, (o - 1) as nat) == start);
            if o < m {
                lemma_flat_start(zs, m, o);
                assert(spec_op_start(bf, o) == end);
            } else {
                assert(spec_op_start(bf, o) == bf.len());
                assert(end == bf.len());
            }
            lemma_flat_prefix(zs, o, m);
            let grp = positions_of(zs, o);
            assert forall|j: int| 0 <= j < grp.len() implies self.op_index.positions@[start + j]
                == grp[j] by {
                assert(flat_pos(zs, m).take(end) == flat_pos(zs, o));
                assert(flat_pos(zs, m)[start + j] == flat_pos(zs, o)[start + j]);
                assert(flat_pos(zs, o)[start + j] == grp[j]);
                assert(ints_of(self.op_index.positions@)[start + j] == flat_pos(zs, m)[start + j]);
            }
            assert(self.op_group(o) =~= grp);
        }
    }
}

/// The stored x coordinate of a permuted (subject, predicate, object)
/// triple.
pub open spec fn x_slot(order: Order, c: (nat, nat, nat)) -> nat {
    match order {
        Order::SPO => c.0,
        Order::SOP => c.0,
        Order::PSO => c.1,
        Order::POS => c.2,
        Order::OSP => c.1,
        Order::OPS => c.2,
        Order::Unknown => 0,
    }
}

/// The stored y coordinate of a permuted triple.
pub open spec fn y_slot(order: Order, c: (nat, nat, nat)) -> nat {
    match order {
        Order::SPO => c.1,
        Order::SOP => c.2,
        Order::PSO => c.0,
        Order::POS => c.0,
        Order::OSP => c.2,
        Order::OPS => c.1,
        Order::Unknown => 0,
    }
}

/// The stored z coordinate of a permuted triple.
pub open spec fn z_slot(order: Order, c: (nat, nat, nat)) -> nat {
    match order {
        Order::SPO => c.2,
        Order::SOP => c.1,
        Order::PSO => c.2,
        Order::POS => c.1,
        Order::OSP => c.0,
        Order::OPS => c.0,
        Order::Unknown => 0,
    }
}

/// Filtering keeps exactly an enumerated ascending set of positions: the
/// result is the subsequence those positions pick out.
proof fn lemma_filter_enum(
    s: Seq<(nat, nat, nat)>,
    pred: spec_fn((nat, nat, nat)) -> bool,
    idxs: Seq<int>,
)
    requires
        forall|j: int| 0 <= j < idxs.len() ==> 0 <= #[trigger] idxs[j] < s.len(),
        forall|j: int| 0 <= j < idxs.len() ==> pred(s[#[trigger] idxs[j]]),
        forall|j1: int, j2: int|
            0 <= j1 < j2 < idxs.len() ==> #[trigger] idxs[j1] < #[trigger] idxs[j2],
        forall|k: int| 0 <= k < s.len() && pred(s[k]) ==> idxs.contains(k),
    ensures
        s.filter(pred) == Seq::new(idxs.len(), |j: int| s[idxs[j]]),
    decreases s.len(),
{
    reveal(Seq::filter);
    if s.len() == 0 {
        if idxs.len() > 0 {
            assert(0 <= idxs[0] < s.len());
        }
        assert(idxs.len() == 0);
        assert(s.filter(pred) =~= Seq::new(idxs.len(), |j: int| s[idxs[j]]));
    } else {
        let n = s.len() - 1;
        let t = s.drop_last();
        assert(forall|k: int| 0 <= k < n ==> t[k] == s[k]);
        if pred(s[n]) {
            assert(idxs.contains(n));
            let jn = choose|j: int| 0 <= j < idxs.len() && idxs[j] == n;
            if jn < idxs.len() - 1 {
                assert(idxs[jn] < idxs[idxs.len() - 1]);
            }
            assert(jn == idxs.len() - 1);
            let it = idxs.drop_last();
            assert(forall|j: int| 0 <= j < it.len() ==> it[j] == idxs[j]);
            assert forall|k: int| 0 <= k < t.len() && pred(t[k]) implies it.contains(k) by {
                assert(idxs.contains(k));
                let j = choose|j: int| 0 <= j < idxs.len() && idxs[j] == k;
                assert(j != jn);
                assert(it[j] == k);
            }
            lemma_filter_enum(t, pred, it);
            assert(s.filter(pred) == t.filter(pred).push(s[n]));
            assert(Seq::new(it.len(), |j: int| t[it[j]]).push(s[n]) =~= Seq::new(
                idxs.len(),
                |j: int| s[idxs[j]],
            ));
        } else {
            assert forall|j: int| 0 <= j < idxs.len() implies 0 <= #[trigger] idxs[j]
                < t.len() by {
                assert(pred(s[idxs[j]]));
            }
            assert forall|k: int| 0 <= k < t.len() && pred(t[k]) implies idxs.contains(k) by {
                assert(pred(s[k]));
            }
            lemma_filter_enum(t, pred, idxs);
            assert(s.filter(pred) == t.filter(pred));
            assert(Seq::new(idxs.len(), |j: int| t[idxs[j]]) =~= Seq::new(
                idxs.len(),
                |j: int| s[idxs[j]],
            ));
        }
    }
}

impl TriplesBitmap {
    /// The full triple table in storage order.
    pub open spec fn spec_scan(self) -> Seq<(nat, nat, nat)> {
        Seq::new(self.zs().len(), |k: int| self.spec_triple(k))
    }

    /// Scan-filter equivalence on the subject side: filtering the scan on
    /// the stored x coordinate yields exactly the `with_s` slab, as ordered
    /// sequences.
    #[verifier::rlimit(100)]
    pub proof fn lemma_scan_filter_s(self, xid: nat)
        requires
            self.wf(),
            xid >= 1,
        ensures
            self.spec_scan().filter((|c: (nat, nat, nat)| x_slot(self.order, c) == xid))
                == Seq::new(
                (self.x_max_z(xid) - self.x_min_z(xid)) as nat,
                |j: int| self.spec_triple(self.x_min_z(xid) + j),
            ),
    {
        let s = self.spec_scan();
        let pred = (|c: (nat, nat, nat)| x_slot(self.order, c) == xid);
        let lo = self.x_min_z(xid);
        let hi = self.x_max_z(xid);
        self.lemma_slab(xid);
        let idxs = Seq::new((hi - lo) as nat, |j: int| lo + j);
        assert forall|k: int| 0 <= k < s.len() implies (pred(s[k]) <==> self.t_x(k) == xid) by {
            assert(s[k] == self.spec_triple(k));
        }
        assert forall|j: int| 0 <= j < idxs.len() implies pred(s[#[trigger] idxs[j]]) by {
            assert(s[idxs[j]] == self.spec_triple(idxs[j]));
            self.lemma_with_s_is_filter(xid, idxs[j]);
        }
        assert forall|k: int| 0 <= k < s.len() && pred(s[k]) implies idxs.contains(k) by {
            self.lemma_with_s_is_filter(xid, k);
            assert(idxs[k - lo] == k);
        }
        lemma_filter_enum(s, pred, idxs);
        assert(Seq::new(idxs.len(), |j: int| s[idxs[j]]) =~= Seq::new(
            (hi - lo) as nat,
            |j: int| self.spec_triple(lo + j),
        ));
    }

    /// Scan-filter equivalence on the object side: filtering the scan on
    /// the stored z coordinate yields exactly the `with_o` listing, as
    /// ordered sequences.
    pub proof fn lemma_scan_filter_o(self, o: nat)
        requires
            self.wf(),
            o >= 1,
        ensures
            self.spec_scan().filter((|c: (nat, nat, nat)| z_slot(self.order, c) == o))
                == Seq::new(
                positions_of(self.zs(), o).len(),
                |j: int| self.spec_triple(positions_of(self.zs(), o)[j]),
            ),
    {
        let s = self.spec_scan();
        let pred = (|c: (nat, nat, nat)| z_slot(self.order, c) == o);
        let idxs = positions_of(self.zs(), o);
        lemma_positions_of_props(self.zs(), o);
        assert forall|k: int| 0 <= k < s.len() implies (pred(s[k]) <==> self.zs()[k] == o) by {
            assert(s[k] == self.spec_triple(k));
        }
        assert forall|k: int| 0 <= k < s.len() && pred(s[k]) implies idxs.contains(k) by {
            lemma_positions_of_complete(self.zs(), o, k);
            let j = choose|j: int| 0 <= j < idxs.len() && #[trigger] idxs[j] == k;
            assert(idxs[j] == k);
        }
        lemma_filter_enum(s, pred, idxs);
        assert(Seq::new(idxs.len(), |j: int| s[idxs[j]]) =~= Seq::new(
            idxs.len(),
            |j: int| self.spec_triple(idxs[j]),
        ));
    }

    /// Scan-filter equivalence on the predicate side: filtering the scan on
    /// the stored y coordinate yields exactly the `with_p` listing, as
    /// ordered sequences.
    pub proof fn lemma_scan_filter_p(self, p: usize)
        requires
            self.wf(),
        ensures
            self.spec_scan().filter((|c: (nat, nat, nat)| y_slot(self.order, c) == p))
                == Seq::new(
                self.z_with_y(p).len(),
                |j: int| self.spec_triple(self.z_with_y(p)[j]),
            ),
    {
        let s = self.spec_scan();
        let pred = (|c: (nat, nat, nat)| y_slot(self.order, c) == p);
        let idxs = self.z_with_y(p);
        let zlen = self.zs().len() as int;
        self.lemma_with_p_is_filter(p, zlen);
        assert forall|k: int| 0 <= k < s.len() implies (pred(s[k]) <==> self.z_matches(p, k)) by {
            assert(s[k] == self.spec_triple(k));
            lemma_rank1_lt_total(self.zb(), k);
            assert(0 <= self.t_ypos(k) < self.ys().len());
            assert(self.ys_us()[self.t_ypos(k)] == self.ys()[self.t_ypos(k)] as usize);
            assert(self.ys()[self.t_ypos(k)] <= usize::MAX as nat);
        }
        assert forall|j: int| 0 <= j < idxs.len() implies pred(s[#[trigger] idxs[j]]) by {
            assert(self.z_matches(p, idxs[j]));
            assert(s[idxs[j]] == self.spec_triple(idxs[j]));
        }
        assert forall|k: int| 0 <= k < s.len() && pred(s[k]) implies idxs.contains(k) by {
            assert(self.z_matches(p, k));
        }
        lemma_filter_enum(s, pred, idxs);
        assert(Seq::new(idxs.len(), |j: int| s[idxs[j]]) =~= Seq::new(
            idxs.len(),
            |j: int| self.spec_triple(idxs[j]),
        ));
    }
}

/// The format URI of a bitmap-encoded triples section.
pub open spec fn bitmap_format() -> Seq<u8> {
    "<http://purl.org/HDT/hdt#triplesBitmap>".spec_bytes()
}

/// The format URI of a list-encoded triples section, which is not
/// supported.
pub open spec fn list_format() -> Seq<u8> {
    "<http://purl.org/HDT/hdt#triplesList>".spec_bytes()
}

/// A triples section of any supported encoding; only the bitmap encoding
/// exists today.
pub enum TripleSect {
    Bitmap(TriplesBitmap),
}

impl TripleSect {
    /// The bitmap-encoded section held.
    pub open spec fn bitmap(self) -> TriplesBitmap {
        match self {
            TripleSect::Bitmap(b) => b,
        }
    }

    /// Parse a triples section at `pos`, dispatching on the control-info
    /// format URI: the bitmap encoding is read, the list encoding is
    /// unsupported, anything else is unknown.
    pub fn read(data: &[u8], pos: usize, ci: &ControlInfo) -> (r: Result<
        (TripleSect, usize),
        ReadError,
    >)
        ensures
            ci.format@ == list_format() ==> r == Err::<(TripleSect, usize), ReadError>(
                ReadError::UnsupportedSectionType,
            ),
            ci.format@ != list_format() && ci.format@ != bitmap_format() ==> r == Err::<
                (TripleSect, usize),
                ReadError,
            >(ReadError::UnknownFormat),
            r matches Ok(p) ==> ci.format@ == bitmap_format(),
            r matches Ok(p) ==> (spec_parse_triples_parts(data@, pos as int) matches Ok(sp) && {
                &&& spec_ci_order(*ci) == Ok::<Order, ReadError>(p.0.bitmap().order)
                &&& p.0.bitmap().yb() == sp.0.0
                &&& p.0.bitmap().zb() == sp.0.1
                &&& p.0.bitmap().adjlist_y.sequence.wf()
                &&& p.0.bitmap().adjlist_z.sequence.wf()
                &&& p.1 == sp.2
                &&& p.0.bitmap().ys().len() > 0 ==> wm_syms(p.0.bitmap().wavelet_y)
                    == p.0.bitmap().ys_us()
                &&& ints_of(p.0.bitmap().op_index.positions@) == flat_pos(
                    p.0.bitmap().zs(),
                    p.0.bitmap().max_z(),
                )
                &&& p.0.bitmap().op_index.bitmap@ == flat_bits(
                    p.0.bitmap().zs(),
                    p.0.bitmap().max_z(),
                )
            }),
            r is Ok <==> (ci.format@ == bitmap_format() && spec_ci_order(*ci) is Ok && (
            spec_parse_triples_parts(data@, pos as int) matches Ok(sp) && sp.1.0.1 > 0)),
    {
        let bm_uri = "<http://purl.org/HDT/hdt#triplesBitmap>";
        let list_uri = "<http://purl.org/HDT/hdt#triplesList>";
        if crate::dict_sect_pfc::cmp_bytes(ci.format.as_slice(), list_uri.as_bytes()) == 0 {
            proof {
                // the two known format URIs denote different byte strings
                reveal_strlit("<http://purl.org/HDT/hdt#triplesBitmap>");
                reveal_strlit("<http://purl.org/HDT/hdt#triplesList>");
                if bitmap_format() == list_format() {
                    vstd::utf8::encode_utf8_decode_utf8(bm_uri@);
                    vstd::utf8::encode_utf8_decode_utf8(list_uri@);
                }
            }
            return Err(ReadError::UnsupportedSectionType);
        }
        if crate::dict_sect_pfc::cmp_bytes(ci.format.as_slice(), bm_uri.as_bytes()) != 0 {
            return Err(ReadError::UnknownFormat);
        }
        match TriplesBitmap::read(data, pos, ci) {
            Ok((tb, end)) => Ok((TripleSect::Bitmap(tb), end)),
            Err(e) => Err(e),
        }
    }

    /// Enumerate all triples in storage order.
    pub fn read_all_ids(&self) -> (r: Result<Vec<TripleId>, ReadError>)
        ensures
            self.bitmap().wf() ==> (r matches Ok(v) && v@.len() == self.bitmap().zs().len()
                && forall|k: int|
                0 <= k < v@.len() ==> matches_triple(
                    #[trigger] v@[k],
                    self.bitmap().spec_triple(k),
                )),
    {
        match self {
            TripleSect::Bitmap(bitmap) => bitmap.scan(),
        }
    }

    /// Enumerate the triples with the given subject id.
    pub fn triples_with_s(&self, subject_id: usize) -> (r: Result<Vec<TripleId>, ReadError>)
        ensures
            self.bitmap().wf() && subject_id >= 1 ==> (r matches Ok(v) && {
                &&& v@.len() == self.bitmap().x_max_z(subject_id as nat) - self.bitmap().x_min_z(
                    subject_id as nat,
                )
                &&& forall|j: int|
                    0 <= j < v@.len() ==> matches_triple(
                        #[trigger] v@[j],
                        self.bitmap().spec_triple(
                            self.bitmap().x_min_z(subject_id as nat) + j,
                        ),
                    )
            }),
    {
        match self {
            TripleSect::Bitmap(bitmap) => bitmap.with_s(subject_id),
        }
    }

    /// Enumerate the triples with the given object id.
    pub fn triples_with_o(&self, object_id: usize) -> (r: Result<Vec<TripleId>, ReadError>)
        ensures
            self.bitmap().wf() && object_id >= 1 ==> (r matches Ok(v) && {
                &&& v@.len() == positions_of(self.bitmap().zs(), object_id as nat).len()
                &&& forall|j: int|
                    0 <= j < v@.len() ==> matches_triple(
                        #[trigger] v@[j],
                        self.bitmap().spec_triple(
                            positions_of(self.bitmap().zs(), object_id as nat)[j],
                        ),
                    )
            }),
    {
        match self {
            TripleSect::Bitmap(bitmap) => bitmap.with_o(object_id),
        }
    }

    /// Enumerate the triples with the given predicate id.
    pub fn triples_with_p(&self, predicate_id: usize) -> (r: Result<Vec<TripleId>, ReadError>)
        ensures
            self.bitmap().wf() ==> (r matches Ok(v) && {
                &&& v@.len() == self.bitmap().z_with_y(predicate_id).len()
                &&& forall|j: int|
                    0 <= j < v@.len() ==> matches_triple(
                        #[trigger] v@[j],
                        self.bitmap().spec_triple(self.bitmap().z_with_y(predicate_id)[j]),
                    )
            }),
    {
        match self {
            TripleSect::Bitmap(bitmap) => bitmap.with_p(predicate_id),
        }
    }
}

/// Start of group `g` in a bitmap that marks each group's first position:
/// the position of the `(g+1)`-th set bit, or the length past the last
/// group.
pub open spec fn spec_op_start(s: Seq<bool>, g: nat) -> int {
    if g < rank1_of(s, s.len() as int) {
        sel1(s, g)
    } else {
        s.len() as int
    }
}

} // verus!
