//! Wavelet matrix over the y-id sequence: rank and select on predicate ids
//! at arbitrary positions.  The matrix itself comes from the sucds crate; its
//! contents are modelled as a `Seq<usize>`.
use vstd::prelude::*;

use crate::bits::{rank1_of, sel1};

verus! {

#[verifier::external_type_specification]
#[verifier::external_body]
#[verifier::reject_recursive_types(B)]
pub struct ExWaveletMatrix<B>(sucds::char_sequences::WaveletMatrix<B>);

#[verifier::external_type_specification]
#[verifier::external_body]
pub struct ExRank9Sel(sucds::bit_vectors::Rank9Sel);

/// The symbols a wavelet matrix was built over, in order.
pub uninterp spec fn wm_syms(w: sucds::char_sequences::WaveletMatrix<sucds::bit_vectors::Rank9Sel>) -> Seq<
    usize,
>;

/// Where sequence `s` holds symbol `v`.
pub open spec fn sym_mask(s: Seq<usize>, v: usize) -> Seq<bool> {
    Seq::new(s.len(), |j: int| s[j] == v)
}

/// Relies on sucds WaveletMatrix::new over a CompactVector holding exactly
/// the given values: construction fails only on an empty input.
#[verifier::external_body]
pub(crate) fn wm_build(vals: &Vec<usize>) -> (r: Option<
    sucds::char_sequences::WaveletMatrix<sucds::bit_vectors::Rank9Sel>,
>)
    ensures
        r matches Some(w) ==> wm_syms(w) == vals@,
        vals@.len() > 0 ==> r is Some,
{
    let v64: Vec<u64> = vals.iter().map(|&x| x as u64).collect();
    let cv = sucds::int_vectors::CompactVector::from_slice(&v64);
    sucds::char_sequences::WaveletMatrix::new(cv).ok()
}

/// Relies on sucds WaveletMatrix::len: the number of stored symbols.
#[verifier::external_body]
pub(crate) fn wm_len(
    w: &sucds::char_sequences::WaveletMatrix<sucds::bit_vectors::Rank9Sel>,
) -> (r: usize)
    ensures
        r == wm_syms(*w).len(),
{
    w.len()
}

/// `m` bounds every symbol of `s` and is attained when `s` is nonempty.
pub open spec fn is_max_sym(s: Seq<usize>, m: usize) -> bool {
    &&& forall|j: int| 0 <= j < s.len() ==> s[j] <= m
    &&& s.len() > 0 ==> exists|j: int| 0 <= j < s.len() && #[trigger] s[j] == m
}

/// Relies on sucds WaveletMatrix::max_value: no stored symbol exceeds it and
/// it is attained when any symbol is stored.
#[verifier::external_body]
pub(crate) fn wm_max(
    w: &sucds::char_sequences::WaveletMatrix<sucds::bit_vectors::Rank9Sel>,
) -> (r: usize)
    ensures
        is_max_sym(wm_syms(*w), r),
{
    w.max_value() as usize
}

/// Relies on sucds WaveletMatrix::rank: occurrences of `val` before `pos`,
/// provided `pos` is in bounds and `val` carries no bits above the alphabet
/// width; the maximum stored symbol bounds both.
#[verifier::external_body]
pub(crate) fn wm_rank(
    w: &sucds::char_sequences::WaveletMatrix<sucds::bit_vectors::Rank9Sel>,
    pos: usize,
    val: usize,
) -> (r: usize)
    requires
        pos <= wm_syms(*w).len(),
        exists|j: int| 0 <= j < wm_syms(*w).len() && val <= #[trigger] wm_syms(*w)[j],
    ensures
        r == rank1_of(sym_mask(wm_syms(*w), val), pos as int),
{
    w.rank(pos, val as u64).unwrap()
}

/// Relies on sucds WaveletMatrix::select: the position of the `(k+1)`-th
/// occurrence of `val`, which must exist, with `val` within the alphabet
/// width.
#[verifier::external_body]
pub(crate) fn wm_select(
    w: &sucds::char_sequences::WaveletMatrix<sucds::bit_vectors::Rank9Sel>,
    k: usize,
    val: usize,
) -> (r: usize)
    requires
        k < rank1_of(sym_mask(wm_syms(*w), val), wm_syms(*w).len() as int),
        exists|j: int| 0 <= j < wm_syms(*w).len() && val <= #[trigger] wm_syms(*w)[j],
    ensures
        r as int == sel1(sym_mask(wm_syms(*w), val), k as nat),
{
    w.select(k, val as u64).unwrap()
}

} // verus!
