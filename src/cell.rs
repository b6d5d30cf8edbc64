//! H3 cells as plain 64-bit indices, with the parts of the H3 index layout
//! that the tree relies on: the resolution field and ancestor computation.
use h3ron::{H3Cell, Index};
use vstd::prelude::*;

verus! {

/// Bits 52..56 of an index hold its resolution.
pub open spec fn res_bits(h: u64) -> u64 {
    (h >> 52u64) & 15u64
}

/// The resolution (0 to 15) of the cell with index `h`.
pub open spec fn resolution_of(h: u64) -> nat {
    res_bits(h) as nat
}

/// The low bits that hold the digits of resolutions `r + 1` to 15.
pub open spec fn digits_below(r: u64) -> u64 {
    0x1fff_ffff_ffffu64 >> (3u64 * r)
}

/// The index with its resolution field set to `r` and the digits of
/// resolutions `r + 1` up to its own resolution set to 7 (unused).
pub open spec fn with_res_bits(h: u64, r: u64) -> u64 {
    (h & !(15u64 << 52u64)) | (r << 52u64) | (digits_below(r) & !digits_below(res_bits(h)))
}

/// The ancestor of `h` at resolution `r` (meaningful for `r <= resolution_of(h)`).
pub open spec fn ancestor_at(h: u64, r: nat) -> u64 {
    with_res_bits(h, r as u64)
}

/// `a` is `b` or one of its ancestors.
pub open spec fn is_ancestor_or_self(a: u64, b: u64) -> bool {
    resolution_of(a) <= resolution_of(b) && ancestor_at(b, resolution_of(a)) == a
}

/// `a` is a strict ancestor of `b`.
pub open spec fn is_strict_ancestor(a: u64, b: u64) -> bool {
    is_ancestor_or_self(a, b) && a != b
}

/// One of `a` and `b` is an ancestor of, or equal to, the other.
pub open spec fn related(a: u64, b: u64) -> bool {
    is_ancestor_or_self(a, b) || is_ancestor_or_self(b, a)
}

pub proof fn lemma_resolution_bound(h: u64)
    ensures
        resolution_of(h) <= 15,
{
    assert((h >> 52u64) & 15u64 <= 15u64) by (bit_vector);
}

/// The ancestor at resolution `r` has resolution `r`.
pub proof fn lemma_ancestor_resolution(h: u64, r: nat)
    requires
        r <= 15,
    ensures
        resolution_of(ancestor_at(h, r)) == r,
{
    let rr = r as u64;
    let c = res_bits(h);
    assert((((h & !(15u64 << 52u64)) | (rr << 52u64) | ((0x1fff_ffff_ffffu64 >> (3u64 * rr)) & !(
    0x1fff_ffff_ffffu64 >> (3u64 * c)))) >> 52u64) & 15u64 == rr) by (bit_vector)
        requires
            rr <= 15u64,
    ;
}

/// A cell is its own ancestor at its own resolution.
pub proof fn lemma_ancestor_self(h: u64)
    ensures
        ancestor_at(h, resolution_of(h)) == h,
{
    let c = res_bits(h);
    assert((h & !(15u64 << 52u64)) | (c << 52u64) | ((0x1fff_ffff_ffffu64 >> (3u64 * c)) & !(
    0x1fff_ffff_ffffu64 >> (3u64 * c))) == h) by (bit_vector)
        requires
            c == (h >> 52u64) & 15u64,
    ;
}

/// Going up to `r1` and then to `r2` is going up to `r2` directly.
pub proof fn lemma_ancestor_ancestor(h: u64, r1: nat, r2: nat)
    requires
        r2 <= r1 <= resolution_of(h),
    ensures
        ancestor_at(ancestor_at(h, r1), r2) == ancestor_at(h, r2),
{
    let c = res_bits(h);
    let a = r1 as u64;
    let b = r2 as u64;
    lemma_resolution_bound(h);
    lemma_ancestor_resolution(h, r1);
    let p = ancestor_at(h, r1);
    assert(p == (h & !(15u64 << 52u64)) | (a << 52u64) | ((0x1fff_ffff_ffffu64 >> (3u64 * a)) & !(
    0x1fff_ffff_ffffu64 >> (3u64 * c))));
    assert(((p & !(15u64 << 52u64)) | (b << 52u64) | ((0x1fff_ffff_ffffu64 >> (3u64 * b)) & !(
    0x1fff_ffff_ffffu64 >> (3u64 * a)))) == (h & !(15u64 << 52u64)) | (b << 52u64) | ((
    0x1fff_ffff_ffffu64 >> (3u64 * b)) & !(0x1fff_ffff_ffffu64 >> (3u64 * c)))) by (bit_vector)
        requires
            p == (h & !(15u64 << 52u64)) | (a << 52u64) | ((0x1fff_ffff_ffffu64 >> (3u64 * a)) & !(
            0x1fff_ffff_ffffu64 >> (3u64 * c))),
            b <= a,
            a <= c,
            c <= 15u64,
    ;
}

} // verus!

verus! {

/// Ancestry is transitive.
pub proof fn lemma_ancestor_transitive(a: u64, b: u64, c: u64)
    requires
        is_ancestor_or_self(a, b),
        is_ancestor_or_self(b, c),
    ensures
        is_ancestor_or_self(a, c),
{
    lemma_ancestor_ancestor(c, resolution_of(b), resolution_of(a));
}

/// Two ancestors of one cell are ordered by their resolutions.
pub proof fn lemma_ancestors_comparable(a: u64, b: u64, x: u64)
    requires
        is_ancestor_or_self(a, x),
        is_ancestor_or_self(b, x),
        resolution_of(a) <= resolution_of(b),
    ensures
        is_ancestor_or_self(a, b),
{
    lemma_ancestor_ancestor(x, resolution_of(b), resolution_of(a));
}

/// A cell and its ancestor at the same resolution are the same cell.
pub proof fn lemma_ancestor_same_resolution(a: u64, b: u64)
    requires
        is_ancestor_or_self(a, b),
        resolution_of(a) == resolution_of(b),
    ensures
        a == b,
{
    lemma_ancestor_self(b);
}

/// The ancestor of `h` at `r` is an ancestor of `h`.
pub proof fn lemma_ancestor_at_is_ancestor(h: u64, r: nat)
    requires
        r <= resolution_of(h),
    ensures
        is_ancestor_or_self(ancestor_at(h, r), h),
        resolution_of(ancestor_at(h, r)) == r,
{
    lemma_resolution_bound(h);
    lemma_ancestor_resolution(h, r);
}

/// Distinct cells of one resolution have no descendant in common, so when `p`
/// is an ancestor of `c` and `h` an ancestor of `l`, the cells `c` and `l` are
/// unrelated.
pub proof fn lemma_disjoint_areas(h: u64, p: u64, c: u64, l: u64)
    requires
        resolution_of(h) == resolution_of(p),
        h != p,
        is_ancestor_or_self(p, c),
        is_ancestor_or_self(h, l),
    ensures
        !related(c, l),
{
    if is_ancestor_or_self(c, l) {
        lemma_ancestor_transitive(p, c, l);
        lemma_ancestor_ancestor(l, resolution_of(h), resolution_of(h));
    }
    if is_ancestor_or_self(l, c) {
        lemma_ancestor_transitive(h, l, c);
    }
}

/// h3ron's error type, carried through unchanged.
#[verifier::external_type_specification]
#[verifier::external_body]
pub struct ExH3Error(h3ron::Error);

/// Relies on h3ron's `Index::resolution` (libh3 `getResolution`): it reads the
/// four resolution bits of the index.
#[verifier::external_body]
pub(crate) fn cell_resolution(h: u64) -> (r: u8)
    ensures
        r as nat == resolution_of(h),
{
    H3Cell::new(h).resolution()
}

/// Relies on h3ron's `H3Cell::get_parent` (libh3 `cellToParent`): for a
/// resolution no finer than the cell's own, it sets the resolution field and
/// fills the digits between the two resolutions with 7.
#[verifier::external_body]
pub(crate) fn cell_parent(h: u64, r: u8) -> (p: Result<u64, h3ron::Error>)
    requires
        r as nat <= resolution_of(h),
    ensures
        p is Ok && p->Ok_0 == ancestor_at(h, r as nat),
{
    H3Cell::new(h).get_parent(r).map(|c| c.h3index())
}

/// Relies on h3ron's `H3Cell::is_parent_of`: `a` equals the parent of `b` at
/// the resolution of `a`.
#[verifier::external_body]
pub(crate) fn cell_is_parent_of(a: u64, b: u64) -> (r: Result<bool, h3ron::Error>)
    requires
        resolution_of(a) <= resolution_of(b),
    ensures
        r is Ok && r->Ok_0 == is_ancestor_or_self(a, b),
{
    H3Cell::new(a).is_parent_of(&H3Cell::new(b))
}

} // verus!
