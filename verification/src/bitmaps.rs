//! The compressed id-set collaborator of the cell-bitmap index.
//!
//! A `croaring::Bitmap` is a compressed set of `u32` feature ids. The index
//! only creates empty bitmaps, adds ids, and takes multi-way unions; those
//! three operations stand here behind trusted wrappers, stated over
//! [`bitmap_ids`], the set of ids a bitmap holds.

use vstd::prelude::*;

verus! {

#[verifier::external_type_specification]
#[verifier::external_body]
pub struct ExBitmap(croaring::Bitmap);

/// The set of feature ids a bitmap holds.
pub uninterp spec fn bitmap_ids(b: croaring::Bitmap) -> Set<u32>;

/// Relies on croaring's `Bitmap::new`: a new bitmap is empty.
#[verifier::external_body]
pub(crate) fn bitmap_new() -> (r: croaring::Bitmap)
    ensures
        bitmap_ids(r) == Set::<u32>::empty(),
{
    croaring::Bitmap::new()
}

/// Relies on croaring's `Bitmap::add`: adding an id makes it a member and
/// changes nothing else.
#[verifier::external_body]
pub(crate) fn bitmap_add(b: &mut croaring::Bitmap, id: u32)
    ensures
        bitmap_ids(*final(b)) == bitmap_ids(*old(b)).insert(id),
{
    b.add(id);
}

/// Whether some bitmap of the sequence holds `id`.
pub open spec fn some_bitmap_contains(bs: Seq<&croaring::Bitmap>, id: u32) -> bool {
    exists|i: int| 0 <= i < bs.len() && #[trigger] bitmap_ids(*bs[i]).contains(id)
}

/// Relies on croaring's `Bitmap::fast_or`: the result is the union of the
/// given bitmaps, a multi-way OR whose outcome does not depend on the order
/// of its inputs.
#[verifier::external_body]
pub(crate) fn bitmap_fast_or(bitmaps: &Vec<&croaring::Bitmap>) -> (r: croaring::Bitmap)
    ensures
        forall|id: u32| #[trigger]
            bitmap_ids(r).contains(id) ==> some_bitmap_contains(bitmaps@, id),
        forall|i: int, id: u32|
            0 <= i < bitmaps@.len() && #[trigger] bitmap_ids(*bitmaps@[i]).contains(id)
                ==> bitmap_ids(r).contains(id),
{
    croaring::Bitmap::fast_or(bitmaps.as_slice())
}

} // verus!
