//! Inverted aspect index: one entity bitmap per taxonomy handle.
//!
//! The bitmaps come from an outside compressed-bitmap crate, kept behind a
//! small trusted surface; the index itself is no source of truth and is
//! kept consistent by the entity store on every aspect mutation.

use vstd::prelude::*;

use crate::entity::EntityRid;
use crate::registry::AspectRid;

verus! {

#[verifier::external_type_specification]
#[verifier::external_body]
pub struct ExRoaringBitmap(roaring::RoaringBitmap);

/// The set of 32-bit values a bitmap holds.
pub uninterp spec fn bitmap_set(b: roaring::RoaringBitmap) -> Set<u32>;

/// Relies on roaring::RoaringBitmap::new: an empty bitmap.
#[verifier::external_body]
fn rb_new() -> (r: roaring::RoaringBitmap)
    ensures
        bitmap_set(r) == Set::<u32>::empty(),
{
    roaring::RoaringBitmap::new()
}

/// Relies on roaring::RoaringBitmap::insert: adds the value to the set and
/// reports whether it was absent.
#[verifier::external_body]
fn rb_insert(b: &mut roaring::RoaringBitmap, value: u32) -> (r: bool)
    ensures
        bitmap_set(*final(b)) == bitmap_set(*old(b)).insert(value),
        r == !bitmap_set(*old(b)).contains(value),
{
    b.insert(value)
}

/// Relies on roaring::RoaringBitmap::remove: drops the value from the set
/// and reports whether it was present.
#[verifier::external_body]
fn rb_remove(b: &mut roaring::RoaringBitmap, value: u32) -> (r: bool)
    ensures
        bitmap_set(*final(b)) == bitmap_set(*old(b)).remove(value),
        r == bitmap_set(*old(b)).contains(value),
{
    b.remove(value)
}

/// Relies on roaring::RoaringBitmap::contains: membership in the set.
#[verifier::external_body]
fn rb_contains(b: &roaring::RoaringBitmap, value: u32) -> (r: bool)
    ensures
        r == bitmap_set(*b).contains(value),
{
    b.contains(value)
}

/// One bitmap of entity handles per aspect handle, sized at seal time.
pub struct AspectIndex {
    by_aspect: Vec<roaring::RoaringBitmap>,
}

impl AspectIndex {
    /// The entity sets, indexed by aspect handle.
    pub closed spec fn sets(&self) -> Seq<Set<u32>> {
        self.by_aspect@.map_values(|b: roaring::RoaringBitmap| bitmap_set(b))
    }

    /// One empty bitmap per aspect.
    pub fn new(num_aspects: usize) -> (r: AspectIndex)
        ensures
            r.sets().len() == num_aspects,
            forall|a: int| 0 <= a < num_aspects ==> #[trigger] r.sets()[a] == Set::<u32>::empty(),
    {
        let mut by_aspect: Vec<roaring::RoaringBitmap> = Vec::new();
        while by_aspect.len() < num_aspects
            invariant
                by_aspect@.len() <= num_aspects,
                forall|a: int|
                    0 <= a < by_aspect@.len() ==> bitmap_set(#[trigger] by_aspect@[a])
                        == Set::<u32>::empty(),
            decreases num_aspects - by_aspect@.len(),
        {
            by_aspect.push(rb_new());
        }
        let r = AspectIndex { by_aspect };
        proof {
            assert(forall|a: int|
                0 <= a < num_aspects ==> #[trigger] r.sets()[a] == bitmap_set(r.by_aspect@[a]));
        }
        r
    }

    /// Records the entity under the aspect; out-of-range handles are
    /// ignored.
    pub fn insert(&mut self, entity: EntityRid, aspect: AspectRid)
        ensures
            final(self).sets().len() == old(self).sets().len(),
            aspect.0 < old(self).sets().len() ==> final(self).sets() == old(self).sets().update(
                aspect.0 as int,
                old(self).sets()[aspect.0 as int].insert(entity.0),
            ),
            aspect.0 >= old(self).sets().len() ==> final(self).sets() == old(self).sets(),
    {
        let idx = aspect.0 as usize;
        if idx < self.by_aspect.len() {
            let _ = rb_insert(&mut self.by_aspect[idx], entity.0);
            proof {
                assert(self.sets() =~= old(self).sets().update(
                    aspect.0 as int,
                    old(self).sets()[aspect.0 as int].insert(entity.0),
                ));
            }
        } else {
            proof {
                assert(self.sets() =~= old(self).sets());
            }
        }
    }

    /// Removes the entity from the aspect's set; out-of-range handles are
    /// ignored.
    pub fn remove(&mut self, entity: EntityRid, aspect: AspectRid)
        ensures
            final(self).sets().len() == old(self).sets().len(),
            aspect.0 < old(self).sets().len() ==> final(self).sets() == old(self).sets().update(
                aspect.0 as int,
                old(self).sets()[aspect.0 as int].remove(entity.0),
            ),
            aspect.0 >= old(self).sets().len() ==> final(self).sets() == old(self).sets(),
    {
        let idx = aspect.0 as usize;
        if idx < self.by_aspect.len() {
            let _ = rb_remove(&mut self.by_aspect[idx], entity.0);
            proof {
                assert(self.sets() =~= old(self).sets().update(
                    aspect.0 as int,
                    old(self).sets()[aspect.0 as int].remove(entity.0),
                ));
            }
        } else {
            proof {
                assert(self.sets() =~= old(self).sets());
            }
        }
    }

    /// Whether the entity is recorded under the aspect.
    pub fn has_aspect(&self, entity: EntityRid, aspect: AspectRid) -> (r: bool)
        ensures
            r == (aspect.0 < self.sets().len() && self.sets()[aspect.0 as int].contains(
                entity.0,
            )),
    {
        let idx = aspect.0 as usize;
        if idx < self.by_aspect.len() {
            rb_contains(&self.by_aspect[idx], entity.0)
        } else {
            false
        }
    }

    /// The bitmap of one aspect, if the handle is in range.
    pub fn bitmap(&self, aspect: AspectRid) -> (r: Option<&roaring::RoaringBitmap>)
        ensures
            match r {
                Some(b) => aspect.0 < self.sets().len() && bitmap_set(*b) == self.sets()[
                    aspect.0 as int],
                None => aspect.0 >= self.sets().len(),
            },
    {
        let idx = aspect.0 as usize;
        if idx < self.by_aspect.len() {
            Some(&self.by_aspect[idx])
        } else {
            None
        }
    }
}

} // verus!
