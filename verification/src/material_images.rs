//! Images shared between serialized materials: each distinct image is stored
//! once, and a material's texture slots refer to it by its index in the
//! store. Reading materials back turns each index into one image handle,
//! made once and shared by every slot that names the index.

use vstd::prelude::*;
use std::collections::HashMap;

verus! {

broadcast use vstd::std_specs::hash::group_hash_axioms;

/// Why a material could not be serialized.
#[derive(Clone, Copy, Debug)]
pub enum SerializedStandardMaterialError {
    /// An image the material uses is not among the loaded images; holds the
    /// name of the material's texture slot.
    ImageNotFound(&'static str),
}

/// The store of serialized images and the index given to each image handle
/// (by the handle's id) agree: every index points into the store, no two
/// handles share an index, and every stored image has a handle.
pub open spec fn images_indexed<I>(indices: Map<u64, u32>, cache: Seq<I>) -> bool {
    &&& forall|h: u64| #[trigger] indices.contains_key(h) ==> indices[h] < cache.len()
    &&& forall|h1: u64, h2: u64|
        #[trigger] indices.contains_key(h1) && #[trigger] indices.contains_key(h2) && h1 != h2
            ==> indices[h1] != indices[h2]
    &&& forall|i: int| 0 <= i < cache.len() ==> #[trigger] index_has_handle(indices, i)
}

/// Some handle was given index `i`.
pub open spec fn index_has_handle(indices: Map<u64, u32>, i: int) -> bool {
    exists|h: u64| #[trigger] indices.contains_key(h) && indices[h] == i
}

/// The index of the image behind `image_handle` in `cache`, storing the
/// image first when its handle has no index yet; `lookup` finds a handle's
/// image among the loaded ones and is only called for a handle without an
/// index. A slot without a texture (`None`) has no index; an image that
/// `lookup` does not find is an error naming the slot `name`.
/// Earlier entries of `indices` and `cache` are never changed, and when the
/// two agree ([`images_indexed`]) before the call they still agree after it.
pub fn serialize_image<I, F: FnOnce(u64) -> Option<I>>(
    indices: &mut HashMap<u64, u32>,
    cache: &mut Vec<I>,
    image_handle: Option<u64>,
    name: &'static str,
    lookup: F,
) -> (r: Result<Option<u32>, SerializedStandardMaterialError>)
    requires
        image_handle matches Some(h) ==> (!old(indices)@.contains_key(h) ==> old(cache)@.len()
            <= u32::MAX),
        image_handle matches Some(h) ==> call_requires(lookup, (h,)),
    ensures
        images_indexed(old(indices)@, old(cache)@) ==> images_indexed(
            final(indices)@,
            final(cache)@,
        ),
        match image_handle {
            None => {
                &&& r == Ok::<Option<u32>, SerializedStandardMaterialError>(None)
                &&& final(indices)@ == old(indices)@
                &&& final(cache)@ == old(cache)@
            },
            Some(h) => if old(indices)@.contains_key(h) {
                &&& r == Ok::<Option<u32>, SerializedStandardMaterialError>(
                    Some(old(indices)@[h]),
                )
                &&& final(indices)@ == old(indices)@
                &&& final(cache)@ == old(cache)@
            } else {
                exists|found: Option<I>|
                    call_ensures(lookup, (h,), found) && match found {
                        None => {
                            &&& r == Err::<Option<u32>, SerializedStandardMaterialError>(
                                SerializedStandardMaterialError::ImageNotFound(name),
                            )
                            &&& final(indices)@ == old(indices)@
                            &&& final(cache)@ == old(cache)@
                        },
                        Some(image) => {
                            &&& r == Ok::<Option<u32>, SerializedStandardMaterialError>(
                                Some(old(cache)@.len() as u32),
                            )
                            &&& final(cache)@ == old(cache)@.push(image)
                            &&& final(indices)@ == old(indices)@.insert(
                                h,
                                old(cache)@.len() as u32,
                            )
                        },
                    }
            },
        },
{
    let h = match image_handle {
        Some(h) => h,
        None => {
            return Ok(None);
        },
    };
    match indices.get(&h) {
        Some(index) => {
            return Ok(Some(*index));
        },
        None => {},
    }
    let found = lookup(h);
    match found {
        None => Err(SerializedStandardMaterialError::ImageNotFound(name)),
        Some(image) => {
            let index = cache.len() as u32;
            proof {
                if images_indexed(indices@, cache@) {
                    let ghost old_cache = cache@;
                    let ghost old_indices = indices@;
                    assert forall|i: int| 0 <= i < old_cache.len() + 1 implies #[trigger] index_has_handle(
                        old_indices.insert(h, index),
                        i,
                    ) by {
                        if i == old_cache.len() {
                            assert(old_indices.insert(h, index).contains_key(h));
                        } else {
                            assert(index_has_handle(old_indices, i));
                            let g = choose|g: u64| #[trigger]
                                old_indices.contains_key(g) && old_indices[g] == i;
                            assert(old_indices.insert(h, index).contains_key(g));
                        }
                    }
                }
            }
            cache.push(image);
            indices.insert(h, index);
            Ok(Some(index))
        },
    }
}

/// The image handle for a serialized image `index`, made with `make_handle` from
/// the serialized image the first time the index is met and shared (cloned)
/// after; a slot without a texture (`None`) gets no handle.
pub fn deserialize_image<S, H: Clone, F: FnOnce(&S) -> H>(
    indices: &mut HashMap<u32, H>,
    serialized_images: &[S],
    index: Option<u32>,
    make_handle: F,
) -> (r: Option<H>)
    requires
        index matches Some(i) ==> (!old(indices)@.contains_key(i) ==> i
            < serialized_images@.len()),
        index matches Some(i) ==> (!old(indices)@.contains_key(i) ==> call_requires(
            make_handle,
            (&serialized_images@[i as int],),
        )),
    ensures
        match index {
            None => r is None && final(indices)@ == old(indices)@,
            Some(i) => if old(indices)@.contains_key(i) {
                &&& r is Some
                &&& cloned(old(indices)@[i], r->0)
                &&& final(indices)@ == old(indices)@
            } else {
                exists|made: H|
                    call_ensures(make_handle, (&serialized_images@[i as int],), made) && r == Some(made)
                        && final(indices)@.dom() == old(indices)@.dom().insert(i)
                        && cloned(made, final(indices)@[i])
                        && forall|j: u32| #[trigger]
                            old(indices)@.contains_key(j) ==> final(indices)@[j]
                                == old(indices)@[j]
            },
        },
{
    let i = match index {
        Some(i) => i,
        None => {
            return None;
        },
    };
    match indices.get(&i) {
        Some(handle) => {
            return Some(handle.clone());
        },
        None => {},
    }
    let handle = make_handle(&serialized_images[i as usize]);
    let shared = handle.clone();
    let ghost before = indices@;
    indices.insert(i, shared);
    proof {
        assert(cloned(handle, shared));
        assert(indices@.dom() =~= before.dom().insert(i));
        assert(call_ensures(make_handle, (&serialized_images@[i as int],), handle));
        assert(forall|j: u32| #[trigger]
            before.contains_key(j) ==> indices@[j] == before[j]);
        assert(cloned(handle, indices@[i]));
    }
    Some(handle)
}

} // verus!
