//! The conversion entry point: validation, scan, shuffle, packing and text.
use vstd::prelude::*;
use crate::link::{is_linked_layout, is_slot_order, link_entries, shuffled_order};
use crate::listing::{listing, render_listing};
use crate::scanner::{encode_image, scan_rows};

verus! {

/// Outcome of a conversion: status 0 with the listing, or -1 with an error
/// description.
pub struct ConversionResult {
    pub status: i32,
    pub message: String,
}

/// Message for a buffer whose length does not fit the stated dimensions.
pub const FORMAT_ERROR_MESSAGE: &'static str =
    "Image data does not match width x height x 4 bytes!";

/// Message for an image that needs more entries than a slot can address.
pub const CAPACITY_ERROR_MESSAGE: &'static str = "Resulting image is too big!";

/// Largest number of entries a listing can hold: slots are 32-bit.
pub const MAX_ENTRIES: u64 = 0x1_0000_0000;

/// Both dimensions are positive and the buffer holds exactly
/// `width * height` RGBA pixels.
pub open spec fn shape_ok(len: nat, width: i32, height: i32) -> bool {
    width > 0 && height > 0 && len == width * height * 4
}

/// `r` is the outcome of converting `data` as a `width` x `height` image:
/// a format error when the buffer does not fit the dimensions, a capacity
/// error when the image needs more than `MAX_ENTRIES` entries, and otherwise
/// the listing of the image's entries linked at the slots of some slot order.
pub open spec fn is_conversion_of(r: ConversionResult, data: Seq<u8>, width: i32, height: i32) -> bool {
    let entries = encode_image(data, width as nat, height as nat);
    if !shape_ok(data.len(), width, height) {
        r.status == -1 && r.message@ == FORMAT_ERROR_MESSAGE@
    } else if entries.len() > MAX_ENTRIES {
        r.status == -1 && r.message@ == CAPACITY_ERROR_MESSAGE@
    } else {
        r.status == 0 && exists|order: Seq<u32>, packed: Seq<u64>|
            is_slot_order(order, entries.len()) && #[trigger] is_linked_layout(packed, entries, order)
                && r.message@ == listing(packed)
    }
}

/// Relies on `rand::random`: a seed drawn from the thread-local generator,
/// of which nothing is known.
#[verifier::external_body]
fn fresh_seed() -> u64 {
    rand::random::<u64>()
}

/// Converts an RGBA buffer of `width` x `height` pixels into a listing of
/// packed paint entries at slots shuffled by a freshly seeded generator.
pub fn generate_raw_data(data: &[u8], width: i32, height: i32) -> (r: ConversionResult)
    ensures
        is_conversion_of(r, data@, width, height),
{
    generate_raw_data_seeded(data, width, height, fresh_seed())
}

/// Converts an RGBA buffer of `width` x `height` pixels into a listing of
/// packed paint entries at slots shuffled by a generator seeded with `seed`.
pub fn generate_raw_data_seeded(data: &[u8], width: i32, height: i32, seed: u64) -> (r:
    ConversionResult)
    ensures
        is_conversion_of(r, data@, width, height),
{
    if width <= 0 || height <= 0 {
        return ConversionResult { status: -1, message: FORMAT_ERROR_MESSAGE.to_owned() };
    }
    let w: u64 = width as u64;
    let h: u64 = height as u64;
    assert(w * h * 4 < 0x1_0000_0000_0000_0000) by (nonlinear_arith)
        requires
            0 < w < 0x8000_0000,
            0 < h < 0x8000_0000,
    ;
    if data.len() as u64 != w * h * 4 {
        return ConversionResult { status: -1, message: FORMAT_ERROR_MESSAGE.to_owned() };
    }
    let entries = scan_rows(data, width as usize, height as usize);
    if entries.len() as u64 > MAX_ENTRIES {
        return ConversionResult { status: -1, message: CAPACITY_ERROR_MESSAGE.to_owned() };
    }
    proof {
        lemma_image_nonempty(data@, width as nat, height as nat);
    }
    let order = shuffled_order(entries.len(), seed);
    let packed = link_entries(&entries, &order);
    let text = render_listing(&packed);
    assert(is_linked_layout(packed@, entries@, order@));
    ConversionResult { status: 0, message: text }
}

proof fn lemma_image_nonempty(data: Seq<u8>, width: nat, height: nat)
    requires
        height > 0,
    ensures
        encode_image(data, width, height).len() >= 1,
{
}

} // verus!
