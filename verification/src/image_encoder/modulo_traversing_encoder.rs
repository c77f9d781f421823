//! The stride traversal of the first iteration.

use vstd::prelude::*;

use super::ImageEncoder;

verus! {

/// Advances x by 19 and y by 29 each call, both wrapped to the image, with
/// one extra x step whenever `index` is a multiple of the width. Callers
/// step `index` once per bit, so the extra step fires every `width` calls;
/// the quirk is kept bit-exactly. The walk covers every pixel only when the
/// strides are coprime with the dimensions; on other sizes it visits an
/// orbit and positions repeat.
pub struct ModuloTraversingEncoder;

impl ImageEncoder for ModuloTraversingEncoder {
    open spec fn valid_for(&self, dimension: (u32, u32)) -> bool {
        dimension.0 >= 1 && dimension.1 >= 1
    }

    open spec fn pos_at(&self, pos: (u32, u32), dimension: (u32, u32), index: int) -> Option<
        (u32, u32),
    > {
        let bump: int = if index % (dimension.0 as int) == 0 {
            1
        } else {
            0
        };
        Option::Some(
            (
                ((pos.0 + bump + 19) % (dimension.0 as int)) as u32,
                ((pos.1 + 29) % (dimension.1 as int)) as u32,
            ),
        )
    }

    fn get_next_pixel_pos(&self, pos: (u32, u32), dimension: (u32, u32), index: usize) -> (r:
        Option<(u32, u32)>) {
        let (width, height) = dimension;
        let mut x_pos: u64 = pos.0 as u64;
        let mut y_pos: u64 = pos.1 as u64;
        if index as u64 % (width as u64) == 0 {
            x_pos = x_pos + 1;
        }
        x_pos = (x_pos + 19) % (width as u64);
        y_pos = (y_pos + 29) % (height as u64);
        proof {
            vstd::arithmetic::div_mod::lemma_mod_division_less_than_divisor(
                index as int,
                width as int,
            );
            assert(x_pos < width);
            assert(y_pos < height);
        }
        Some((x_pos as u32, y_pos as u32))
    }
}

} // verus!
