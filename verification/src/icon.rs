//! The window icon: a 32x32 RGBA picture of two overlapping rectangles
//! (teal, then blue over it) with a white arrow on each.

use vstd::prelude::*;

verus! {

/// Width and height of the icon in pixels.
pub const ICON_SIZE: usize = 32;

/// The colour (red, green, blue, alpha) of the icon pixel at column `x`,
/// row `y`: the arrows are white, over the blue rectangle, over the teal
/// one; the rest is transparent.
pub open spec fn icon_pixel(x: int, y: int) -> (u8, u8, u8, u8) {
    if (y == 10 && 14 <= x < 19) || (x == 16 && (y == 8 || y == 12)) || (y == 22 && 16 <= x < 21)
        || (x == 18 && (y == 20 || y == 24)) {
        (255, 255, 255, 255)
    } else if 14 <= y < 30 && 12 <= x < 30 {
        (30, 140, 220, 255)
    } else if 2 <= y < 18 && 2 <= x < 20 {
        (40, 180, 160, 255)
    } else {
        (0, 0, 0, 0)
    }
}

/// Channel `c` (0 red, 1 green, 2 blue, 3 alpha) of a colour.
pub open spec fn channel(px: (u8, u8, u8, u8), c: int) -> u8 {
    if c == 0 {
        px.0
    } else if c == 1 {
        px.1
    } else if c == 2 {
        px.2
    } else {
        px.3
    }
}

/// Byte `k` of the icon, rows top to bottom, four bytes per pixel.
pub open spec fn icon_byte(k: int) -> u8 {
    channel(icon_pixel((k / 4) % 32, (k / 4) / 32), k % 4)
}

fn pixel(x: usize, y: usize) -> (px: (u8, u8, u8, u8))
    ensures
        px == icon_pixel(x as int, y as int),
{
    if (y == 10 && 14 <= x && x < 19) || (x == 16 && (y == 8 || y == 12)) || (y == 22 && 16 <= x && x < 21)
        || (x == 18 && (y == 20 || y == 24)) {
        (255, 255, 255, 255)
    } else if 14 <= y && y < 30 && 12 <= x && x < 30 {
        (30, 140, 220, 255)
    } else if 2 <= y && y < 18 && 2 <= x && x < 20 {
        (40, 180, 160, 255)
    } else {
        (0, 0, 0, 0)
    }
}

/// The icon's RGBA bytes.
pub fn icon_rgba() -> (v: Vec<u8>)
    ensures
        v@.len() == 4096,
        forall|k: int| 0 <= k < 4096 ==> #[trigger] v@[k] == icon_byte(k),
{
    let mut v: Vec<u8> = Vec::new();
    let mut i: usize = 0;
    while i < 1024
        invariant
            i <= 1024,
            v@.len() == 4 * i,
            forall|k: int| 0 <= k < 4 * i ==> #[trigger] v@[k] == icon_byte(k),
        decreases 1024 - i,
    {
        let px = pixel(i % 32, i / 32);
        let ghost before = v@;
        v.push(px.0);
        v.push(px.1);
        v.push(px.2);
        v.push(px.3);
        proof {
            assert forall|k: int| 0 <= k < 4 * (i + 1) implies #[trigger] v@[k] == icon_byte(k) by {
                if k >= 4 * i {
                    assert(k / 4 == i as int);
                    assert(k % 4 == k - 4 * i);
                } else {
                    assert(v@[k] == before[k]);
                }
            }
        }
        i = i + 1;
    }
    v
}

} // verus!
