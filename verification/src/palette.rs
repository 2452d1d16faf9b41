//! The 8-colour sRGB palette: the eight vertices of the sRGB cube.
//!
//! A colour is a palette index in `0..=7` (3 bits) whose bit pattern is
//! (R, G, B): bit 2 is red, bit 1 green, bit 0 blue. For example
//! `0b101` = red + blue = magenta.

use vstd::prelude::*;

verus! {

/// A 3-bit palette index (`0..=7`).
pub type Color = u8;

/// An sRGB colour.
#[derive(Debug, Clone, Copy, PartialEq, Eq)]
pub struct Rgb {
    pub r: u8,
    pub g: u8,
    pub b: u8,
}

impl Rgb {
    pub fn new(r: u8, g: u8, b: u8) -> (res: Self)
        ensures
            res == (Rgb { r, g, b }),
    {
        Rgb { r, g, b }
    }
}

/// Number of palette entries.
pub const PALETTE_SIZE: usize = 8;

/// Bits carried by one cell.
pub const BITS_PER_CELL: u32 = 3;

/// Channel value of a cube vertex: 255 when the bit is set, 0 otherwise.
pub open spec fn channel(set: bool) -> u8 {
    if set { 255 } else { 0 }
}

/// The palette entry of index `i` (`0 <= i < 8`): bit 2 is red, bit 1 green,
/// bit 0 blue.
pub open spec fn spec_palette_entry(i: int) -> Rgb {
    Rgb { r: channel(i / 4 % 2 == 1), g: channel(i / 2 % 2 == 1), b: channel(i % 2 == 1) }
}

/// The whole palette, in index order.
pub fn palette() -> (p: [Rgb; PALETTE_SIZE])
    ensures
        forall|i: int| 0 <= i < 8 ==> #[trigger] p@[i] == spec_palette_entry(i),
{
    let p = [
        Rgb::new(0, 0, 0),
        Rgb::new(0, 0, 255),
        Rgb::new(0, 255, 0),
        Rgb::new(0, 255, 255),
        Rgb::new(255, 0, 0),
        Rgb::new(255, 0, 255),
        Rgb::new(255, 255, 0),
        Rgb::new(255, 255, 255),
    ];
    assert forall|i: int| 0 <= i < 8 implies #[trigger] p@[i] == spec_palette_entry(i) by {
        if i == 0 {} else if i == 1 {} else if i == 2 {} else if i == 3 {}
        else if i == 4 {} else if i == 5 {} else if i == 6 {} else {}
    }
    p
}

/// The RGB value of a colour index; only the low 3 bits of `c` count.
pub open spec fn spec_color_to_rgb(c: u8) -> Rgb {
    spec_palette_entry((c % 8) as int)
}

/// Looks up the RGB value of a palette index (its low 3 bits).
pub fn color_to_rgb(c: Color) -> (rgb: Rgb)
    ensures
        rgb == spec_color_to_rgb(c),
        rgb.r == channel(c & 0b100 != 0),
        rgb.g == channel(c & 0b010 != 0),
        rgb.b == channel(c & 0b001 != 0),
{
    let p = palette();
    assert(c & 0b111 == c % 8) by (bit_vector);
    let i = c & 0b111;
    assert((c & 0b100 != 0) == (c % 8 / 4 % 2 == 1)) by (bit_vector);
    assert((c & 0b010 != 0) == (c % 8 / 2 % 2 == 1)) by (bit_vector);
    assert((c & 0b001 != 0) == (c % 8 % 2 == 1)) by (bit_vector);
    p[i as usize]
}

/// Squared Euclidean distance between an observed colour and palette entry `i`.
pub open spec fn spec_dist(rgb: Rgb, i: int) -> int {
    let p = spec_palette_entry(i);
    (rgb.r - p.r) * (rgb.r - p.r) + (rgb.g - p.g) * (rgb.g - p.g) + (rgb.b - p.b) * (rgb.b - p.b)
}

/// Index of the nearest palette entry among `0..n` (`n >= 1`), the lowest
/// index winning ties.
pub open spec fn spec_nearest_upto(rgb: Rgb, n: nat) -> int
    decreases n,
{
    if n <= 1 {
        0
    } else {
        let b = spec_nearest_upto(rgb, (n - 1) as nat);
        if spec_dist(rgb, n - 1) < spec_dist(rgb, b) {
            n - 1
        } else {
            b
        }
    }
}

/// Index of the palette entry nearest to `rgb`, the lowest index winning ties.
pub open spec fn spec_rgb_to_color(rgb: Rgb) -> int {
    spec_nearest_upto(rgb, 8)
}

proof fn lemma_nearest_upto(rgb: Rgb, n: nat)
    requires
        1 <= n,
    ensures
        0 <= spec_nearest_upto(rgb, n) < n,
        forall|j: int| 0 <= j < n ==> spec_dist(rgb, spec_nearest_upto(rgb, n)) <= #[trigger] spec_dist(rgb, j),
        forall|j: int|
            0 <= j < spec_nearest_upto(rgb, n) ==> spec_dist(rgb, spec_nearest_upto(rgb, n))
                < #[trigger] spec_dist(rgb, j),
    decreases n,
{
    if n > 1 {
        lemma_nearest_upto(rgb, (n - 1) as nat);
    }
}

/// Quantises an observed sRGB value to the nearest palette colour (squared
/// Euclidean distance); on a tie the lowest index wins.
pub fn rgb_to_color(rgb: Rgb) -> (c: Color)
    ensures
        c == spec_rgb_to_color(rgb),
        c < 8,
        forall|j: int| 0 <= j < 8 ==> spec_dist(rgb, c as int) <= #[trigger] spec_dist(rgb, j),
        forall|j: int| 0 <= j < c ==> spec_dist(rgb, c as int) < #[trigger] spec_dist(rgb, j),
{
    let p = palette();
    let mut best: Color = 0;
    let mut best_dist: i32 = i32::MAX;
    let mut i: usize = 0;
    while i < PALETTE_SIZE
        invariant
            0 <= i <= 8,
            forall|k: int| 0 <= k < 8 ==> #[trigger] p@[k] == spec_palette_entry(k),
            i == 0 ==> best == 0 && best_dist == i32::MAX,
            i > 0 ==> best == spec_nearest_upto(rgb, i as nat) && best_dist == spec_dist(
                rgb,
                best as int,
            ),
        decreases 8 - i,
    {
        let q = p[i];
        assert(q == spec_palette_entry(i as int));
        let dr = rgb.r as i32 - q.r as i32;
        let dg = rgb.g as i32 - q.g as i32;
        let db = rgb.b as i32 - q.b as i32;
        assert(0 <= dr * dr <= 65025) by (nonlinear_arith)
            requires
                -255 <= dr <= 255,
        ;
        assert(0 <= dg * dg <= 65025) by (nonlinear_arith)
            requires
                -255 <= dg <= 255,
        ;
        assert(0 <= db * db <= 65025) by (nonlinear_arith)
            requires
                -255 <= db <= 255,
        ;
        let d = dr * dr + dg * dg + db * db;
        assert(d == spec_dist(rgb, i as int));
        if d < best_dist {
            best_dist = d;
            best = i as Color;
        }
        i += 1;
    }
    proof {
        lemma_nearest_upto(rgb, 8);
    }
    best
}

proof fn lemma_palette_separation(k: int, j: int)
    requires
        0 <= k < 8,
        0 <= j < 8,
    ensures
        k == j ==> spec_dist(spec_palette_entry(k), j) == 0,
        k != j ==> spec_dist(spec_palette_entry(k), j) >= 65025,
{
    if k == 0 {
        if j == 0 {
            assert(spec_dist(spec_palette_entry(0), 0) == 0) by (nonlinear_arith);
        } else if j == 1 {
            assert(spec_dist(spec_palette_entry(0), 1) == 65025) by (nonlinear_arith);
        } else if j == 2 {
            assert(spec_dist(spec_palette_entry(0), 2) == 65025) by (nonlinear_arith);
        } else if j == 3 {
            assert(spec_dist(spec_palette_entry(0), 3) == 130050) by (nonlinear_arith);
        } else if j == 4 {
            assert(spec_dist(spec_palette_entry(0), 4) == 65025) by (nonlinear_arith);
        } else if j == 5 {
            assert(spec_dist(spec_palette_entry(0), 5) == 130050) by (nonlinear_arith);
        } else if j == 6 {
            assert(spec_dist(spec_palette_entry(0), 6) == 130050) by (nonlinear_arith);
        } else if j == 7 {
            assert(spec_dist(spec_palette_entry(0), 7) == 195075) by (nonlinear_arith);
        }
    } else if k == 1 {
        if j == 0 {
            assert(spec_dist(spec_palette_entry(1), 0) == 65025) by (nonlinear_arith);
        } else if j == 1 {
            assert(spec_dist(spec_palette_entry(1), 1) == 0) by (nonlinear_arith);
        } else if j == 2 {
            assert(spec_dist(spec_palette_entry(1), 2) == 130050) by (nonlinear_arith);
        } else if j == 3 {
            assert(spec_dist(spec_palette_entry(1), 3) == 65025) by (nonlinear_arith);
        } else if j == 4 {
            assert(spec_dist(spec_palette_entry(1), 4) == 130050) by (nonlinear_arith);
        } else if j == 5 {
            assert(spec_dist(spec_palette_entry(1), 5) == 65025) by (nonlinear_arith);
        } else if j == 6 {
            assert(spec_dist(spec_palette_entry(1), 6) == 195075) by (nonlinear_arith);
        } else if j == 7 {
            assert(spec_dist(spec_palette_entry(1), 7) == 130050) by (nonlinear_arith);
        }
    } else if k == 2 {
        if j == 0 {
            assert(spec_dist(spec_palette_entry(2), 0) == 65025) by (nonlinear_arith);
        } else if j == 1 {
            assert(spec_dist(spec_palette_entry(2), 1) == 130050) by (nonlinear_arith);
        } else if j == 2 {
            assert(spec_dist(spec_palette_entry(2), 2) == 0) by (nonlinear_arith);
        } else if j == 3 {
            assert(spec_dist(spec_palette_entry(2), 3) == 65025) by (nonlinear_arith);
        } else if j == 4 {
            assert(spec_dist(spec_palette_entry(2), 4) == 130050) by (nonlinear_arith);
        } else if j == 5 {
            assert(spec_dist(spec_palette_entry(2), 5) == 195075) by (nonlinear_arith);
        } else if j == 6 {
            assert(spec_dist(spec_palette_entry(2), 6) == 65025) by (nonlinear_arith);
        } else if j == 7 {
            assert(spec_dist(spec_palette_entry(2), 7) == 130050) by (nonlinear_arith);
        }
    } else if k == 3 {
        if j == 0 {
            assert(spec_dist(spec_palette_entry(3), 0) == 130050) by (nonlinear_arith);
        } else if j == 1 {
            assert(spec_dist(spec_palette_entry(3), 1) == 65025) by (nonlinear_arith);
        } else if j == 2 {
            assert(spec_dist(spec_palette_entry(3), 2) == 65025) by (nonlinear_arith);
        } else if j == 3 {
            assert(spec_dist(spec_palette_entry(3), 3) == 0) by (nonlinear_arith);
        } else if j == 4 {
            assert(spec_dist(spec_palette_entry(3), 4) == 195075) by (nonlinear_arith);
        } else if j == 5 {
            assert(spec_dist(spec_palette_entry(3), 5) == 130050) by (nonlinear_arith);
        } else if j == 6 {
            assert(spec_dist(spec_palette_entry(3), 6) == 130050) by (nonlinear_arith);
        } else if j == 7 {
            assert(spec_dist(spec_palette_entry(3), 7) == 65025) by (nonlinear_arith);
        }
    } else if k == 4 {
        if j == 0 {
            assert(spec_dist(spec_palette_entry(4), 0) == 65025) by (nonlinear_arith);
        } else if j == 1 {
            assert(spec_dist(spec_palette_entry(4), 1) == 130050) by (nonlinear_arith);
        } else if j == 2 {
            assert(spec_dist(spec_palette_entry(4), 2) == 130050) by (nonlinear_arith);
        } else if j == 3 {
            assert(spec_dist(spec_palette_entry(4), 3) == 195075) by (nonlinear_arith);
        } else if j == 4 {
            assert(spec_dist(spec_palette_entry(4), 4) == 0) by (nonlinear_arith);
        } else if j == 5 {
            assert(spec_dist(spec_palette_entry(4), 5) == 65025) by (nonlinear_arith);
        } else if j == 6 {
            assert(spec_dist(spec_palette_entry(4), 6) == 65025) by (nonlinear_arith);
        } else if j == 7 {
            assert(spec_dist(spec_palette_entry(4), 7) == 130050) by (nonlinear_arith);
        }
    } else if k == 5 {
        if j == 0 {
            assert(spec_dist(spec_palette_entry(5), 0) == 130050) by (nonlinear_arith);
        } else if j == 1 {
            assert(spec_dist(spec_palette_entry(5), 1) == 65025) by (nonlinear_arith);
        } else if j == 2 {
            assert(spec_dist(spec_palette_entry(5), 2) == 195075) by (nonlinear_arith);
        } else if j == 3 {
            assert(spec_dist(spec_palette_entry(5), 3) == 130050) by (nonlinear_arith);
        } else if j == 4 {
            assert(spec_dist(spec_palette_entry(5), 4) == 65025) by (nonlinear_arith);
        } else if j == 5 {
            assert(spec_dist(spec_palette_entry(5), 5) == 0) by (nonlinear_arith);
        } else if j == 6 {
            assert(spec_dist(spec_palette_entry(5), 6) == 130050) by (nonlinear_arith);
        } else if j == 7 {
            assert(spec_dist(spec_palette_entry(5), 7) == 65025) by (nonlinear_arith);
        }
    } else if k == 6 {
        if j == 0 {
            assert(spec_dist(spec_palette_entry(6), 0) == 130050) by (nonlinear_arith);
        } else if j == 1 {
            assert(spec_dist(spec_palette_entry(6), 1) == 195075) by (nonlinear_arith);
        } else if j == 2 {
            assert(spec_dist(spec_palette_entry(6), 2) == 65025) by (nonlinear_arith);
        } else if j == 3 {
            assert(spec_dist(spec_palette_entry(6), 3) == 130050) by (nonlinear_arith);
        } else if j == 4 {
            assert(spec_dist(spec_palette_entry(6), 4) == 65025) by (nonlinear_arith);
        } else if j == 5 {
            assert(spec_dist(spec_palette_entry(6), 5) == 130050) by (nonlinear_arith);
        } else if j == 6 {
            assert(spec_dist(spec_palette_entry(6), 6) == 0) by (nonlinear_arith);
        } else if j == 7 {
            assert(spec_dist(spec_palette_entry(6), 7) == 65025) by (nonlinear_arith);
        }
    } else if k == 7 {
        if j == 0 {
            assert(spec_dist(spec_palette_entry(7), 0) == 195075) by (nonlinear_arith);
        } else if j == 1 {
            assert(spec_dist(spec_palette_entry(7), 1) == 130050) by (nonlinear_arith);
        } else if j == 2 {
            assert(spec_dist(spec_palette_entry(7), 2) == 130050) by (nonlinear_arith);
        } else if j == 3 {
            assert(spec_dist(spec_palette_entry(7), 3) == 65025) by (nonlinear_arith);
        } else if j == 4 {
            assert(spec_dist(spec_palette_entry(7), 4) == 130050) by (nonlinear_arith);
        } else if j == 5 {
            assert(spec_dist(spec_palette_entry(7), 5) == 65025) by (nonlinear_arith);
        } else if j == 6 {
            assert(spec_dist(spec_palette_entry(7), 6) == 65025) by (nonlinear_arith);
        } else if j == 7 {
            assert(spec_dist(spec_palette_entry(7), 7) == 0) by (nonlinear_arith);
        }
    }
}

/// Quantising a palette colour gives back its index: for every `c`,
/// `rgb_to_color(color_to_rgb(c)) == c & 0b111`.
pub proof fn lemma_palette_roundtrip(c: u8)
    ensures
        spec_rgb_to_color(spec_color_to_rgb(c)) == c % 8,
{
    let rgb = spec_color_to_rgb(c);
    lemma_nearest_upto(rgb, 8);
    let k = (c % 8) as int;
    lemma_palette_separation(k, k);
    assert forall|j: int| 0 <= j < 8 && j != k implies #[trigger] spec_dist(rgb, j) > 0 by {
        lemma_palette_separation(k, j);
    }
}

} // verus!
