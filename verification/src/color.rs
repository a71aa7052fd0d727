//! The direct color model: four 8-bit channels (alpha, red, green, blue),
//! integer packing in either byte order, and the distance metrics over the
//! three chromatic channels used for palette matching.

use vstd::prelude::*;

verus! {

/// A direct color: four 8-bit channels. Distances ignore `alpha`.
#[derive(Debug, Clone, Copy, PartialEq, Eq, Structural, Hash)]
pub struct ARGB {
    pub red: u8,
    pub green: u8,
    pub blue: u8,
    pub alpha: u8,
}

/// A direct color with the same four channels; the grid-facing alias kept
/// alongside `ARGB`.
#[derive(Debug, Clone, Copy, PartialEq, Eq, Structural, Hash)]
pub struct RGBA {
    pub red: u8,
    pub green: u8,
    pub blue: u8,
    pub alpha: u8,
}

impl Default for ARGB {
    /// The all-zero (transparent black) color.
    fn default() -> (r: Self)
        ensures
            r == (ARGB { red: 0, green: 0, blue: 0, alpha: 0 }),
    {
        ARGB { red: 0, green: 0, blue: 0, alpha: 0 }
    }
}

impl Default for RGBA {
    /// The all-zero (transparent black) color.
    fn default() -> (r: Self)
        ensures
            r == (RGBA { red: 0, green: 0, blue: 0, alpha: 0 }),
    {
        RGBA { red: 0, green: 0, blue: 0, alpha: 0 }
    }
}

/// The 32-bit packing of the channel tuple (alpha, red, green, blue) with
/// alpha in the most significant byte.
pub open spec fn spec_argb_be(c: ARGB) -> u32 {
    (c.alpha * 0x100_0000 + c.red * 0x1_0000 + c.green * 0x100 + c.blue) as u32
}

/// The 32-bit packing of the channel tuple (alpha, red, green, blue) with
/// alpha in the least significant byte.
pub open spec fn spec_argb_le(c: ARGB) -> u32 {
    (c.alpha + c.red * 0x100 + c.green * 0x1_0000 + c.blue * 0x100_0000) as u32
}

/// The packed form selected by the byte-order flag.
pub open spec fn spec_argb_u32(c: ARGB, little_endian: bool) -> u32 {
    if little_endian {
        spec_argb_le(c)
    } else {
        spec_argb_be(c)
    }
}

/// The color whose big-endian-style packing is `n`.
pub open spec fn spec_argb_from_be(n: u32) -> ARGB {
    ARGB {
        alpha: (n / 0x100_0000) as u8,
        red: ((n / 0x1_0000) % 0x100) as u8,
        green: ((n / 0x100) % 0x100) as u8,
        blue: (n % 0x100) as u8,
    }
}

/// The color whose little-endian-style packing is `n`.
pub open spec fn spec_argb_from_le(n: u32) -> ARGB {
    ARGB {
        alpha: (n % 0x100) as u8,
        red: ((n / 0x100) % 0x100) as u8,
        green: ((n / 0x1_0000) % 0x100) as u8,
        blue: (n / 0x100_0000) as u8,
    }
}

/// The sum of squared differences of the three chromatic channels.
pub open spec fn spec_distance_sq(a: ARGB, b: ARGB) -> int {
    (a.red - b.red) * (a.red - b.red) + (a.green - b.green) * (a.green - b.green) + (a.blue
        - b.blue) * (a.blue - b.blue)
}

/// The absolute difference of two channel values.
pub open spec fn spec_abs_diff(x: u8, y: u8) -> int {
    if x >= y {
        x - y
    } else {
        y - x
    }
}

/// The sum of absolute differences of the three chromatic channels.
pub open spec fn spec_distance_manhattan(a: ARGB, b: ARGB) -> int {
    spec_abs_diff(a.red, b.red) + spec_abs_diff(a.green, b.green) + spec_abs_diff(a.blue, b.blue)
}

proof fn lemma_abs_diff_sq(x: u8, y: u8)
    ensures
        spec_abs_diff(x, y) * spec_abs_diff(x, y) == (x - y) * (x - y),
{
    let d = spec_abs_diff(x, y);
    assert(d * d == (x - y) * (x - y)) by (nonlinear_arith)
        requires
            d == x - y || d == y - x,
    ;
}

/// The absolute difference of two 8-bit values.
fn abs_diff_u8(x: u8, y: u8) -> (r: u32)
    ensures
        r == spec_abs_diff(x, y),
{
    if x >= y {
        (x - y) as u32
    } else {
        (y - x) as u32
    }
}

impl ARGB {
    /// The squared Euclidean distance over (red, green, blue); `alpha` is
    /// ignored. The Euclidean distance itself is the square root of this,
    /// which orders color pairs identically.
    pub fn distance_euclidean_sq(&self, other: &Self) -> (r: u32)
        ensures
            r == spec_distance_sq(*self, *other),
    {
        let dr = abs_diff_u8(self.red, other.red);
        let dg = abs_diff_u8(self.green, other.green);
        let db = abs_diff_u8(self.blue, other.blue);
        assert(dr * dr <= 0xFE01 && dg * dg <= 0xFE01 && db * db <= 0xFE01) by (nonlinear_arith)
            requires
                dr <= 0xFF && dg <= 0xFF && db <= 0xFF,
        ;
        proof {
            lemma_abs_diff_sq(self.red, other.red);
            lemma_abs_diff_sq(self.green, other.green);
            lemma_abs_diff_sq(self.blue, other.blue);
        }
        dr * dr + dg * dg + db * db
    }

    /// The Manhattan distance over (red, green, blue); `alpha` is ignored.
    pub fn distance_manhattan(&self, other: &Self) -> (r: u32)
        ensures
            r == spec_distance_manhattan(*self, *other),
    {
        abs_diff_u8(self.red, other.red) + abs_diff_u8(self.green, other.green) + abs_diff_u8(
            self.blue,
            other.blue,
        )
    }

    /// Pack the channels into a 32-bit word; alpha occupies the most
    /// significant byte unless `little_endian` reverses the order.
    pub fn as_u32(&self, little_endian: bool) -> (r: u32)
        ensures
            r == spec_argb_u32(*self, little_endian),
    {
        if little_endian {
            self.alpha as u32 + (self.red as u32) * 0x100 + (self.green as u32) * 0x1_0000 + (
            self.blue as u32) * 0x100_0000
        } else {
            (self.alpha as u32) * 0x100_0000 + (self.red as u32) * 0x1_0000 + (self.green as u32)
                * 0x100 + self.blue as u32
        }
    }

    /// Unpack a 32-bit word into channels; the inverse of `as_u32` for the
    /// same byte-order flag.
    pub fn from_u32(n: u32, little_endian: bool) -> (r: Self)
        ensures
            r == if little_endian {
                spec_argb_from_le(n)
            } else {
                spec_argb_from_be(n)
            },
    {
        if little_endian {
            ARGB {
                alpha: (n % 0x100) as u8,
                red: ((n / 0x100) % 0x100) as u8,
                green: ((n / 0x1_0000) % 0x100) as u8,
                blue: (n / 0x100_0000) as u8,
            }
        } else {
            ARGB {
                alpha: (n / 0x100_0000) as u8,
                red: ((n / 0x1_0000) % 0x100) as u8,
                green: ((n / 0x100) % 0x100) as u8,
                blue: (n % 0x100) as u8,
            }
        }
    }

    /// The same color with `alpha` replaced.
    pub fn with_alpha(&self, alpha: u8) -> (r: Self)
        ensures
            r == (ARGB { alpha, ..*self }),
    {
        ARGB { alpha, red: self.red, green: self.green, blue: self.blue }
    }

    /// The same color with `red` replaced.
    pub fn with_red(&self, red: u8) -> (r: Self)
        ensures
            r == (ARGB { red, ..*self }),
    {
        ARGB { alpha: self.alpha, red, green: self.green, blue: self.blue }
    }

    /// The same color with `green` replaced.
    pub fn with_green(&self, green: u8) -> (r: Self)
        ensures
            r == (ARGB { green, ..*self }),
    {
        ARGB { alpha: self.alpha, red: self.red, green, blue: self.blue }
    }

    /// The same color with `blue` replaced.
    pub fn with_blue(&self, blue: u8) -> (r: Self)
        ensures
            r == (ARGB { blue, ..*self }),
    {
        ARGB { alpha: self.alpha, red: self.red, green: self.green, blue }
    }
}

/// The metrics vanish on equal colors.
///
/// For any color `c`, both the squared Euclidean distance and the Manhattan
/// distance from `c` to itself are zero.
pub proof fn lemma_distance_self_zero(c: ARGB)
    ensures
        spec_distance_sq(c, c) == 0,
        spec_distance_manhattan(c, c) == 0,
{
}

/// Both metrics are symmetric: the distance from `a` to `b` equals the
/// distance from `b` to `a`.
pub proof fn lemma_distance_symmetric(a: ARGB, b: ARGB)
    ensures
        spec_distance_manhattan(a, b) == spec_distance_manhattan(b, a),
        spec_distance_sq(a, b) == spec_distance_sq(b, a),
{
    assert((a.red - b.red) * (a.red - b.red) == (b.red - a.red) * (b.red - a.red)) by (nonlinear_arith);
    assert((a.green - b.green) * (a.green - b.green) == (b.green - a.green) * (b.green - a.green))
        by (nonlinear_arith);
    assert((a.blue - b.blue) * (a.blue - b.blue) == (b.blue - a.blue) * (b.blue - a.blue))
        by (nonlinear_arith);
}

} // verus!
