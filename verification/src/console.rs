//! Settings for painting a pixel grid in a terminal: the shade strings
//! that stand for pixel opacities, and the nearest-color search against
//! the constrained palette used when true color is unavailable.

use vstd::prelude::*;
use unicode_segmentation::UnicodeSegmentation;

use crate::color::{ARGB, spec_argb_from_be, spec_distance_sq};

verus! {

/// Where a decoded image is sent.
#[derive(Debug, Clone, PartialEq, Eq, Structural)]
pub enum OutputType {
    OutputToConsole,
    DrawToConsole,
    WriteToFile,
    OutputHex,
}

impl Default for OutputType {
    /// Console output is the default.
    fn default() -> (r: Self)
        ensures
            r == OutputType::OutputToConsole,
    {
        OutputType::OutputToConsole
    }
}

/// Settings for painting an image in a terminal.
#[derive(Debug, Clone, PartialEq, Eq)]
pub struct WriteImageToConsoleSettings {
    /// Whether to paint with 24-bit color escape codes.
    pub use_truecolor: bool,
    /// Strings standing for pixel opacities, from most to least opaque.
    pub pixels: Vec<String>,
}

/// How many grapheme clusters a string paints in a terminal.
pub uninterp spec fn grapheme_count_of(s: Seq<char>) -> nat;

/// Relies on unicode_segmentation's `graphemes(true)`: the extended
/// grapheme clusters of a string, which depend on its characters alone;
/// counting them gives the string's painted width in cells.
#[verifier::external_body]
fn grapheme_count(s: &str) -> (r: usize)
    ensures
        r as nat == grapheme_count_of(s@),
{
    s.graphemes(true).count()
}

/// The greatest common divisor by Euclid's remainder scheme; the
/// divisor of `a` and zero is `a`.
pub open spec fn spec_gcd(a: nat, b: nat) -> nat
    decreases b,
{
    if b == 0 {
        a
    } else {
        spec_gcd(b, a % b)
    }
}

/// The common divisor of a list of counts, folded left to right; zero
/// for an empty list.
pub open spec fn spec_gcd_fold(counts: Seq<nat>) -> nat
    decreases counts.len(),
{
    if counts.len() == 0 {
        0
    } else if counts.len() == 1 {
        counts[0]
    } else {
        spec_gcd(spec_gcd_fold(counts.drop_last()), counts.last())
    }
}

/// The grapheme count of each shade string.
pub open spec fn spec_grapheme_counts(pixels: Seq<String>) -> Seq<nat> {
    Seq::new(pixels.len(), |i: int| grapheme_count_of(pixels[i]@))
}

/// The greatest common divisor of two counts.
fn gcd(a: usize, b: usize) -> (r: usize)
    ensures
        r as nat == spec_gcd(a as nat, b as nat),
{
    let mut x = a;
    let mut y = b;
    while y > 0
        invariant
            spec_gcd(x as nat, y as nat) == spec_gcd(a as nat, b as nat),
        decreases y,
    {
        let rem = x % y;
        x = y;
        y = rem;
    }
    x
}

impl WriteImageToConsoleSettings {
    /// The width in terminal cells that every shade string's painted
    /// width is a multiple of: the common divisor of their grapheme
    /// counts, or zero with no shade strings.
    pub fn pixel_width(&self) -> (r: usize)
        ensures
            r as nat == spec_gcd_fold(spec_grapheme_counts(self.pixels@)),
    {
        let ghost counts = spec_grapheme_counts(self.pixels@);
        let n = self.pixels.len();
        let mut acc: usize = 0;
        let mut i: usize = 0;
        while i < n
            invariant
                n == self.pixels@.len(),
                i <= n,
                counts == spec_grapheme_counts(self.pixels@),
                acc as nat == spec_gcd_fold(counts.take(i as int)),
            decreases n - i,
        {
            let c = grapheme_count(self.pixels[i].as_str());
            proof {
                assert(counts.take(i + 1).drop_last() =~= counts.take(i as int));
                assert(counts.take(i + 1).last() == counts[i as int]);
            }
            if i == 0 {
                acc = c;
            } else {
                acc = gcd(acc, c);
            }
            i = i + 1;
        }
        proof {
            assert(counts.take(n as int) =~= counts);
        }
        acc
    }
}

/// The sixteen colors a basic terminal offers, as RGB words with red in
/// the most significant channel byte.
pub open spec fn spec_simple_colors() -> Seq<u32> {
    seq![
        0x000000u32,
        0x000080u32,
        0x008000u32,
        0x008080u32,
        0x800000u32,
        0x800080u32,
        0x808000u32,
        0x808080u32,
        0x0000FFu32,
        0x00FF00u32,
        0x00FFFFu32,
        0xFF0000u32,
        0xFF00FFu32,
        0xFFFF00u32,
        0xC0C0C0u32,
        0xFFFFFFu32,
    ]
}

/// The basic terminal palette as a vector.
fn simple_colors() -> (r: Vec<u32>)
    ensures
        r@ == spec_simple_colors(),
{
    let mut v: Vec<u32> = Vec::new();
    v.push(0x000000);
    v.push(0x000080);
    v.push(0x008000);
    v.push(0x008080);
    v.push(0x800000);
    v.push(0x800080);
    v.push(0x808000);
    v.push(0x808080);
    v.push(0x0000FF);
    v.push(0x00FF00);
    v.push(0x00FFFF);
    v.push(0xFF0000);
    v.push(0xFF00FF);
    v.push(0xFFFF00);
    v.push(0xC0C0C0);
    v.push(0xFFFFFF);
    proof {
        assert(v@ =~= spec_simple_colors());
    }
    v
}

/// The squared Euclidean distance from a palette word to a color.
pub open spec fn spec_palette_distance(hex: u32, c: ARGB) -> int {
    spec_distance_sq(spec_argb_from_be(hex), c)
}

/// The basic terminal color nearest to `color` by Euclidean distance
/// over (red, green, blue), as its RGB word; `None` for a fully
/// transparent pixel. A tie goes to the earlier palette entry.
pub fn nearest_console_color(color: &ARGB) -> (r: Option<u32>)
    ensures
        r is None <==> color.alpha == 0,
        r matches Some(hex) ==> {
            &&& spec_simple_colors().contains(hex)
            &&& forall|k: int|
                0 <= k < spec_simple_colors().len() ==> spec_palette_distance(hex, *color)
                    <= spec_palette_distance(#[trigger] spec_simple_colors()[k], *color)
        },
{
    if color.alpha == 0 {
        return None;
    }
    let palette = simple_colors();
    let mut best: u32 = palette[0];
    let mut best_d: u32 = ARGB::from_u32(best, false).distance_euclidean_sq(color);
    let mut k: usize = 1;
    while k < palette.len()
        invariant
            palette@ == spec_simple_colors(),
            1 <= k <= palette@.len(),
            spec_simple_colors().contains(best),
            best_d == spec_palette_distance(best, *color),
            forall|j: int|
                0 <= j < k ==> best_d <= spec_palette_distance(
                    #[trigger] spec_simple_colors()[j],
                    *color,
                ),
        decreases palette@.len() - k,
    {
        let cand = palette[k];
        let d = ARGB::from_u32(cand, false).distance_euclidean_sq(color);
        if d < best_d {
            best = cand;
            best_d = d;
        }
        k = k + 1;
    }
    Some(best)
}

} // verus!
