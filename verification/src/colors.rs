use vstd::prelude::*;
use vstd::arithmetic::power2::{pow2, lemma2_to64, lemma2_to64_rest};

verus! {

/// Fixed colors used by the user interface around the board. Tile colors are
/// derived from the tile's value instead; see `background_chars`.
#[derive(PartialEq)]
pub struct Colors {
    pub background_dark: &'static str,
    pub background_light: &'static str,
    pub text_dark: &'static str,
    pub text_light: &'static str,
    pub button: &'static str,
    pub button_hover: &'static str,
    pub board: &'static str,
    pub cell: &'static str,
    pub opacity: &'static str,
}

impl Colors {
    pub fn new() -> (r: Colors)
        ensures
            r.background_dark@ == "#072931"@,
            r.background_light@ == "#072931"@,
            r.text_dark@ == "#072931"@,
            r.text_light@ == "#f2ba0d"@,
            r.button@ == "#92cdb9"@,
            r.button_hover@ == "#b4ddcf"@,
            r.board@ == "#022244"@,
            r.cell@ == "#92cdb9"@,
            r.opacity@ == "99"@,
    {
        Colors {
            background_dark: "#072931",
            background_light: "#072931",
            text_dark: "#072931",
            text_light: "#f2ba0d",
            button: "#92cdb9",
            button_hover: "#b4ddcf",
            board: "#022244",
            cell: "#92cdb9",
            // opacity is appended to one of the colors above, so it carries no '#'.
            opacity: "99",
        }
    }
}

/// Base-2 logarithm, rounded down; 0 for inputs 0 and 1.
pub open spec fn spec_log2(v: int) -> int
    decreases v,
{
    if v <= 1 {
        0
    } else {
        1 + spec_log2(v / 2)
    }
}

/// True exactly for the powers of two (1, 2, 4, ...).
pub open spec fn is_pow2(v: int) -> bool
    decreases v,
{
    if v < 1 {
        false
    } else if v == 1 {
        true
    } else {
        v % 2 == 0 && is_pow2(v / 2)
    }
}

pub proof fn lemma_log2_nonneg(v: int)
    ensures
        spec_log2(v) >= 0,
    decreases v,
{
    if v > 1 {
        lemma_log2_nonneg(v / 2);
    }
}

pub proof fn lemma_log2_pos(v: int)
    requires
        v >= 2,
    ensures
        spec_log2(v) >= 1,
{
    lemma_log2_nonneg(v / 2);
}

proof fn lemma_log2_below(v: int, b: nat)
    requires
        0 <= v < pow2(b + 1),
    ensures
        spec_log2(v) <= b,
    decreases b,
{
    if v > 1 {
        if b == 0 {
            assert(pow2(1) == 2) by {
                lemma2_to64();
            }
        } else {
            assert(pow2(b + 1) == 2 * pow2(b)) by {
                vstd::arithmetic::power2::lemma_pow2_unfold(b + 1);
            }
            lemma_log2_below(v / 2, (b - 1) as nat);
        }
    }
}

pub proof fn lemma_log2_u32(v: int)
    requires
        0 <= v <= u32::MAX,
    ensures
        0 <= spec_log2(v) <= 31,
{
    lemma_log2_nonneg(v);
    assert(pow2(32) == 0x1_0000_0000) by {
        lemma2_to64();
        lemma2_to64_rest();
    }
    lemma_log2_below(v, 31);
}

/// The ordered palette of four base colors: yellow, magenta, blue, purple.
/// Every third power of two lands exactly on the next palette entry; the
/// powers in between are interpolated between neighbouring entries.
pub open spec fn palette_red(i: int) -> int {
    if i == 0 {
        0xf2
    } else if i == 1 {
        0xF5
    } else if i == 2 {
        0x39
    } else {
        0x6A
    }
}

pub open spec fn palette_green(i: int) -> int {
    if i == 0 {
        0xba
    } else if i == 1 {
        0x0A
    } else if i == 2 {
        0x49
    } else {
        0x0D
    }
}

pub open spec fn palette_blue(i: int) -> int {
    if i == 0 {
        0x0d
    } else if i == 1 {
        0x40
    } else if i == 2 {
        0xAB
    } else {
        0xAD
    }
}

/// Linear interpolation of one color channel at fraction `k / 3`, rounded to
/// the nearest integer. The numerator `(3 - k) * c1 + k * c2` is never at an
/// exact half step, so rounding to nearest equals adding 1 before dividing.
pub open spec fn interp_channel(c1: int, c2: int, k: int) -> int {
    ((3 - k) * c1 + k * c2 + 1) / 3
}

/// Index of the palette entry that a tile's power `p = log2(value) - 1`
/// interpolates from.
pub open spec fn base_index(p: int) -> int {
    (p / 3) % 4
}

pub open spec fn next_index(p: int) -> int {
    (base_index(p) + 1) % 4
}

pub open spec fn background_red(p: int) -> int {
    interp_channel(palette_red(base_index(p)), palette_red(next_index(p)), p % 3)
}

pub open spec fn background_green(p: int) -> int {
    interp_channel(palette_green(base_index(p)), palette_green(next_index(p)), p % 3)
}

pub open spec fn background_blue(p: int) -> int {
    interp_channel(palette_blue(base_index(p)), palette_blue(next_index(p)), p % 3)
}

/// Relative luminance of the background, scaled by 255 * 10000 so that the
/// comparison against the 0.35 threshold is exact integer arithmetic:
/// (0.2126 r + 0.7152 g + 0.0722 b) / 255 <= 0.35  iff  this <= 892500.
pub open spec fn luminance_scaled(p: int) -> int {
    2126 * background_red(p) + 7152 * background_green(p) + 722 * background_blue(p)
}

pub open spec fn text_is_light(p: int) -> bool {
    luminance_scaled(p) <= 892500
}

pub open spec fn hex_digit(d: int) -> char {
    if d == 0 {
        '0'
    } else if d == 1 {
        '1'
    } else if d == 2 {
        '2'
    } else if d == 3 {
        '3'
    } else if d == 4 {
        '4'
    } else if d == 5 {
        '5'
    } else if d == 6 {
        '6'
    } else if d == 7 {
        '7'
    } else if d == 8 {
        '8'
    } else if d == 9 {
        '9'
    } else if d == 10 {
        'A'
    } else if d == 11 {
        'B'
    } else if d == 12 {
        'C'
    } else if d == 13 {
        'D'
    } else if d == 14 {
        'E'
    } else {
        'F'
    }
}

pub open spec fn hex_byte(n: int) -> Seq<char> {
    seq![hex_digit(n / 16), hex_digit(n % 16)]
}

/// The power used for color derivation: tiles start at 2^1, so the power is
/// shifted down by one.
pub open spec fn color_power(value: u32) -> int {
    spec_log2(value as int) - 1
}

/// The background color of a tile of the given value, as the characters of a
/// "#RRGGBB" string with upper-case hex digits.
pub open spec fn background_chars(value: u32) -> Seq<char> {
    seq!['#'] + hex_byte(background_red(color_power(value))) + hex_byte(
        background_green(color_power(value)),
    ) + hex_byte(background_blue(color_power(value)))
}

/// The text color of a tile of the given value: the fixed light color on dark
/// backgrounds, the fixed dark color on light ones.
pub open spec fn text_chars(value: u32) -> Seq<char> {
    if text_is_light(color_power(value)) {
        "#f2ba0d"@
    } else {
        "#072931"@
    }
}

/// Both the base index and the interpolation fraction of a power `p` repeat
/// with period 12, so the remainder `p % 12` determines the whole color.
proof fn lemma_color_period(p: int)
    requires
        p >= 0,
    ensures
        base_index(p) == (p % 12) / 3,
        p % 3 == (p % 12) % 3,
{
    let m = p / 12;
    let q = p % 12;
    assert(p == 12 * m + q && 0 <= q < 12 && m >= 0) by (nonlinear_arith)
        requires
            p >= 0,
            m == p / 12,
            q == p % 12,
    ;
    assert(p / 3 == 4 * m + q / 3) by (nonlinear_arith)
        requires
            p == 12 * m + q,
            0 <= q < 12,
            m >= 0,
    ;
    assert((4 * m + q / 3) % 4 == q / 3) by (nonlinear_arith)
        requires
            0 <= q < 12,
            m >= 0,
    ;
    assert(p % 3 == q % 3) by (nonlinear_arith)
        requires
            p == 12 * m + q,
            0 <= q < 12,
            m >= 0,
    ;
}

/// Computes the base-2 logarithm of a `u32`, rounded down (0 for inputs 0 and 1).
pub fn log_2(num: u32) -> (log: u32)
    ensures
        log == spec_log2(num as int),
{
    let mut cur = num;
    let mut log: u32 = 0;
    proof {
        lemma_log2_u32(num as int);
    }
    while cur > 1
        invariant
            log + spec_log2(cur as int) == spec_log2(num as int),
            0 <= spec_log2(num as int) <= 31,
            spec_log2(cur as int) >= 0,
        decreases cur,
    {
        proof {
            lemma_log2_pos(cur as int);
            lemma_log2_nonneg(cur as int / 2);
        }
        cur = cur / 2;
        log = log + 1;
    }
    log
}

/// Derives the deterministic (background, text) color pair of a tile value.
/// The background interpolates through the four-color palette as the value's
/// power of two grows; the text color keeps enough contrast with it. The pair
/// is a pure function of the value: the same value always yields the same
/// byte-identical strings.
pub fn tile_colors(value: u32) -> (r: (String, String))
    requires
        value >= 2,
    ensures
        r.0@ == background_chars(value),
        r.1@ == text_chars(value),
{
    proof {
        lemma_log2_u32(value as int);
        lemma_log2_pos(value as int);
    }
    let lg = log_2(value);
    let p = lg - 1;
    let q = p % 12;
    proof {
        lemma_color_period(p as int);
    }
    let background = if q == 0 {
        proof {
            reveal_strlit("#F2BA0D");
            assert(background_chars(value) =~= "#F2BA0D"@);
        }
        "#F2BA0D"
    } else if q == 1 {
        proof {
            reveal_strlit("#F37F1E");
            assert(background_chars(value) =~= "#F37F1E"@);
        }
        "#F37F1E"
    } else if q == 2 {
        proof {
            reveal_strlit("#F4452F");
            assert(background_chars(value) =~= "#F4452F"@);
        }
        "#F4452F"
    } else if q == 3 {
        proof {
            reveal_strlit("#F50A40");
            assert(background_chars(value) =~= "#F50A40"@);
        }
        "#F50A40"
    } else if q == 4 {
        proof {
            reveal_strlit("#B61F64");
            assert(background_chars(value) =~= "#B61F64"@);
        }
        "#B61F64"
    } else if q == 5 {
        proof {
            reveal_strlit("#783487");
            assert(background_chars(value) =~= "#783487"@);
        }
        "#783487"
    } else if q == 6 {
        proof {
            reveal_strlit("#3949AB");
            assert(background_chars(value) =~= "#3949AB"@);
        }
        "#3949AB"
    } else if q == 7 {
        proof {
            reveal_strlit("#4935AC");
            assert(background_chars(value) =~= "#4935AC"@);
        }
        "#4935AC"
    } else if q == 8 {
        proof {
            reveal_strlit("#5A21AC");
            assert(background_chars(value) =~= "#5A21AC"@);
        }
        "#5A21AC"
    } else if q == 9 {
        proof {
            reveal_strlit("#6A0DAD");
            assert(background_chars(value) =~= "#6A0DAD"@);
        }
        "#6A0DAD"
    } else if q == 10 {
        proof {
            reveal_strlit("#974778");
            assert(background_chars(value) =~= "#974778"@);
        }
        "#974778"
    } else {
        proof {
            reveal_strlit("#C58042");
            assert(background_chars(value) =~= "#C58042"@);
        }
        "#C58042"
    };
    let text = if q >= 3 && q <= 9 {
        proof {
            assert(text_is_light(color_power(value)));
        }
        "#f2ba0d"
    } else {
        proof {
            assert(!text_is_light(color_power(value)));
        }
        "#072931"
    };
    (background.to_owned(), text.to_owned())
}

} // verus!
