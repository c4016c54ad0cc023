use vstd::prelude::*;

verus! {

/// The value held in the red channel of a packed color.
pub open spec fn red_of(c: u32) -> u8 {
    ((c / 0x1_0000) % 0x100) as u8
}

/// The value held in the green channel of a packed color.
pub open spec fn green_of(c: u32) -> u8 {
    ((c / 0x100) % 0x100) as u8
}

/// The value held in the blue channel of a packed color.
pub open spec fn blue_of(c: u32) -> u8 {
    (c % 0x100) as u8
}

/// The value held in the alpha channel of a packed color.
pub open spec fn alpha_of(c: u32) -> u8 {
    (c / 0x100_0000) as u8
}

/// The packed form of four channels: alpha in the highest byte, then red,
/// green, and blue in the lowest byte.
pub open spec fn pack(r: u8, g: u8, b: u8, a: u8) -> u32 {
    ((a as int) * 0x100_0000 + (r as int) * 0x1_0000 + (g as int) * 0x100 + (b as int)) as u32
}

/// Text color, packed as `0xAARRGGBB`.
#[derive(Clone, Copy, Debug, PartialEq, Eq, Structural, Hash)]
pub struct Color(pub u32);

impl Color {
    /// Create new color with red, green, and blue components; alpha is fully
    /// opaque.
    pub fn rgb(r: u8, g: u8, b: u8) -> (c: Self)
        ensures
            c.0 == pack(r, g, b, 0xFF),
    {
        Self::rgba(r, g, b, 0xFF)
    }

    /// Create new color with red, green, blue, and alpha components.
    pub fn rgba(r: u8, g: u8, b: u8, a: u8) -> (c: Self)
        ensures
            c.0 == pack(r, g, b, a),
    {
        let v: u32 = ((a as u32) << 24u32) | ((r as u32) << 16u32) | ((g as u32) << 8u32) | (b as u32);
        proof {
            let (a32, r32, g32, b32) = (a as u32, r as u32, g as u32, b as u32);
            assert((a32 << 24u32) | (r32 << 16u32) | (g32 << 8u32) | b32
                == a32 * 0x100_0000 + r32 * 0x1_0000 + g32 * 0x100 + b32) by (bit_vector)
                requires
                    a32 < 256,
                    r32 < 256,
                    g32 < 256,
                    b32 < 256,
            ;
        }
        Color(v)
    }

    /// Get the red component.
    pub fn r(&self) -> (v: u8)
        ensures
            v == red_of(self.0),
    {
        let x = self.0;
        proof {
            assert((x & 0x00_FF_00_00u32) >> 16u32 == (x / 0x1_0000) % 0x100) by (bit_vector);
        }
        ((x & 0x00_FF_00_00) >> 16) as u8
    }

    /// Get the green component.
    pub fn g(&self) -> (v: u8)
        ensures
            v == green_of(self.0),
    {
        let x = self.0;
        proof {
            assert((x & 0x00_00_FF_00u32) >> 8u32 == (x / 0x100) % 0x100) by (bit_vector);
        }
        ((x & 0x00_00_FF_00) >> 8) as u8
    }

    /// Get the blue component.
    pub fn b(&self) -> (v: u8)
        ensures
            v == blue_of(self.0),
    {
        let x = self.0;
        proof {
            assert(x & 0x00_00_00_FFu32 == x % 0x100) by (bit_vector);
        }
        (x & 0x00_00_00_FF) as u8
    }

    /// Get the alpha component.
    pub fn a(&self) -> (v: u8)
        ensures
            v == alpha_of(self.0),
    {
        let x = self.0;
        proof {
            assert((x & 0xFF_00_00_00u32) >> 24u32 == x / 0x100_0000) by (bit_vector);
        }
        ((x & 0xFF_00_00_00) >> 24) as u8
    }
}

/// Packing four channels and reading each back yields the channels given;
/// the three-channel form is the four-channel form with alpha 255.
pub proof fn lemma_color_round_trip(r: u8, g: u8, b: u8, a: u8)
    ensures
        red_of(pack(r, g, b, a)) == r,
        green_of(pack(r, g, b, a)) == g,
        blue_of(pack(r, g, b, a)) == b,
        alpha_of(pack(r, g, b, a)) == a,
        alpha_of(pack(r, g, b, 0xFF)) == 0xFF,
{
    let (a32, r32, g32, b32) = (a as u32, r as u32, g as u32, b as u32);
    let p: int = a32 * 0x100_0000 + r32 * 0x1_0000 + g32 * 0x100 + b32;
    assert(p < 0x1_0000_0000) by (nonlinear_arith)
        requires
            a32 < 256,
            r32 < 256,
            g32 < 256,
            b32 < 256,
            p == a32 * 0x100_0000 + r32 * 0x1_0000 + g32 * 0x100 + b32,
    ;
    assert(pack(r, g, b, a) as int == p);
    assert((p / 0x1_0000) % 0x100 == r32 && (p / 0x100) % 0x100 == g32 && p % 0x100 == b32
        && p / 0x100_0000 == a32) by (nonlinear_arith)
        requires
            a32 < 256,
            r32 < 256,
            g32 < 256,
            b32 < 256,
            p == a32 * 0x100_0000 + r32 * 0x1_0000 + g32 * 0x100 + b32,
    ;
}

} // verus!
