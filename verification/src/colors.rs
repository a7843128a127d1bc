use vstd::prelude::*;

verus! {

/// A colour with eight bits for each of alpha, red, green and blue.
#[derive(Clone, Copy, Debug, PartialEq, Eq, Structural)]
pub struct Color {
    pub r: u8,
    pub g: u8,
    pub b: u8,
    pub a: u8,
}

/// The four channels packed into one word, alpha in the most significant
/// byte, then red, then green, and blue in the least significant byte.
pub open spec fn argb8888(a: u8, r: u8, g: u8, b: u8) -> u32 {
    ((a as u32) << 24) | ((r as u32) << 16) | ((g as u32) << 8) | (b as u32)
}

/// The byte of `word` that starts at bit `8 * index`.
pub open spec fn byte_of(word: u32, index: u32) -> u8 {
    ((word >> (8 * index)) & 0xff) as u8
}

/// Packing puts blue in byte 0, green in byte 1, red in byte 2 and alpha in
/// byte 3 of the word.
pub proof fn lemma_argb8888_bytes(a: u8, r: u8, g: u8, b: u8)
    ensures
        byte_of(argb8888(a, r, g, b), 0) == b,
        byte_of(argb8888(a, r, g, b), 1) == g,
        byte_of(argb8888(a, r, g, b), 2) == r,
        byte_of(argb8888(a, r, g, b), 3) == a,
{
    let w = ((a as u32) << 24) | ((r as u32) << 16) | ((g as u32) << 8) | (b as u32);
    assert(((w >> 0) & 0xff) as u8 == b) by (bit_vector)
        requires
            w == ((a as u32) << 24) | ((r as u32) << 16) | ((g as u32) << 8) | (b as u32),
    ;
    assert(((w >> 8) & 0xff) as u8 == g) by (bit_vector)
        requires
            w == ((a as u32) << 24) | ((r as u32) << 16) | ((g as u32) << 8) | (b as u32),
    ;
    assert(((w >> 16) & 0xff) as u8 == r) by (bit_vector)
        requires
            w == ((a as u32) << 24) | ((r as u32) << 16) | ((g as u32) << 8) | (b as u32),
    ;
    assert(((w >> 24) & 0xff) as u8 == a) by (bit_vector)
        requires
            w == ((a as u32) << 24) | ((r as u32) << 16) | ((g as u32) << 8) | (b as u32),
    ;
}

/// A word is the packing of its own four bytes.
pub proof fn lemma_bytes_argb8888(word: u32)
    ensures
        argb8888(byte_of(word, 3), byte_of(word, 2), byte_of(word, 1), byte_of(word, 0)) == word,
{
    assert(((((word >> 24) & 0xff) as u8 as u32) << 24) | ((((word >> 16) & 0xff) as u8 as u32)
        << 16) | ((((word >> 8) & 0xff) as u8 as u32) << 8) | (((word >> 0) & 0xff) as u8 as u32)
        == word) by (bit_vector);
}

impl Color {
    /// An opaque colour.
    #[allow(non_snake_case)]
    pub fn RGB(r: u8, g: u8, b: u8) -> (color: Color)
        ensures
            color == (Color { r, g, b, a: 255 }),
    {
        Color { r, g, b, a: 255 }
    }

    /// A colour with the given opacity.
    #[allow(non_snake_case)]
    pub fn RGBA(r: u8, g: u8, b: u8, a: u8) -> (color: Color)
        ensures
            color == (Color { r, g, b, a }),
    {
        Color { r, g, b, a }
    }

    /// The packed word of this colour.
    pub open spec fn packed(self) -> u32 {
        argb8888(self.a, self.r, self.g, self.b)
    }

    /// Packs the colour into one word.
    pub fn to_argb8888(&self) -> (word: u32)
        ensures
            word == self.packed(),
    {
        ((self.a as u32) << 24) | ((self.r as u32) << 16) | ((self.g as u32) << 8) | (self.b as u32)
    }

    /// The colour that a packed word holds.
    pub fn from_argb8888(word: u32) -> (color: Color)
        ensures
            color.packed() == word,
            color == (Color {
                r: byte_of(word, 2),
                g: byte_of(word, 1),
                b: byte_of(word, 0),
                a: byte_of(word, 3),
            }),
    {
        proof {
            lemma_bytes_argb8888(word);
        }
        Color {
            r: ((word >> 16) & 0xff) as u8,
            g: ((word >> 8) & 0xff) as u8,
            b: ((word >> 0) & 0xff) as u8,
            a: ((word >> 24) & 0xff) as u8,
        }
    }

    /// The four bytes of the packed word, least significant first: blue,
    /// green, red, alpha.
    pub fn to_bytes(&self) -> (bytes: [u8; 4])
        ensures
            bytes@ == seq![self.b, self.g, self.r, self.a],
            forall|k: int| 0 <= k < 4 ==> bytes@[k] == byte_of(self.packed(), k as u32),
    {
        proof {
            lemma_argb8888_bytes(self.a, self.r, self.g, self.b);
        }
        let bytes: [u8; 4] = [self.b, self.g, self.r, self.a];
        assert(bytes@ =~= seq![self.b, self.g, self.r, self.a]);
        bytes
    }
}

/// Packing and unpacking a colour gives the colour back.
pub proof fn lemma_pack_round_trip(color: Color)
    ensures
        (Color {
            r: byte_of(color.packed(), 2),
            g: byte_of(color.packed(), 1),
            b: byte_of(color.packed(), 0),
            a: byte_of(color.packed(), 3),
        }) == color,
{
    lemma_argb8888_bytes(color.a, color.r, color.g, color.b);
}

} // verus!
