use vstd::prelude::*;
use crate::error::BraError;
use crate::read_util::{le16, ReadUtil, SliceReader};

verus! {

/// The only palette block length the format uses: 32 packed entries.
pub const PALETTE_BYTES: u32 = 64;

/// A 5-bit channel value widened to 8 bits.
pub open spec fn widen5(v: u16) -> u8 {
    (v * 8 + v * 8 / 32) as u8
}

/// The RGB triple that a packed 15-bit color stands for: red in bits 0-4,
/// green in bits 5-9, blue in bits 10-14.
pub open spec fn rgb_of(col: u16) -> Seq<u8> {
    seq![widen5(col & 0x1F), widen5((col & 0x3E0) >> 5u16), widen5((col & 0x7C00) >> 10u16)]
}

/// The palette that a block of little-endian packed colors decodes to.
pub open spec fn palette_of(block: Seq<u8>) -> Seq<Seq<u8>> {
    Seq::new(
        (PALETTE_BYTES / 2) as nat,
        |i: int| rgb_of(le16(block[2 * i], block[2 * i + 1]) as u16),
    )
}

/// One palette entry: red, green, blue.
#[derive(Debug, Clone, Copy)]
pub struct Color(pub [u8; 3]);

impl Color {
    /// Decodes a palette block of `pal_len` bytes.
    pub fn parse_palette(pal: &[u8], pal_len: u32) -> (r: Result<Vec<Self>, BraError>)
        ensures
            pal_len != PALETTE_BYTES ==> r == Err::<Vec<Self>, BraError>(
                BraError::UnsupportedPaletteFormat,
            ),
            pal_len == PALETTE_BYTES && pal@.len() < PALETTE_BYTES ==> r == Err::<
                Vec<Self>,
                BraError,
            >(BraError::MalformedHeader),
            pal_len == PALETTE_BYTES && pal@.len() >= PALETTE_BYTES ==> r.is_ok() && r.unwrap()@.map_values(
                |c: Color| c.0@,
            ) == palette_of(pal@),
    {
        if pal_len != PALETTE_BYTES {
            return Err(BraError::UnsupportedPaletteFormat);
        }
        let pal_count = pal_len / 2;
        let mut reader = SliceReader::new(pal);
        let mut palette: Vec<Color> = Vec::new();
        let mut i: u32 = 0;
        while i < pal_count
            invariant
                pal_len == PALETTE_BYTES,
                pal_count == PALETTE_BYTES / 2,
                i <= pal_count,
                pal@.len() >= 2 * i,
                reader.remaining() == pal@.skip(2 * i),
                palette@.len() == i,
                forall|j: int|
                    0 <= j < i ==> #[trigger] palette@[j].0@ == rgb_of(
                        le16(pal@[2 * j], pal@[2 * j + 1]) as u16,
                    ),
            decreases pal_count - i,
        {
            let ghost rem = reader.remaining();
            match reader.read_u16_le() {
                None => {
                    return Err(BraError::MalformedHeader);
                },
                Some(col) => {
                    assert(rem[0] == pal@[2 * i as int] && rem[1] == pal@[2 * i + 1]);
                    assert(rem.skip(2) =~= pal@.skip(2 * (i + 1)));
                    palette.push(Color::from_15_bits(col));
                    i = i + 1;
                },
            }
        }
        assert(palette@.map_values(|c: Color| c.0@) =~= palette_of(pal@));
        Ok(palette)
    }

    /// Widens a packed 15-bit color to 8 bits per channel.
    pub fn from_15_bits(col: u16) -> (r: Self)
        ensures
            r.0@ == rgb_of(col),
    {
        proof {
            assert((col & 0x7C00) >> 10u16 <= 31) by (bit_vector);
            assert((col & 0x3E0) >> 5u16 <= 31) by (bit_vector);
            assert(col & 0x1F <= 31) by (bit_vector);
        }
        let mut b = ((col & 0x7C00) >> 10) * 8;
        let mut g = ((col & 0x3E0) >> 5) * 8;
        let mut r = (col & 0x1F) * 8;
        r = r + r / 32;
        g = g + g / 32;
        b = b + b / 32;
        let c = Self([r as u8, g as u8, b as u8]);
        assert(c.0@ =~= rgb_of(col));
        c
    }

    /// The red, green and blue bytes.
    pub fn bytes(&self) -> (r: &[u8])
        ensures
            r@ == self.0@,
    {
        self.0.as_slice()
    }
}

} // verus!
