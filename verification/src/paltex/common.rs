use vstd::prelude::*;

use crate::paltex::decoding::{decode, spec_decode};

verus! {

/// The error of decoding bytes that are not a valid palette texture.
#[derive(Debug, Clone, Copy, PartialEq, Eq, Structural)]
pub struct InvalidInput;

/// The header of an encoded palette texture. On the wire it takes
/// `HEADER_LEN` bytes: width and height as little-endian `u16`, the palette
/// length, and one padding byte.
#[derive(Debug, Default, Clone, Copy, PartialEq, Eq, Structural)]
pub struct Header {
    pub width: u16,
    pub height: u16,
    pub pal_len: u8,
}

/// The size of an encoded header in bytes.
pub const HEADER_LEN: usize = 6;

/// The size of an encoded color in bytes.
pub const COLOR_LEN: usize = 4;

impl Header {
    /// The bytes of this header on the wire.
    pub open spec fn spec_bytes(self) -> Seq<u8> {
        seq![
            (self.width % 256) as u8,
            (self.width / 256) as u8,
            (self.height % 256) as u8,
            (self.height / 256) as u8,
            self.pal_len,
            0u8,
        ]
    }

    /// The header read from the first bytes of `b`.
    pub open spec fn spec_from_bytes(b: Seq<u8>) -> Header {
        Header {
            width: (b[0] + 256 * b[1]) as u16,
            height: (b[2] + 256 * b[3]) as u16,
            pal_len: b[4],
        }
    }

    pub fn to_bytes(&self) -> (bytes: Vec<u8>)
        ensures
            bytes@ == self.spec_bytes(),
    {
        let mut bytes: Vec<u8> = Vec::new();
        bytes.push((self.width % 256) as u8);
        bytes.push((self.width / 256) as u8);
        bytes.push((self.height % 256) as u8);
        bytes.push((self.height / 256) as u8);
        bytes.push(self.pal_len);
        bytes.push(0u8);
        bytes
    }

    pub fn from_bytes(b: &[u8]) -> (h: Header)
        requires
            b@.len() >= HEADER_LEN,
        ensures
            h == Header::spec_from_bytes(b@),
    {
        Header {
            width: b[0] as u16 + 256 * (b[1] as u16),
            height: b[2] as u16 + 256 * (b[3] as u16),
            pal_len: b[4],
        }
    }
}

/// A color with 8-bit red, green, blue and alpha channels.
#[derive(Debug, Default, Clone, Copy, PartialEq, Eq, Hash, Structural)]
pub struct Color {
    pub r: u8,
    pub g: u8,
    pub b: u8,
    pub a: u8,
}

impl Color {
    pub open spec fn spec_transparent() -> Color {
        Color { r: 0, g: 0, b: 0, a: 0 }
    }

    /// The bytes of this color on the wire: red, green, blue, alpha.
    pub open spec fn spec_bytes(self) -> Seq<u8> {
        seq![self.r, self.g, self.b, self.a]
    }

    /// The color whose bytes start at `off` in `b`.
    pub open spec fn spec_at(b: Seq<u8>, off: int) -> Color {
        Color { r: b[off], g: b[off + 1], b: b[off + 2], a: b[off + 3] }
    }

    /// The fully transparent color, which palette index 0 always stands for.
    pub fn transparent() -> (c: Color)
        ensures
            c == Color::spec_transparent(),
    {
        Color { r: 0, g: 0, b: 0, a: 0 }
    }

    pub fn from_rgba_u8(rgba: [u8; 4]) -> (c: Color)
        ensures
            c.r == rgba@[0],
            c.g == rgba@[1],
            c.b == rgba@[2],
            c.a == rgba@[3],
    {
        Color { r: rgba[0], g: rgba[1], b: rgba[2], a: rgba[3] }
    }

    pub fn to_rgba_u8(&self) -> (rgba: [u8; 4])
        ensures
            rgba@ == self.spec_bytes(),
    {
        let rgba = [self.r, self.g, self.b, self.a];
        assert(rgba@ =~= self.spec_bytes());
        rgba
    }

    pub fn at(b: &[u8], off: usize) -> (c: Color)
        requires
            off + COLOR_LEN <= b@.len(),
        ensures
            c == Color::spec_at(b@, off as int),
    {
        Color { r: b[off], g: b[off + 1], b: b[off + 2], a: b[off + 3] }
    }
}

/// The bytes of a sequence of colors on the wire.
pub open spec fn spec_palette_bytes(p: Seq<Color>) -> Seq<u8>
    decreases p.len(),
{
    if p.len() == 0 {
        Seq::empty()
    } else {
        spec_palette_bytes(p.drop_last()) + p.last().spec_bytes()
    }
}

/// A palette texture: `width * height` palette indices, row by row.
pub struct PalTex {
    pub width: u32,
    pub height: u32,
    pub palette: Vec<Color>,
    pub data: Vec<u8>,
}

/// The lookup table from legend bytes to palette indices, and the palette,
/// after the first `n` entries of `legend` have been read. Transparent legend
/// colors map to index 0 and add nothing to the palette.
pub open spec fn spec_legend(legend: Seq<(u8, Color)>, n: nat) -> (Seq<u8>, Seq<Color>)
    decreases n,
{
    if n == 0 {
        (Seq::new(256, |i: int| 0u8), seq![Color::spec_transparent()])
    } else {
        let (lookup, palette) = spec_legend(legend, (n - 1) as nat);
        let (idx, color) = legend[n - 1];
        if color == Color::spec_transparent() {
            (lookup.update(idx as int, 0u8), palette)
        } else {
            (lookup.update(idx as int, (palette.len() % 256) as u8), palette.push(color))
        }
    }
}

pub proof fn lemma_legend_lookup_len(legend: Seq<(u8, Color)>, n: nat)
    ensures
        spec_legend(legend, n).0.len() == 256,
        spec_legend(legend, n).1.len() >= 1,
    decreases n,
{
    if n > 0 {
        lemma_legend_lookup_len(legend, (n - 1) as nat);
    }
}

/// The rows of `rows` laid after each other.
pub open spec fn spec_flatten<const N: usize>(rows: Seq<[u8; N]>) -> Seq<u8>
    decreases rows.len(),
{
    if rows.len() == 0 {
        Seq::empty()
    } else {
        spec_flatten(rows.drop_last()) + rows.last()@
    }
}

impl PalTex {
    pub fn from_encoded(bytes: &[u8]) -> (r: Result<PalTex, InvalidInput>)
        ensures
            match (r, spec_decode(bytes@)) {
                (Ok(t), Ok((w, h, p, d))) => t.width == w && t.height == h && t.palette@ == p
                    && t.data@ == d,
                (Err(e), Err(e2)) => e == e2,
                _ => false,
            },
    {
        decode(bytes)
    }

    /// Builds a texture from rows of legend bytes: each byte is replaced by the
    /// palette index of its color in `color_legend`; bytes the legend does not
    /// name become transparent.
    pub fn from_ascii_map<const N: usize, const M: usize>(
        color_legend: &[(u8, Color)],
        bytes: &[[u8; N]; M],
    ) -> (t: PalTex)
        requires
            M > 0,
            N * M <= usize::MAX,
        ensures
            t.height == M as u32,
            t.width == N as u32,
            t.palette@ == spec_legend(color_legend@, color_legend@.len() as nat).1,
            t.data@.len() == N * M,
            forall|i: int|
                0 <= i < N * M ==> #[trigger] t.data@[i] == spec_legend(
                    color_legend@,
                    color_legend@.len() as nat,
                ).0[spec_flatten(bytes@)[i] as int],
    {
        let mut data: Vec<u8> = Vec::new();
        let mut row: usize = 0;
        while row < M
            invariant
                row <= M,
                data@ == spec_flatten(bytes@.take(row as int)),
                data@.len() == row * N,
                N * M <= usize::MAX,
            decreases M - row,
        {
            let mut col: usize = 0;
            let ghost before = data@;
            while col < N
                invariant
                    row < M,
                    col <= N,
                    data@ == before + bytes@[row as int]@.take(col as int),
                    before.len() == row * N,
                    N * M <= usize::MAX,
                decreases N - col,
            {
                assert(bytes@[row as int]@.take(col as int + 1) =~= bytes@[row as int]@.take(
                    col as int,
                ).push(bytes@[row as int]@[col as int]));
                data.push(bytes[row][col]);
                col = col + 1;
            }
            proof {
                assert(bytes@[row as int]@.take(N as int) =~= bytes@[row as int]@);
                assert(bytes@.take(row as int + 1).drop_last() =~= bytes@.take(row as int));
                assert(data@.len() == row * N + N);
                assert((row + 1) * N == row * N + N) by (nonlinear_arith);
            }
            row = row + 1;
        }
        assert(bytes@.take(M as int) =~= bytes@);
        assert(data@.len() == N * M) by (nonlinear_arith)
            requires
                data@.len() == M * N,
        ;
        let mut lookup: Vec<u8> = Vec::new();
        let mut k: usize = 0;
        while k < 256
            invariant
                k <= 256,
                lookup@ =~= Seq::new(k as nat, |i: int| 0u8),
            decreases 256 - k,
        {
            lookup.push(0u8);
            k = k + 1;
        }
        let mut palette: Vec<Color> = Vec::new();
        palette.push(Color::transparent());
        let mut j: usize = 0;
        while j < color_legend.len()
            invariant
                j <= color_legend@.len(),
                (lookup@, palette@) == spec_legend(color_legend@, j as nat),
                lookup@.len() == 256,
            decreases color_legend@.len() - j,
        {
            let (old_idx, color) = color_legend[j];
            proof {
                lemma_legend_lookup_len(color_legend@, j as nat);
            }
            if color == Color::transparent() {
                lookup.set(old_idx as usize, 0u8);
            } else {
                let len = palette.len();
                let idx: u8 = (len % 256) as u8;
                lookup.set(old_idx as usize, idx);
                palette.push(color);
            }
            j = j + 1;
        }
        let ghost flat = data@;
        let mut i: usize = 0;
        while i < data.len()
            invariant
                i <= data@.len(),
                data@.len() == flat.len(),
                lookup@.len() == 256,
                forall|p: int| 0 <= p < i ==> #[trigger] data@[p] == lookup@[flat[p] as int],
                forall|p: int| i <= p < data@.len() ==> #[trigger] data@[p] == flat[p],
            decreases data@.len() - i,
        {
            let b = data[i];
            let v = lookup[b as usize];
            data.set(i, v);
            i = i + 1;
        }
        PalTex { height: M as u32, width: N as u32, palette, data }
    }
}

} // verus!
