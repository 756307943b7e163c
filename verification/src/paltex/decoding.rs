use vstd::prelude::*;

use crate::paltex::common::{
    COLOR_LEN, Color, HEADER_LEN, Header, InvalidInput, PalTex, spec_palette_bytes,
};

verus! {

/// The marker of a pixel that no operation has filled yet.
pub const EMPTY: u8 = 255;

/// The greatest palette length a header may announce.
pub const MAX_PAL_LEN: u8 = 15;

/// The header encoded at the start of `input`, with the palette length clamped
/// to `MAX_PAL_LEN`, or the error when the input is too short or the image empty.
pub open spec fn spec_decode_header(input: Seq<u8>) -> Result<Header, InvalidInput> {
    if input.len() < HEADER_LEN {
        Err(InvalidInput)
    } else {
        let h = Header::spec_from_bytes(input);
        if h.width == 0 || h.height == 0 {
            Err(InvalidInput)
        } else {
            Ok(Header { pal_len: if h.pal_len < MAX_PAL_LEN { h.pal_len } else { MAX_PAL_LEN }, ..h })
        }
    }
}

/// The end of the palette of a header announcing `pal_len` colors.
pub open spec fn spec_palette_end(pal_len: u8) -> int {
    HEADER_LEN + COLOR_LEN * pal_len
}

/// The palette read after the header: the transparent color followed by the
/// `pal_len` colors stored in `input`.
pub open spec fn spec_palette(input: Seq<u8>, pal_len: u8) -> Seq<Color> {
    seq![Color::spec_transparent()] + Seq::new(
        pal_len as nat,
        |i: int| Color::spec_at(input, HEADER_LEN + COLOR_LEN * i),
    )
}

pub fn decode_header(input: &[u8]) -> (r: Result<Header, InvalidInput>)
    ensures
        r == spec_decode_header(input@),
{
    if input.len() < HEADER_LEN {
        return Err(InvalidInput);
    }
    let mut header = Header::from_bytes(input);
    header.pal_len = if header.pal_len < MAX_PAL_LEN { header.pal_len } else { MAX_PAL_LEN };
    if header.width == 0 || header.height == 0 {
        return Err(InvalidInput);
    }
    Ok(header)
}

/// Reads the palette that `header` announces, and returns it with the encoded
/// image data that follows it.
pub fn decode_palette<'a>(header: &Header, input: &'a [u8]) -> (r: Result<
    (Vec<Color>, &'a [u8]),
    InvalidInput,
>)
    ensures
        input@.len() < spec_palette_end(header.pal_len) <==> r is Err,
        r matches Ok((palette, img)) ==> palette@ == spec_palette(input@, header.pal_len)
            && img@ == input@.subrange(spec_palette_end(header.pal_len), input@.len() as int),
{
    let pal_len = header.pal_len as usize;
    let palette_end = HEADER_LEN + COLOR_LEN * pal_len;
    if input.len() < palette_end {
        return Err(InvalidInput);
    }
    let mut palette: Vec<Color> = Vec::new();
    palette.push(Color::transparent());
    let mut i: usize = 0;
    while i < pal_len
        invariant
            i <= pal_len,
            pal_len == header.pal_len,
            palette_end == HEADER_LEN + COLOR_LEN * pal_len,
            palette_end <= input@.len(),
            palette@ =~= spec_palette(input@, header.pal_len).take(i + 1),
        decreases pal_len - i,
    {
        let c = Color::at(input, HEADER_LEN + COLOR_LEN * i);
        palette.push(c);
        i = i + 1;
    }
    assert(palette@ =~= spec_palette(input@, header.pal_len));
    let (_, img_data) = input.split_at(palette_end);
    Ok((palette, img_data))
}

/// The color index, direction (0 across, 1 down) and run length of an operation byte.
pub open spec fn spec_decode_op(op: u8) -> (u8, u8, u8) {
    ((op % 16) as u8, (op / 128) as u8, ((op / 16) % 8 + 1) as u8)
}

pub fn decode_op(op: u8) -> (r: (u8, u8, u8))
    ensures
        r == spec_decode_op(op),
{
    let color_idx = op & 0b0000_1111;
    let run_dir = op >> 7;
    assert((op >> 4) & 7 <= 7) by (bit_vector);
    let run_len = ((op >> 4) & 0b0000_0111) + 1;
    proof {
        assert(op & 15 == op % 16) by (bit_vector);
        assert(op >> 7 == op / 128) by (bit_vector);
        assert((op >> 4) & 7 == (op / 16) % 8) by (bit_vector);
    }
    (color_idx, run_dir, run_len)
}

/// `data` after filling, from `pos` on in steps of `step`, the next `remaining`
/// empty pixels with `color`. Filled pixels are skipped; the run stops at the end
/// of the data.
pub open spec fn spec_fill(data: Seq<u8>, pos: int, color: u8, step: nat, remaining: nat) -> Seq<
    u8,
>
    decreases (if 0 <= pos < data.len() { data.len() - pos } else { 0 }),
{
    if remaining == 0 || pos < 0 || pos >= data.len() || step == 0 {
        data
    } else if data[pos] == EMPTY {
        spec_fill(data.update(pos, color), pos + step, color, step, (remaining - 1) as nat)
    } else {
        spec_fill(data, pos + step, color, step, remaining)
    }
}

pub proof fn lemma_fill_len(data: Seq<u8>, pos: int, color: u8, step: nat, remaining: nat)
    ensures
        spec_fill(data, pos, color, step, remaining).len() == data.len(),
    decreases (if 0 <= pos < data.len() { data.len() - pos } else { 0 }),
{
    if remaining == 0 || pos < 0 || pos >= data.len() || step == 0 {
    } else if data[pos] == EMPTY {
        lemma_fill_len(data.update(pos, color), pos + step, color, step, (remaining - 1) as nat);
    } else {
        lemma_fill_len(data, pos + step, color, step, remaining);
    }
}

/// Fills the next `run_len` empty pixels from `cursor` on, in steps of `stride`.
pub fn perform_op(data: &mut [u8], cursor: usize, color_idx: u8, stride: usize, run_len: u8)
    requires
        stride >= 1 || old(data)@.len() == 0,
        old(data)@.len() + stride <= usize::MAX,
    ensures
        final(data)@ == spec_fill(old(data)@, cursor as int, color_idx, stride as nat, run_len as nat),
{
    let mut pos = cursor;
    let mut filled: u8 = 0;
    while filled < run_len && pos < data.len()
        invariant
            filled <= run_len,
            data@.len() == old(data)@.len(),
            stride >= 1 || data@.len() == 0,
            data@.len() + stride <= usize::MAX,
            spec_fill(data@, pos as int, color_idx, stride as nat, (run_len - filled) as nat)
                == spec_fill(old(data)@, cursor as int, color_idx, stride as nat, run_len as nat),
        decreases (if pos < data@.len() { data@.len() - pos } else { 0 }),
    {
        if data[pos] == EMPTY {
            data[pos] = color_idx;
            filled = filled + 1;
        }
        pos = pos + stride;
    }
}

/// The first empty pixel at or after `cursor`, or the end of the data.
pub open spec fn spec_next_empty(data: Seq<u8>, cursor: int) -> int
    decreases (if 0 <= cursor < data.len() { data.len() - cursor } else { 0 }),
{
    if cursor < 0 || cursor >= data.len() || data[cursor] == EMPTY {
        cursor
    } else {
        spec_next_empty(data, cursor + 1)
    }
}

/// The pixels after running the operations `ops` from `cursor` on, where each
/// operation fills its run and then moves the cursor to the next empty pixel.
pub open spec fn spec_run_ops(data: Seq<u8>, cursor: int, ops: Seq<u8>, width: nat) -> Seq<u8>
    decreases ops.len(),
{
    if ops.len() == 0 {
        data
    } else {
        let (color, dir, len) = spec_decode_op(ops[0]);
        let step: nat = if dir == 0 { 1 } else { width };
        let filled = spec_fill(data, cursor, color, step, len as nat);
        spec_run_ops(filled, spec_next_empty(filled, cursor), ops.drop_first(), width)
    }
}

/// The number of pixels the decoder produces: the image size, but never more
/// than eight per encoded operation.
pub open spec fn spec_image_len(header: Header, encoded_len: nat) -> nat {
    let size = header.width * header.height;
    let max_len = encoded_len * 8;
    if size < max_len { size as nat } else { max_len }
}

/// The pixels decoded from the operation bytes `encoded`.
pub open spec fn spec_decode_main(header: Header, encoded: Seq<u8>) -> Seq<u8> {
    spec_run_ops(
        Seq::new(spec_image_len(header, encoded.len()), |i: int| EMPTY),
        0,
        encoded,
        header.width as nat,
    )
}

pub fn decode_main(header: &Header, encoded_data: &[u8]) -> (data: Vec<u8>)
    ensures
        data@ == spec_decode_main(*header, encoded_data@),
{
    assert(header.width as int * header.height as int <= 65535 * 65535) by (nonlinear_arith)
        requires
            header.width <= 65535,
            header.height <= 65535,
    ;
    let size = header.width as usize * header.height as usize;
    let len = if encoded_data.len() > size / 8 {
        size
    } else {
        encoded_data.len() * 8
    };
    assert(len == spec_image_len(*header, encoded_data@.len()));
    let mut data: Vec<u8> = Vec::new();
    while data.len() < len
        invariant
            len <= size,
            data@ =~= Seq::new(data@.len(), |i: int| EMPTY),
            data@.len() <= len,
        decreases len - data@.len(),
    {
        data.push(EMPTY);
    }
    let ghost init = data@;
    let ghost width = header.width as nat;
    let mut cursor: usize = 0;
    let mut i: usize = 0;
    assert(encoded_data@.skip(0) =~= encoded_data@);
    while i < encoded_data.len()
        invariant
            i <= encoded_data@.len(),
            data@.len() == len,
            len <= size,
            size == header.width * header.height,
            width == header.width,
            cursor <= len,
            spec_run_ops(data@, cursor as int, encoded_data@.skip(i as int), width)
                == spec_run_ops(init, 0, encoded_data@, width),
        decreases encoded_data@.len() - i,
    {
        let op = encoded_data[i];
        let (color_idx, run_dir, run_len) = decode_op(op);
        let stride: usize = if run_dir == 0 {
            1
        } else {
            header.width as usize
        };
        proof {
            assert(encoded_data@.skip(i as int)[0] == op);
            assert(encoded_data@.skip(i as int).drop_first() =~= encoded_data@.skip(i as int + 1));
            assert(header.width as int * header.height as int <= 65535 * 65535) by (nonlinear_arith)
                requires header.width <= 65535, header.height <= 65535;
            assert(stride >= 1 || data@.len() == 0) by (nonlinear_arith)
                requires
                    stride == 1 || stride == header.width,
                    data@.len() <= header.width * header.height,
            ;
            lemma_fill_len(data@, cursor as int, color_idx, stride as nat, run_len as nat);
        }
        perform_op(data.as_mut_slice(), cursor, color_idx, stride, run_len);
        let ghost filled = data@;
        let ghost start = cursor;
        while cursor < data.len() && data[cursor] != EMPTY
            invariant
                data@ == filled,
                start <= cursor <= data@.len(),
                spec_next_empty(filled, cursor as int) == spec_next_empty(filled, start as int),
            decreases data@.len() - cursor,
        {
            cursor = cursor + 1;
        }
        i = i + 1;
    }
    assert(encoded_data@.skip(encoded_data@.len() as int) =~= Seq::<u8>::empty());
    data
}

/// The texture encoded in `input`: its width, height, palette and pixels.
pub open spec fn spec_decode(input: Seq<u8>) -> Result<(u32, u32, Seq<Color>, Seq<u8>), InvalidInput> {
    match spec_decode_header(input) {
        Err(e) => Err(e),
        Ok(header) => if input.len() < spec_palette_end(header.pal_len) {
            Err(InvalidInput)
        } else {
            Ok(
                (
                    header.width as u32,
                    header.height as u32,
                    spec_palette(input, header.pal_len),
                    spec_decode_main(
                        header,
                        input.subrange(spec_palette_end(header.pal_len), input.len() as int),
                    ),
                ),
            )
        },
    }
}

pub fn decode(input: &[u8]) -> (r: Result<PalTex, InvalidInput>)
    ensures
        match (r, spec_decode(input@)) {
            (Ok(t), Ok((w, h, p, d))) => t.width == w && t.height == h && t.palette@ == p
                && t.data@ == d,
            (Err(e), Err(e2)) => e == e2,
            _ => false,
        },
{
    let header = match decode_header(input) {
        Ok(h) => h,
        Err(e) => return Err(e),
    };
    let (palette, encoded_data) = match decode_palette(&header, input) {
        Ok(p) => p,
        Err(e) => return Err(e),
    };
    let data = decode_main(&header, encoded_data);
    Ok(PalTex { width: header.width as u32, height: header.height as u32, palette, data })
}

} // verus!
