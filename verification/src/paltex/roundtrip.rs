//! Decoding what the encoder wrote gives back the image.

use vstd::prelude::*;

use crate::paltex::common::{Color, HEADER_LEN, Header, spec_palette_bytes};
use crate::paltex::decoding::{
    EMPTY, MAX_PAL_LEN, spec_decode, spec_decode_main, spec_decode_op, spec_fill, spec_image_len,
    spec_next_empty, spec_run_ops,
};
use crate::paltex::encoding::{
    RUN_MAX, lemma_count_run_bounds, lemma_next_undrained, lemma_op_clamp, spec_count_run,
    spec_drain, spec_encode_from, spec_encode_main, spec_next_undrained,
};

verus! {

/// The pixels a decoder holds once the pixels marked in `drained` are filled:
/// those hold their color, the others are empty.
pub open spec fn partial(data: Seq<u8>, drained: Seq<bool>) -> Seq<u8> {
    Seq::new(data.len(), |i: int| if drained[i] { data[i] } else { EMPTY })
}

/// The number of pixels not drained yet.
pub open spec fn undrained_count(drained: Seq<bool>) -> nat
    decreases drained.len(),
{
    if drained.len() == 0 {
        0
    } else {
        undrained_count(drained.drop_last()) + if drained.last() { 0nat } else { 1nat }
    }
}

/// Whether every color index is one an operation can carry.
pub open spec fn indices_fit(data: Seq<u8>) -> bool {
    forall|i: int| 0 <= i < data.len() ==> #[trigger] data[i] <= 15
}

/// Draining pixel `j` makes one fewer pixel undrained.
proof fn lemma_undrained_update(d: Seq<bool>, j: int)
    requires
        0 <= j < d.len(),
        !d[j],
    ensures
        undrained_count(d.update(j, true)) + 1 == undrained_count(d),
    decreases d.len(),
{
    let u = d.update(j, true);
    if j == d.len() - 1 {
        assert(u.drop_last() =~= d.drop_last());
    } else {
        assert(u.drop_last() =~= d.drop_last().update(j, true));
        lemma_undrained_update(d.drop_last(), j);
    }
}

/// Draining at most `need` pixels leaves at most `need` fewer undrained.
proof fn lemma_drain_count(d: Seq<bool>, t: int, step: nat, need: nat)
    ensures
        undrained_count(spec_drain(d, t, step, need)) + need >= undrained_count(d),
    decreases (if 0 <= t < d.len() { d.len() - t } else { 0 }),
{
    if need == 0 || step == 0 || t < 0 || t >= d.len() {
    } else if !d[t] {
        lemma_undrained_update(d, t);
        lemma_drain_count(d.update(t, true), t + step, step, (need - 1) as nat);
    } else {
        lemma_drain_count(d, t + step, step, need);
    }
}

/// Measuring a run from `t` on does not look at the pixels up to `t`.
proof fn lemma_count_run_frame(
    data: Seq<u8>,
    d: Seq<bool>,
    step: nat,
    t: int,
    color: u8,
    run: nat,
    j: int,
)
    requires
        0 <= j <= t,
        j < d.len(),
    ensures
        spec_count_run(data, d.update(j, true), step, t, color, run) == spec_count_run(
            data,
            d,
            step,
            t,
            color,
            run,
        ),
    decreases (if 0 <= t < data.len() { data.len() - t } else { 0 }),
{
    let u = d.update(j, true);
    if run >= RUN_MAX || step == 0 || t < 0 || t >= data.len() {
    } else {
        let t2 = t + step;
        if t2 >= data.len() || t2 >= d.len() || data[t2] != color {
        } else {
            assert(u[t2] == d[t2]);
            if !d[t2] {
                lemma_count_run_frame(data, d, step, t2, color, run + 1, j);
            } else {
                lemma_count_run_frame(data, d, step, t2, color, run, j);
            }
        }
    }
}

/// Filling the rest of a measured run, from the pixel after `t` on, fills
/// exactly the pixels that draining it marks.
proof fn lemma_fill_drains(data: Seq<u8>, d: Seq<bool>, step: nat, t: int, color: u8, k: nat)
    requires
        d.len() == data.len(),
        step >= 1,
        0 <= t < data.len(),
        k <= RUN_MAX,
        indices_fit(data),
    ensures
        k <= spec_count_run(data, d, step, t, color, k),
        spec_fill(
            partial(data, d),
            t + step,
            color,
            step,
            (spec_count_run(data, d, step, t, color, k) - k) as nat,
        ) == partial(
            data,
            spec_drain(d, t + step, step, (spec_count_run(data, d, step, t, color, k) - k) as nat),
        ),
    decreases data.len() - t,
{
    lemma_count_run_bounds(data, d, step, t, color, k);
    let r = spec_count_run(data, d, step, t, color, k);
    let f = partial(data, d);
    if k >= RUN_MAX {
        assert(r == k);
    } else {
        let t2 = t + step;
        if t2 >= data.len() || data[t2] != color {
            assert(r == k);
        } else if !d[t2] {
            let u = d.update(t2, true);
            lemma_count_run_frame(data, d, step, t2, color, k + 1, t2);
            lemma_fill_drains(data, u, step, t2, color, k + 1);
            assert(f[t2] == EMPTY);
            assert(f.update(t2, color) =~= partial(data, u));
        } else {
            lemma_fill_drains(data, d, step, t2, color, k);
            assert(f[t2] == data[t2] && data[t2] <= 15);
        }
    }
}

/// The first empty pixel is the first one not drained.
proof fn lemma_next_empty_undrained(data: Seq<u8>, d: Seq<bool>, c: int)
    requires
        d.len() == data.len(),
        indices_fit(data),
    ensures
        spec_next_empty(partial(data, d), c) == spec_next_undrained(d, c),
    decreases (if 0 <= c < d.len() { d.len() - c } else { 0 }),
{
    if c < 0 || c >= d.len() {
    } else if !d[c] {
    } else {
        assert(partial(data, d)[c] == data[c] && data[c] <= 15);
        lemma_next_empty_undrained(data, d, c + 1);
    }
}

/// Every pixel the search for the next undrained one passes over is drained.
proof fn lemma_next_undrained_skips(d: Seq<bool>, c: int)
    requires
        0 <= c,
    ensures
        forall|i: int| c <= i < spec_next_undrained(d, c) && i < d.len() ==> #[trigger] d[i],
    decreases (if 0 <= c < d.len() { d.len() - c } else { 0 }),
{
    if c >= d.len() || !d[c] {
    } else {
        lemma_next_undrained_skips(d, c + 1);
    }
}

/// The decoder, run on what the encoder writes from `c` on, completes the image:
/// starting from the pixels drained so far, with every pixel before `c` drained
/// and `c` either past the end or not drained.
proof fn lemma_run_encoded(data: Seq<u8>, width: nat, d: Seq<bool>, c: int)
    requires
        width >= 1,
        d.len() == data.len(),
        indices_fit(data),
        0 <= c,
        forall|i: int| 0 <= i < c && i < d.len() ==> #[trigger] d[i],
        c < data.len() ==> !d[c],
    ensures
        spec_run_ops(partial(data, d), c, spec_encode_from(data, width, d, c), width) == data,
        spec_encode_from(data, width, d, c).len() * RUN_MAX >= undrained_count(d),
    decreases (if 0 <= c < data.len() { data.len() - c } else { 0 }),
{
    let n = data.len();
    let ops = spec_encode_from(data, width, d, c);
    if c >= n {
        assert(ops =~= Seq::<u8>::empty());
        assert(partial(data, d) =~= data);
        assert(undrained_count(d) == 0) by {
            lemma_all_drained(d);
        }
    } else {
        let color = data[c];
        let h = spec_count_run(data, d, 1, c, color, 1);
        let v = spec_count_run(data, d, width, c, color, 1);
        let across = h > v;
        let run: nat = if across { h } else { v };
        let dir: u8 = if across { 0 } else { 1 };
        let step: nat = if across { 1 } else { width };
        let d2 = spec_drain(d, c, step, run);
        let next = spec_next_undrained(d2, c + 1);
        let rest = spec_encode_from(data, width, d2, next);
        lemma_next_undrained(d2, c + 1);
        assert(ops == seq![crate::paltex::encoding::spec_encode_op(color, dir, run as u8)] + rest);
        lemma_count_run_bounds(data, d, step, c, color, 1);
        lemma_op_clamp(color, dir, run as u8);
        assert(spec_decode_op(ops[0]) == (color, dir, run as u8));
        assert(ops.drop_first() =~= rest);
        // The first pixel of the run is filled and drained; the rest of the
        // run follows the measured pixels.
        let u = d.update(c, true);
        let f = partial(data, d);
        assert(f[c] == EMPTY);
        assert(f.update(c, color) =~= partial(data, u));
        lemma_count_run_frame(data, d, step, c, color, 1, c);
        lemma_fill_drains(data, u, step, c, color, 1);
        assert(spec_fill(f, c, color, step, run) == partial(data, d2));
        // The cursors of encoder and decoder move on together.
        assert(d2[c]) by {
            crate::paltex::encoding::lemma_drain_first(d, c, step, run);
        }
        crate::paltex::encoding::lemma_drain_monotone(d, c, step, run);
        lemma_next_empty_undrained(data, d2, c);
        assert(spec_next_undrained(d2, c) == next);
        lemma_next_undrained_skips(d2, c + 1);
        assert forall|i: int| 0 <= i < next && i < d2.len() implies #[trigger] d2[i] by {
            if i < c {
                assert(d[i]);
            }
        }
        lemma_run_encoded(data, width, d2, next);
        lemma_drain_count(d, c, step, run);
    }
}

/// With every pixel before the end drained, none is left undrained.
proof fn lemma_all_drained(d: Seq<bool>)
    requires
        forall|i: int| 0 <= i < d.len() ==> #[trigger] d[i],
    ensures
        undrained_count(d) == 0,
    decreases d.len(),
{
    if d.len() > 0 {
        assert(d[d.len() - 1]);
        lemma_all_drained(d.drop_last());
    }
}

/// With no pixel drained, all are undrained.
proof fn lemma_none_drained(n: nat)
    ensures
        undrained_count(Seq::new(n, |i: int| false)) == n,
    decreases n,
{
    if n > 0 {
        assert(Seq::new(n, |i: int| false).drop_last() =~= Seq::new((n - 1) as nat, |i: int| false));
        lemma_none_drained((n - 1) as nat);
    }
}

/// Decoding the operations that encode an image gives back its pixels: for
/// pixels laid out `width` by `height`, every one a color index the encoding
/// can carry, the decoder with a header of that size reproduces them.
pub proof fn lemma_main_roundtrip(data: Seq<u8>, header: Header)
    requires
        header.width >= 1,
        data.len() == header.width * header.height,
        indices_fit(data),
    ensures
        spec_decode_main(header, spec_encode_main(data, header.width as nat)) == data,
{
    let width = header.width as nat;
    let n = data.len();
    let none = Seq::new(n, |i: int| false);
    let ops = spec_encode_main(data, width);
    lemma_run_encoded(data, width, none, 0);
    lemma_none_drained(n);
    assert(spec_image_len(header, ops.len()) == n);
    assert(partial(data, none) =~= Seq::new(n, |i: int| EMPTY));
}

/// The colors of a palette read back from its bytes, wherever they stand.
proof fn lemma_palette_read(p: Seq<Color>, pre: Seq<u8>, post: Seq<u8>)
    ensures
        spec_palette_bytes(p).len() == 4 * p.len(),
        forall|i: int|
            0 <= i < p.len() ==> #[trigger] Color::spec_at(
                pre + spec_palette_bytes(p) + post,
                pre.len() + 4 * i,
            ) == p[i],
    decreases p.len(),
{
    if p.len() > 0 {
        let init = p.drop_last();
        let last = p.last();
        let tail = last.spec_bytes() + post;
        lemma_palette_read(init, pre, tail);
        let all = pre + spec_palette_bytes(p) + post;
        assert(all =~= pre + spec_palette_bytes(init) + tail);
        assert forall|i: int| 0 <= i < p.len() implies #[trigger] Color::spec_at(all, pre.len() + 4 * i)
            == p[i] by {
            if i < init.len() {
                assert(init[i] == p[i]);
            } else {
                let off = pre.len() + 4 * i;
                assert(off == pre.len() + spec_palette_bytes(init).len());
                assert(all[off] == last.r && all[off + 1] == last.g && all[off + 2] == last.b
                    && all[off + 3] == last.a);
            }
        }
    }
}

/// Decoding an encoded texture gives back its size, its palette after the
/// transparent color the decoder puts first, and its pixels: for a texture of
/// at least one pixel each way, both sizes within 16 bits, at most fifteen
/// palette colors, and pixels that are color indices the encoding can carry.
pub proof fn lemma_roundtrip(width: u16, height: u16, palette: Seq<Color>, data: Seq<u8>)
    requires
        width >= 1,
        height >= 1,
        palette.len() <= MAX_PAL_LEN,
        data.len() == width * height,
        indices_fit(data),
    ensures
        spec_decode(
            (Header { width, height, pal_len: palette.len() as u8 }).spec_bytes() + spec_palette_bytes(
                palette,
            ) + spec_encode_main(data, width as nat),
        ) == Ok::<(u32, u32, Seq<Color>, Seq<u8>), crate::paltex::common::InvalidInput>(
            (width as u32, height as u32, seq![Color::spec_transparent()] + palette, data),
        ),
{
    let header = Header { width, height, pal_len: palette.len() as u8 };
    let hb = header.spec_bytes();
    let ops = spec_encode_main(data, width as nat);
    let input = hb + spec_palette_bytes(palette) + ops;
    lemma_palette_read(palette, hb, ops);
    assert(input[0] == (width % 256) as u8 && input[1] == (width / 256) as u8);
    assert(input[2] == (height % 256) as u8 && input[3] == (height / 256) as u8);
    assert(input[4] == palette.len() as u8);
    assert(Header::spec_from_bytes(input) == header);
    let end = HEADER_LEN + 4 * palette.len();
    assert(input.subrange(end as int, input.len() as int) =~= ops);
    assert(seq![Color::spec_transparent()] + Seq::new(
        palette.len(),
        |i: int| Color::spec_at(input, HEADER_LEN + 4 * i),
    ) =~= seq![Color::spec_transparent()] + palette);
    lemma_main_roundtrip(data, header);
}

} // verus!
