use vstd::prelude::*;

use crate::draw::AsBytes;
use crate::paltex::common::{Color, Header, PalTex, spec_palette_bytes};
use crate::paltex::decoding::spec_decode_op;

verus! {

/// The longest run a single operation can describe.
pub const RUN_MAX: usize = 8;

/// The operation byte for a run of `run_len` pixels of `color_idx` in direction
/// `run_dir`. Out-of-range arguments are clamped: the color to 15, the direction
/// to 1 and the run length to between 1 and `RUN_MAX`.
pub open spec fn spec_encode_op(color_idx: u8, run_dir: u8, run_len: u8) -> u8 {
    let c: int = if color_idx < 15 { color_idx as int } else { 15 };
    let d: int = if run_dir < 1 { run_dir as int } else { 1 };
    let l: int = if run_len == 0 { 0 } else if run_len < 8 { run_len - 1 } else { 7 };
    (c + 128 * d + 16 * l) as u8
}

pub fn encode_op(color_idx: u8, run_dir: u8, run_len: u8) -> (op: u8)
    ensures
        op == spec_encode_op(color_idx, run_dir, run_len),
{
    let c: u8 = if color_idx < 15 { color_idx } else { 15 };
    let d: u8 = if run_dir < 1 { run_dir } else { 1 };
    let capped: u8 = if run_len < RUN_MAX as u8 { run_len } else { RUN_MAX as u8 };
    let l: u8 = if capped == 0 { 0 } else { capped - 1 };
    let mut op: u8 = c & 0b0000_1111;
    op = op | (d << 7);
    op = op | ((l & 0b0000_0111) << 4);
    assert(((c & 15) | (d << 7)) | ((l & 7) << 4) == c + 128 * d + 16 * l) by (bit_vector)
        requires
            c <= 15,
            d <= 1,
            l <= 7,
    ;
    op
}

/// The header describing `paltex`. Width and height are truncated to 16 bits and
/// the palette length to 8 bits.
pub open spec fn spec_header_of(paltex: &PalTex) -> Header {
    Header {
        width: paltex.width as u16,
        height: paltex.height as u16,
        pal_len: paltex.palette@.len() as u8,
    }
}

/// Appends the header and the palette of `paltex` to `output`.
pub fn encode_headers(paltex: &PalTex, output: &mut Vec<u8>)
    ensures
        final(output)@ == old(output)@ + spec_header_of(paltex).spec_bytes() + spec_palette_bytes(
            paltex.palette@,
        ),
{
    let header = Header {
        width: paltex.width as u16,
        height: paltex.height as u16,
        pal_len: paltex.palette.len() as u8,
    };
    let mut header_bytes = header.as_bytes();
    output.append(&mut header_bytes);
    let ghost with_header = output@;
    let mut i: usize = 0;
    while i < paltex.palette.len()
        invariant
            i <= paltex.palette@.len(),
            output@ == with_header + spec_palette_bytes(paltex.palette@.take(i as int)),
        decreases paltex.palette@.len() - i,
    {
        let c: Color = paltex.palette[i];
        let mut color_bytes = c.as_bytes();
        output.append(&mut color_bytes);
        proof {
            let next = paltex.palette@.take(i as int + 1);
            assert(next.drop_last() =~= paltex.palette@.take(i as int));
            assert(next.last() == c);
            assert(output@ =~= with_header + spec_palette_bytes(next));
        }
        i = i + 1;
    }
    assert(paltex.palette@.take(paltex.palette@.len() as int) =~= paltex.palette@);
}

/// The length of the run of `color` that starts with `run` counted pixels at
/// `target` and continues in steps of `step`: every further pixel of the same
/// color extends the path, and the ones not yet drained count, up to `RUN_MAX`.
/// The path ends at the first pixel of another color or at the end of the data.
pub open spec fn spec_count_run(
    data: Seq<u8>,
    drained: Seq<bool>,
    step: nat,
    target: int,
    color: u8,
    run: nat,
) -> nat
    decreases (if 0 <= target < data.len() { data.len() - target } else { 0 }),
{
    if run >= RUN_MAX || step == 0 || target < 0 || target >= data.len() {
        run
    } else {
        let t = target + step;
        if t >= data.len() || t >= drained.len() || data[t] != color {
            run
        } else if !drained[t] {
            spec_count_run(data, drained, step, t, color, run + 1)
        } else {
            spec_count_run(data, drained, step, t, color, run)
        }
    }
}

pub proof fn lemma_count_run_bounds(
    data: Seq<u8>,
    drained: Seq<bool>,
    step: nat,
    target: int,
    color: u8,
    run: nat,
)
    requires
        run <= RUN_MAX,
    ensures
        run <= spec_count_run(data, drained, step, target, color, run) <= RUN_MAX,
    decreases (if 0 <= target < data.len() { data.len() - target } else { 0 }),
{
    if run >= RUN_MAX || step == 0 || target < 0 || target >= data.len() {
    } else {
        let t = target + step;
        if t >= data.len() || t >= drained.len() || data[t] != color {
        } else if !drained[t] {
            lemma_count_run_bounds(data, drained, step, t, color, run + 1);
        } else {
            lemma_count_run_bounds(data, drained, step, t, color, run);
        }
    }
}

/// Measures the run of `color_idx` that starts at `target`, in steps of `stride`.
pub fn test_run_len(data: &[u8], drained: &[bool], stride: usize, target: usize, color_idx: u8) -> (r:
    usize)
    requires
        stride >= 1,
        target < data@.len(),
        drained@.len() == data@.len(),
        data@.len() + stride <= usize::MAX,
    ensures
        r == spec_count_run(data@, drained@, stride as nat, target as int, color_idx, 1),
        1 <= r <= RUN_MAX,
{
    let ghost result = spec_count_run(data@, drained@, stride as nat, target as int, color_idx, 1);
    proof {
        lemma_count_run_bounds(data@, drained@, stride as nat, target as int, color_idx, 1);
    }
    let mut target = target;
    let mut run_len: usize = 1;
    while run_len < RUN_MAX
        invariant_except_break
            target < data@.len(),
            1 <= run_len <= RUN_MAX,
            spec_count_run(data@, drained@, stride as nat, target as int, color_idx, run_len as nat)
                == result,
        invariant
            stride >= 1,
            drained@.len() == data@.len(),
            data@.len() + stride <= usize::MAX,
        ensures
            run_len == result,
        decreases data@.len() - target,
    {
        target = target + stride;
        if target >= data.len() || data[target] != color_idx {
            break ;
        }
        if !drained[target] {
            run_len = run_len + 1;
        }
    }
    run_len
}

/// `drained` after draining, from `target` on in steps of `step`, the next `need`
/// pixels that are not drained yet. The walk stops at the end of the data.
pub open spec fn spec_drain(drained: Seq<bool>, target: int, step: nat, need: nat) -> Seq<bool>
    decreases (if 0 <= target < drained.len() { drained.len() - target } else { 0 }),
{
    if need == 0 || step == 0 || target < 0 || target >= drained.len() {
        drained
    } else if !drained[target] {
        spec_drain(drained.update(target, true), target + step, step, (need - 1) as nat)
    } else {
        spec_drain(drained, target + step, step, need)
    }
}

pub proof fn lemma_drain_monotone(drained: Seq<bool>, target: int, step: nat, need: nat)
    ensures
        spec_drain(drained, target, step, need).len() == drained.len(),
        forall|i: int|
            0 <= i < drained.len() && drained[i] ==> #[trigger] spec_drain(
                drained,
                target,
                step,
                need,
            )[i],
    decreases (if 0 <= target < drained.len() { drained.len() - target } else { 0 }),
{
    if need == 0 || step == 0 || target < 0 || target >= drained.len() {
    } else if !drained[target] {
        lemma_drain_monotone(drained.update(target, true), target + step, step, (need - 1) as nat);
    } else {
        lemma_drain_monotone(drained, target + step, step, need);
    }
}

pub proof fn lemma_drain_first(drained: Seq<bool>, target: int, step: nat, need: nat)
    requires
        need >= 1,
        step >= 1,
        0 <= target < drained.len(),
    ensures
        spec_drain(drained, target, step, need)[target],
{
    if !drained[target] {
        lemma_drain_monotone(drained.update(target, true), target + step, step, (need - 1) as nat);
    } else {
        lemma_drain_monotone(drained, target + step, step, need);
    }
}

/// The number of pixels not drained yet at `target` and after it in steps of
/// `step`, up to the end of the data.
pub open spec fn spec_avail(drained: Seq<bool>, target: int, step: nat) -> nat
    decreases (if 0 <= target < drained.len() { drained.len() - target } else { 0 }),
{
    if step == 0 || target < 0 || target >= drained.len() {
        0
    } else {
        spec_avail(drained, target + step, step) + if drained[target] { 0nat } else { 1nat }
    }
}

/// Marking a pixel at or before `target` drained leaves those from `target + step` on.
pub proof fn lemma_avail_frame(drained: Seq<bool>, target: int, step: nat, j: int)
    requires
        0 <= j < target,
        j < drained.len(),
    ensures
        spec_avail(drained.update(j, true), target, step) == spec_avail(drained, target, step),
    decreases (if 0 <= target < drained.len() { drained.len() - target } else { 0 }),
{
    if step == 0 || target < 0 || target >= drained.len() {
    } else {
        lemma_avail_frame(drained, target + step, step, j);
    }
}

/// A run measured from `target` counts no more pixels than are left to drain
/// after it.
pub proof fn lemma_count_run_avail(
    data: Seq<u8>,
    drained: Seq<bool>,
    step: nat,
    target: int,
    color: u8,
    run: nat,
)
    requires
        drained.len() == data.len(),
        step >= 1,
        0 <= target,
        run <= RUN_MAX,
    ensures
        spec_count_run(data, drained, step, target, color, run) <= run + spec_avail(drained, target + step, step),
    decreases (if 0 <= target < data.len() { data.len() - target } else { 0 }),
{
    if run >= RUN_MAX || target >= data.len() {
    } else {
        let t = target + step;
        if t >= data.len() || data[t] != color {
        } else if !drained[t] {
            lemma_count_run_avail(data, drained, step, t, color, run + 1);
        } else {
            lemma_count_run_avail(data, drained, step, t, color, run);
        }
    }
}

/// The first pixel at or after `cursor` that is not drained, or the end of the data.
pub open spec fn spec_next_undrained(drained: Seq<bool>, cursor: int) -> int
    decreases (if 0 <= cursor < drained.len() { drained.len() - cursor } else { 0 }),
{
    if cursor < 0 || cursor >= drained.len() || !drained[cursor] {
        cursor
    } else {
        spec_next_undrained(drained, cursor + 1)
    }
}

pub proof fn lemma_next_undrained(drained: Seq<bool>, cursor: int)
    ensures
        spec_next_undrained(drained, cursor) >= cursor,
        0 <= cursor ==> (spec_next_undrained(drained, cursor) >= drained.len() || !drained[spec_next_undrained(drained, cursor)]),
        0 <= cursor <= drained.len() ==> spec_next_undrained(drained, cursor) <= drained.len(),
    decreases (if 0 <= cursor < drained.len() { drained.len() - cursor } else { 0 }),
{
    if cursor < 0 || cursor >= drained.len() || !drained[cursor] {
    } else {
        lemma_next_undrained(drained, cursor + 1);
    }
}

/// The operations that encode `data` from `cursor` on, where `drained` marks the
/// pixels already described. Each step measures the runs across and down from the
/// cursor, takes the longer one (down on a tie), drains it, and moves the cursor to
/// the next pixel not yet drained.
pub open spec fn spec_encode_from(data: Seq<u8>, width: nat, drained: Seq<bool>, cursor: int) -> Seq<
    u8,
>
    decreases (if 0 <= cursor < data.len() { data.len() - cursor } else { 0 }),
{
    if cursor < 0 || cursor >= data.len() {
        Seq::empty()
    } else {
        let color = data[cursor];
        let h = spec_count_run(data, drained, 1, cursor, color, 1);
        let v = spec_count_run(data, drained, width, cursor, color, 1);
        let across = h > v;
        let run: nat = if across { h } else { v };
        let step: nat = if across { 1 } else { width };
        let d2 = spec_drain(drained, cursor, step, run);
        let next = spec_next_undrained(d2, cursor + 1);
        proof {
            lemma_next_undrained(d2, cursor + 1);
        }
        seq![spec_encode_op(color, if across { 0 } else { 1 }, run as u8)] + spec_encode_from(
            data,
            width,
            d2,
            next,
        )
    }
}

/// The operations that encode the pixels `data` of an image `width` pixels wide.
pub open spec fn spec_encode_main(data: Seq<u8>, width: nat) -> Seq<u8> {
    spec_encode_from(data, width, Seq::new(data.len(), |i: int| false), 0)
}

/// Appends the operations that encode `data` to `output`.
pub fn encode_main(data: &[u8], width: usize, output: &mut Vec<u8>)
    requires
        width >= 1 || data@.len() == 0,
        data@.len() + width <= usize::MAX,
    ensures
        final(output)@ == old(output)@ + spec_encode_main(data@, width as nat),
{
    let n = data.len();
    let mut drained: Vec<bool> = Vec::new();
    while drained.len() < n
        invariant
            n == data@.len(),
            drained@.len() <= n,
            drained@ =~= Seq::new(drained@.len(), |i: int| false),
        decreases n - drained@.len(),
    {
        drained.push(false);
    }
    let ghost start = output@;
    let ghost total = spec_encode_main(data@, width as nat);
    let mut cursor: usize = 0;
    while cursor < n
        invariant
            n == data@.len(),
            drained@.len() == n,
            cursor <= n,
            cursor < n ==> !drained@[cursor as int],
            width >= 1 || n == 0,
            n + width <= usize::MAX,
            output@.len() >= start.len(),
            output@.subrange(0, start.len() as int) == start,
            output@.subrange(start.len() as int, output@.len() as int) + spec_encode_from(
                data@,
                width as nat,
                drained@,
                cursor as int,
            ) == total,
        decreases n - cursor,
    {
        let color_idx = data[cursor];
        let h_run_len = test_run_len(data, drained.as_slice(), 1, cursor, color_idx);
        let v_run_len = test_run_len(data, drained.as_slice(), width, cursor, color_idx);
        let (run_len, run_dir): (usize, u8) = if h_run_len > v_run_len {
            (h_run_len, 0)
        } else {
            (v_run_len, 1)
        };
        let stride = if run_dir == 0 {
            1
        } else {
            width
        };
        let ghost before = drained@;
        let ghost goal = spec_drain(before, cursor as int, stride as nat, run_len as nat);
        proof {
            lemma_count_run_avail(data@, before, stride as nat, cursor as int, color_idx, 1);
        }
        let mut drain_len: usize = 0;
        let mut target = cursor;
        while drain_len < run_len
            invariant
                n == data@.len(),
                drained@.len() == n,
                drain_len <= run_len,
                stride >= 1,
                n + stride <= usize::MAX,
                spec_drain(drained@, target as int, stride as nat, (run_len - drain_len) as nat)
                    == goal,
                run_len - drain_len <= spec_avail(drained@, target as int, stride as nat),
            decreases (if target < n { n - target } else { 0 }),
        {
            proof {
                if target >= n {
                    assert(spec_avail(drained@, target as int, stride as nat) == 0);
                }
                if !drained@[target as int] {
                    lemma_avail_frame(drained@, target + stride, stride as nat, target as int);
                }
            }
            if !drained[target] {
                drained.set(target, true);
                drain_len = drain_len + 1;
            }
            target = target + stride;
        }
        proof {
            lemma_drain_first(before, cursor as int, stride as nat, run_len as nat);
            lemma_drain_monotone(before, cursor as int, stride as nat, run_len as nat);
            lemma_next_undrained(drained@, cursor as int + 1);
        }
        let ghost done = output@.subrange(start.len() as int, output@.len() as int);
        let op = encode_op(color_idx, run_dir, run_len as u8);
        output.push(op);
        proof {
            assert(output@.subrange(0, start.len() as int) =~= start);
            assert(output@.subrange(start.len() as int, output@.len() as int) =~= done.push(op));
        }
        let ghost old_cursor = cursor;
        while cursor < n && drained[cursor]
            invariant
                drained@.len() == n,
                old_cursor <= cursor <= n,
                drained@[old_cursor as int],
                spec_next_undrained(drained@, cursor as int) == spec_next_undrained(
                    drained@,
                    old_cursor as int + 1,
                ),
            decreases n - cursor,
        {
            cursor = cursor + 1;
        }
        proof {
            lemma_next_undrained(drained@, old_cursor as int + 1);
            assert(done.push(op) + spec_encode_from(data@, width as nat, drained@, cursor as int)
                =~= done + spec_encode_from(data@, width as nat, before, old_cursor as int));
        }
    }
    assert(output@ =~= start + output@.subrange(start.len() as int, output@.len() as int));
}

/// Appends the encoding of `paltex` to `output`: the header, the palette and the
/// operations that describe its pixels.
pub fn encode(paltex: &PalTex, output: &mut Vec<u8>)
    requires
        paltex.width >= 1 || paltex.data@.len() == 0,
        paltex.data@.len() + paltex.width <= usize::MAX,
    ensures
        final(output)@ == old(output)@ + spec_header_of(paltex).spec_bytes() + spec_palette_bytes(
            paltex.palette@,
        ) + spec_encode_main(paltex.data@, paltex.width as nat),
{
    encode_headers(paltex, output);
    encode_main(paltex.data.as_slice(), paltex.width as usize, output);
}

/// Decoding an operation byte and encoding its parts again gives back the same byte.
pub proof fn lemma_op_roundtrip(op: u8)
    ensures
        ({
            let (c, d, l) = spec_decode_op(op);
            spec_encode_op(c, d, l) == op
        }),
{
    assert(op % 16 + 128 * (op / 128) + 16 * ((op / 16) % 8) == op) by (bit_vector);
}

/// Encoding an operation and decoding it gives back its parts, clamped: the color
/// to at most 15, the direction to at most 1 and the run length to 1 through 8.
pub proof fn lemma_op_clamp(color_idx: u8, run_dir: u8, run_len: u8)
    ensures
        spec_decode_op(spec_encode_op(color_idx, run_dir, run_len)) == (
            if color_idx < 15 { color_idx } else { 15u8 },
            if run_dir < 1 { run_dir } else { 1u8 },
            if run_len == 0 { 1u8 } else if run_len < 8 { run_len } else { 8u8 },
        ),
{
    let c: u8 = if color_idx < 15 { color_idx } else { 15 };
    let d: u8 = if run_dir < 1 { run_dir } else { 1 };
    let l: u8 = if run_len == 0 { 0 } else if run_len < 8 { (run_len - 1) as u8 } else { 7 };
    let op: u8 = (c + 128 * d + 16 * l) as u8;
    assert(op % 16 == c && op / 128 == d && (op / 16) % 8 == l) by (bit_vector)
        requires
            c <= 15,
            d <= 1,
            l <= 7,
            op == (c + 128 * d + 16 * l) as u8,
    ;
}

} // verus!
