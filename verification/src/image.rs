//! The image buffer that collects rendered pixels.
//!
//! An image holds a `width` x `height` grid of pixels in row-major order and,
//! beside it, one encoded byte quadruple per pixel, kept in step on every
//! write; raster output wants the flat byte form. The pixel type and its
//! encoding stay abstract here: shading hands both the pixel value and its
//! encoded bytes to `set_pixel`.
//!
//! Render workers deliver pixels in arbitrary interleavings, so the module
//! also proves that filling an image from any stream that carries one fixed
//! value per coordinate gives one and the same image, whatever the order and
//! whatever the interleaving: concurrency can reorder delivery, never change
//! the picture.

use vstd::pervasive::VecAdditionalExecFns;
use vstd::prelude::*;

verus! {

/// One encoded pixel: four bytes, red, green, blue, alpha.
#[derive(Clone, Copy, PartialEq, Eq, Structural, Debug)]
pub struct Rgba8 {
    pub r: u8,
    pub g: u8,
    pub b: u8,
    pub a: u8,
}

/// One finished pixel as a worker delivers it: grid coordinates, the pixel
/// value, and its encoded bytes.
#[derive(Clone, Copy)]
pub struct PixelWrite<P> {
    pub x: usize,
    pub y: usize,
    pub pixel: P,
    pub code: Rgba8,
}

/// Where pixel `(x, y)` lives in a row-major grid of the given width.
pub open spec fn pixel_index(x: int, y: int, width: int) -> int {
    y * width + x
}

/// The four bytes of pixel `k` in a flat byte buffer, as one value.
pub open spec fn byte_group(bytes: Seq<u8>, k: int) -> Rgba8 {
    Rgba8 { r: bytes[4 * k], g: bytes[4 * k + 1], b: bytes[4 * k + 2], a: bytes[4 * k + 3] }
}

/// The pixel grid after the writes in `ws` are applied, first to last.
pub open spec fn apply_writes<P>(pixels: Seq<P>, width: int, ws: Seq<PixelWrite<P>>) -> Seq<P>
    decreases ws.len(),
{
    if ws.len() == 0 {
        pixels
    } else {
        apply_writes(
            pixels.update(pixel_index(ws[0].x as int, ws[0].y as int, width), ws[0].pixel),
            width,
            ws.drop_first(),
        )
    }
}

/// The flat byte buffer after the writes in `ws` are applied, first to last.
pub open spec fn apply_writes_bytes<P>(bytes: Seq<u8>, width: int, ws: Seq<PixelWrite<P>>) -> Seq<
    u8,
>
    decreases ws.len(),
{
    if ws.len() == 0 {
        bytes
    } else {
        apply_writes_bytes(
            bytes.update(4 * pixel_index(ws[0].x as int, ws[0].y as int, width), ws[0].code.r)
                .update(4 * pixel_index(ws[0].x as int, ws[0].y as int, width) + 1, ws[0].code.g)
                .update(4 * pixel_index(ws[0].x as int, ws[0].y as int, width) + 2, ws[0].code.b)
                .update(4 * pixel_index(ws[0].x as int, ws[0].y as int, width) + 3, ws[0].code.a),
            width,
            ws.drop_first(),
        )
    }
}

proof fn lemma_apply_writes_push<P>(pixels: Seq<P>, width: int, ws: Seq<PixelWrite<P>>, w: PixelWrite<P>)
    ensures
        apply_writes(pixels, width, ws.push(w)) == apply_writes(pixels, width, ws).update(
            pixel_index(w.x as int, w.y as int, width),
            w.pixel,
        ),
    decreases ws.len(),
{
    if ws.len() == 0 {
        let single = ws.push(w);
        assert(single[0] == w);
        assert(single.drop_first() =~= Seq::<PixelWrite<P>>::empty());
        assert(apply_writes(pixels, width, single) == apply_writes(
            pixels.update(pixel_index(w.x as int, w.y as int, width), w.pixel),
            width,
            single.drop_first(),
        ));
        assert(apply_writes(pixels, width, ws) == pixels);
    } else {
        assert(ws.push(w)[0] == ws[0]);
        assert(ws.push(w).drop_first() =~= ws.drop_first().push(w));
        let pixels1 = pixels.update(pixel_index(ws[0].x as int, ws[0].y as int, width), ws[0].pixel);
        lemma_apply_writes_push(pixels1, width, ws.drop_first(), w);
        assert(apply_writes(pixels, width, ws.push(w)) == apply_writes(
            pixels1,
            width,
            ws.push(w).drop_first(),
        ));
        assert(apply_writes(pixels, width, ws) == apply_writes(pixels1, width, ws.drop_first()));
    }
}

proof fn lemma_apply_writes_bytes_push<P>(
    bytes: Seq<u8>,
    width: int,
    ws: Seq<PixelWrite<P>>,
    w: PixelWrite<P>,
)
    ensures
        apply_writes_bytes(bytes, width, ws.push(w)) == apply_writes_bytes(bytes, width, ws).update(
            4 * pixel_index(w.x as int, w.y as int, width),
            w.code.r,
        ).update(4 * pixel_index(w.x as int, w.y as int, width) + 1, w.code.g).update(
            4 * pixel_index(w.x as int, w.y as int, width) + 2,
            w.code.b,
        ).update(4 * pixel_index(w.x as int, w.y as int, width) + 3, w.code.a),
    decreases ws.len(),
{
    if ws.len() == 0 {
        let single = ws.push(w);
        assert(single[0] == w);
        assert(single.drop_first() =~= Seq::<PixelWrite<P>>::empty());
        assert(apply_writes_bytes(bytes, width, single) == apply_writes_bytes(
            bytes.update(4 * pixel_index(w.x as int, w.y as int, width), w.code.r).update(
                4 * pixel_index(w.x as int, w.y as int, width) + 1,
                w.code.g,
            ).update(4 * pixel_index(w.x as int, w.y as int, width) + 2, w.code.b).update(
                4 * pixel_index(w.x as int, w.y as int, width) + 3,
                w.code.a,
            ),
            width,
            single.drop_first(),
        ));
        assert(apply_writes_bytes(bytes, width, ws) == bytes);
    } else {
        assert(ws.push(w)[0] == ws[0]);
        assert(ws.push(w).drop_first() =~= ws.drop_first().push(w));
        let bytes1 = bytes.update(
            4 * pixel_index(ws[0].x as int, ws[0].y as int, width),
            ws[0].code.r,
        ).update(4 * pixel_index(ws[0].x as int, ws[0].y as int, width) + 1, ws[0].code.g).update(
            4 * pixel_index(ws[0].x as int, ws[0].y as int, width) + 2,
            ws[0].code.b,
        ).update(4 * pixel_index(ws[0].x as int, ws[0].y as int, width) + 3, ws[0].code.a);
        lemma_apply_writes_bytes_push(bytes1, width, ws.drop_first(), w);
        assert(apply_writes_bytes(bytes, width, ws.push(w)) == apply_writes_bytes(
            bytes1,
            width,
            ws.push(w).drop_first(),
        ));
        assert(apply_writes_bytes(bytes, width, ws) == apply_writes_bytes(
            bytes1,
            width,
            ws.drop_first(),
        ));
    }
}

/// Every write in `ws` targets a pixel inside a `width` x `height` grid.
pub open spec fn writes_in_range<P>(ws: Seq<PixelWrite<P>>, width: int, height: int) -> bool {
    forall|k: int| 0 <= k < ws.len() ==> (#[trigger] ws[k]).x < width && ws[k].y < height
}

/// Every write in `ws` carries the pixel value and byte code that `m` fixes
/// for its coordinates — the per-pixel results of one and the same render.
pub open spec fn writes_match<P>(ws: Seq<PixelWrite<P>>, m: Map<(int, int), (P, Rgba8)>) -> bool {
    forall|k: int|
        0 <= k < ws.len() ==> m.dom().contains(((#[trigger] ws[k]).x as int, ws[k].y as int)) && m[(
            ws[k].x as int,
            ws[k].y as int,
        )] == (ws[k].pixel, ws[k].code)
}

/// Some write in `ws` targets `(x, y)`.
pub open spec fn writes_cover<P>(ws: Seq<PixelWrite<P>>, x: int, y: int) -> bool {
    exists|k: int| 0 <= k < ws.len() && (#[trigger] ws[k]).x == x && ws[k].y == y
}

proof fn lemma_pixel_index_bounds(width: int, height: int, x: int, y: int)
    requires
        0 <= x < width,
        0 <= y < height,
    ensures
        0 <= pixel_index(x, y, width) < width * height,
{
    assert(0 <= y * width + x < width * height) by (nonlinear_arith)
        requires
            0 <= x < width,
            0 <= y < height,
    ;
}

proof fn lemma_pixel_index_injective(width: int, x1: int, y1: int, x2: int, y2: int)
    requires
        0 <= x1 < width,
        0 <= x2 < width,
        0 <= y1,
        0 <= y2,
        !(x1 == x2 && y1 == y2),
    ensures
        pixel_index(x1, y1, width) != pixel_index(x2, y2, width),
{
    assert(y1 * width + x1 != y2 * width + x2) by (nonlinear_arith)
        requires
            0 <= x1 < width,
            0 <= x2 < width,
            0 <= y1,
            0 <= y2,
            !(x1 == x2 && y1 == y2),
    ;
}

proof fn lemma_tail_in_range<P>(ws: Seq<PixelWrite<P>>, width: int, height: int)
    requires
        ws.len() > 0,
        writes_in_range(ws, width, height),
    ensures
        writes_in_range(ws.drop_first(), width, height),
{
    assert forall|k: int|
        0 <= k < ws.drop_first().len() implies (#[trigger] ws.drop_first()[k]).x < width
        && ws.drop_first()[k].y < height by {
        assert(ws.drop_first()[k] == ws[k + 1]);
    }
}

proof fn lemma_apply_writes_len<P>(
    pixels: Seq<P>,
    width: int,
    height: int,
    ws: Seq<PixelWrite<P>>,
)
    requires
        pixels.len() == width * height,
        writes_in_range(ws, width, height),
    ensures
        apply_writes(pixels, width, ws).len() == pixels.len(),
    decreases ws.len(),
{
    if ws.len() > 0 {
        lemma_pixel_index_bounds(width, height, ws[0].x as int, ws[0].y as int);
        lemma_tail_in_range(ws, width, height);
        lemma_apply_writes_len(
            pixels.update(pixel_index(ws[0].x as int, ws[0].y as int, width), ws[0].pixel),
            width,
            height,
            ws.drop_first(),
        );
    }
}

proof fn lemma_apply_writes_bytes_len<P>(
    bytes: Seq<u8>,
    width: int,
    height: int,
    ws: Seq<PixelWrite<P>>,
)
    requires
        bytes.len() == 4 * (width * height),
        writes_in_range(ws, width, height),
    ensures
        apply_writes_bytes(bytes, width, ws).len() == bytes.len(),
    decreases ws.len(),
{
    if ws.len() > 0 {
        lemma_pixel_index_bounds(width, height, ws[0].x as int, ws[0].y as int);
        lemma_tail_in_range(ws, width, height);
        lemma_apply_writes_bytes_len(
            bytes.update(4 * pixel_index(ws[0].x as int, ws[0].y as int, width), ws[0].code.r)
                .update(4 * pixel_index(ws[0].x as int, ws[0].y as int, width) + 1, ws[0].code.g)
                .update(4 * pixel_index(ws[0].x as int, ws[0].y as int, width) + 2, ws[0].code.b)
                .update(4 * pixel_index(ws[0].x as int, ws[0].y as int, width) + 3, ws[0].code.a),
            width,
            height,
            ws.drop_first(),
        );
    }
}

proof fn lemma_tail_facts<P>(
    ws: Seq<PixelWrite<P>>,
    width: int,
    height: int,
    m: Map<(int, int), (P, Rgba8)>,
)
    requires
        ws.len() > 0,
        writes_in_range(ws, width, height),
        writes_match(ws, m),
    ensures
        writes_in_range(ws.drop_first(), width, height),
        writes_match(ws.drop_first(), m),
        forall|x: int, y: int|
            #[trigger] writes_cover(ws.drop_first(), x, y) ==> writes_cover(ws, x, y),
{
    let tail = ws.drop_first();
    assert forall|k: int| 0 <= k < tail.len() implies (#[trigger] tail[k]).x < width && tail[k].y
        < height by {
        assert(tail[k] == ws[k + 1]);
    }
    assert forall|k: int| 0 <= k < tail.len() implies m.dom().contains(
        ((#[trigger] tail[k]).x as int, tail[k].y as int),
    ) && m[(tail[k].x as int, tail[k].y as int)] == (tail[k].pixel, tail[k].code) by {
        assert(tail[k] == ws[k + 1]);
    }
    assert forall|x: int, y: int| #[trigger]
        writes_cover(tail, x, y) implies writes_cover(ws, x, y) by {
        let k = choose|k: int| 0 <= k < tail.len() && (#[trigger] tail[k]).x == x && tail[k].y == y;
        assert(ws[k + 1] == tail[k]);
        assert(0 <= k + 1 < ws.len() && ws[k + 1].x == x && ws[k + 1].y == y);
    }
}

proof fn lemma_apply_writes_other<P>(
    pixels: Seq<P>,
    width: int,
    height: int,
    ws: Seq<PixelWrite<P>>,
    x: int,
    y: int,
)
    requires
        pixels.len() == width * height,
        writes_in_range(ws, width, height),
        !writes_cover(ws, x, y),
        0 <= x < width,
        0 <= y < height,
    ensures
        apply_writes(pixels, width, ws)[pixel_index(x, y, width)] == pixels[pixel_index(
            x,
            y,
            width,
        )],
    decreases ws.len(),
{
    lemma_pixel_index_bounds(width, height, x, y);
    if ws.len() > 0 {
        let w0 = ws[0];
        assert(!(w0.x == x && w0.y == y)) by {
            if w0.x == x && w0.y == y {
                assert(0 <= 0 < ws.len() && ws[0].x == x && ws[0].y == y);
                assert(writes_cover(ws, x, y));
            }
        }
        lemma_pixel_index_injective(width, w0.x as int, w0.y as int, x, y);
        lemma_pixel_index_bounds(width, height, w0.x as int, w0.y as int);
        let pixels1 = pixels.update(pixel_index(w0.x as int, w0.y as int, width), w0.pixel);
        lemma_tail_in_range(ws, width, height);
        assert(!writes_cover(ws.drop_first(), x, y)) by {
            if writes_cover(ws.drop_first(), x, y) {
                let k = choose|k: int|
                    0 <= k < ws.drop_first().len() && (#[trigger] ws.drop_first()[k]).x == x
                        && ws.drop_first()[k].y == y;
                assert(ws[k + 1] == ws.drop_first()[k]);
                assert(writes_cover(ws, x, y));
            }
        }
        lemma_apply_writes_other(pixels1, width, height, ws.drop_first(), x, y);
    }
}

proof fn lemma_apply_writes_bytes_other<P>(
    bytes: Seq<u8>,
    width: int,
    height: int,
    ws: Seq<PixelWrite<P>>,
    x: int,
    y: int,
)
    requires
        bytes.len() == 4 * (width * height),
        writes_in_range(ws, width, height),
        !writes_cover(ws, x, y),
        0 <= x < width,
        0 <= y < height,
    ensures
        byte_group(apply_writes_bytes(bytes, width, ws), pixel_index(x, y, width)) == byte_group(
            bytes,
            pixel_index(x, y, width),
        ),
    decreases ws.len(),
{
    lemma_pixel_index_bounds(width, height, x, y);
    if ws.len() > 0 {
        let w0 = ws[0];
        assert(!(w0.x == x && w0.y == y)) by {
            if w0.x == x && w0.y == y {
                assert(0 <= 0 < ws.len() && ws[0].x == x && ws[0].y == y);
                assert(writes_cover(ws, x, y));
            }
        }
        lemma_pixel_index_injective(width, w0.x as int, w0.y as int, x, y);
        lemma_pixel_index_bounds(width, height, w0.x as int, w0.y as int);
        let bytes1 = bytes.update(
            4 * pixel_index(w0.x as int, w0.y as int, width),
            w0.code.r,
        ).update(4 * pixel_index(w0.x as int, w0.y as int, width) + 1, w0.code.g).update(
            4 * pixel_index(w0.x as int, w0.y as int, width) + 2,
            w0.code.b,
        ).update(4 * pixel_index(w0.x as int, w0.y as int, width) + 3, w0.code.a);
        assert(byte_group(bytes1, pixel_index(x, y, width)) == byte_group(
            bytes,
            pixel_index(x, y, width),
        ));
        lemma_tail_in_range(ws, width, height);
        assert(!writes_cover(ws.drop_first(), x, y)) by {
            if writes_cover(ws.drop_first(), x, y) {
                let k = choose|k: int|
                    0 <= k < ws.drop_first().len() && (#[trigger] ws.drop_first()[k]).x == x
                        && ws.drop_first()[k].y == y;
                assert(ws[k + 1] == ws.drop_first()[k]);
                assert(writes_cover(ws, x, y));
            }
        }
        lemma_apply_writes_bytes_other(bytes1, width, height, ws.drop_first(), x, y);
    }
}

proof fn lemma_apply_writes_pins<P>(
    pixels: Seq<P>,
    width: int,
    height: int,
    ws: Seq<PixelWrite<P>>,
    m: Map<(int, int), (P, Rgba8)>,
    x: int,
    y: int,
)
    requires
        pixels.len() == width * height,
        writes_in_range(ws, width, height),
        writes_match(ws, m),
        writes_cover(ws, x, y),
        0 <= x < width,
        0 <= y < height,
    ensures
        apply_writes(pixels, width, ws)[pixel_index(x, y, width)] == m[(x, y)].0,
    decreases ws.len(),
{
    lemma_pixel_index_bounds(width, height, x, y);
    assert(ws.len() > 0) by {
        let k = choose|k: int| 0 <= k < ws.len() && (#[trigger] ws[k]).x == x && ws[k].y == y;
    }
    let w0 = ws[0];
    lemma_pixel_index_bounds(width, height, w0.x as int, w0.y as int);
    let pixels1 = pixels.update(pixel_index(w0.x as int, w0.y as int, width), w0.pixel);
    lemma_tail_facts(ws, width, height, m);
    if writes_cover(ws.drop_first(), x, y) {
        lemma_apply_writes_pins(pixels1, width, height, ws.drop_first(), m, x, y);
    } else {
        assert(w0.x == x && w0.y == y) by {
            let k = choose|k: int|
                0 <= k < ws.len() && (#[trigger] ws[k]).x == x && ws[k].y == y;
            if k != 0 {
                assert(ws.drop_first()[k - 1] == ws[k]);
                assert(writes_cover(ws.drop_first(), x, y));
            }
        }
        lemma_apply_writes_other(pixels1, width, height, ws.drop_first(), x, y);
        assert(pixels1[pixel_index(x, y, width)] == w0.pixel);
        assert(m[(x, y)] == (w0.pixel, w0.code));
    }
}

proof fn lemma_apply_writes_bytes_pins<P>(
    bytes: Seq<u8>,
    width: int,
    height: int,
    ws: Seq<PixelWrite<P>>,
    m: Map<(int, int), (P, Rgba8)>,
    x: int,
    y: int,
)
    requires
        bytes.len() == 4 * (width * height),
        writes_in_range(ws, width, height),
        writes_match(ws, m),
        writes_cover(ws, x, y),
        0 <= x < width,
        0 <= y < height,
    ensures
        byte_group(apply_writes_bytes(bytes, width, ws), pixel_index(x, y, width)) == m[(x, y)].1,
    decreases ws.len(),
{
    lemma_pixel_index_bounds(width, height, x, y);
    assert(ws.len() > 0) by {
        let k = choose|k: int| 0 <= k < ws.len() && (#[trigger] ws[k]).x == x && ws[k].y == y;
    }
    let w0 = ws[0];
    lemma_pixel_index_bounds(width, height, w0.x as int, w0.y as int);
    let bytes1 = bytes.update(4 * pixel_index(w0.x as int, w0.y as int, width), w0.code.r).update(
        4 * pixel_index(w0.x as int, w0.y as int, width) + 1,
        w0.code.g,
    ).update(4 * pixel_index(w0.x as int, w0.y as int, width) + 2, w0.code.b).update(
        4 * pixel_index(w0.x as int, w0.y as int, width) + 3,
        w0.code.a,
    );
    lemma_tail_facts(ws, width, height, m);
    if writes_cover(ws.drop_first(), x, y) {
        lemma_apply_writes_bytes_pins(bytes1, width, height, ws.drop_first(), m, x, y);
    } else {
        assert(w0.x == x && w0.y == y) by {
            let k = choose|k: int|
                0 <= k < ws.len() && (#[trigger] ws[k]).x == x && ws[k].y == y;
            if k != 0 {
                assert(ws.drop_first()[k - 1] == ws[k]);
                assert(writes_cover(ws.drop_first(), x, y));
            }
        }
        lemma_apply_writes_bytes_other(bytes1, width, height, ws.drop_first(), x, y);
        assert(byte_group(bytes1, pixel_index(x, y, width)) == w0.code);
        assert(m[(x, y)] == (w0.pixel, w0.code));
    }
}

/// Law: rendering is deterministic under any delivery order. If two pixel
/// streams both carry, for every coordinate of the grid, the one pixel value
/// and byte code that `m` fixes — in whatever order, interleaving or
/// repetition the workers produced them — then applying either stream to the
/// same image buffers gives identical pixels and identical encoded bytes:
/// concurrency can only change delivery order, never the picture.
pub proof fn lemma_delivery_order_irrelevant<P>(
    pixels: Seq<P>,
    bytes: Seq<u8>,
    width: int,
    height: int,
    ws1: Seq<PixelWrite<P>>,
    ws2: Seq<PixelWrite<P>>,
    m: Map<(int, int), (P, Rgba8)>,
)
    requires
        width >= 0,
        height >= 0,
        pixels.len() == width * height,
        bytes.len() == 4 * (width * height),
        writes_in_range(ws1, width, height),
        writes_in_range(ws2, width, height),
        writes_match(ws1, m),
        writes_match(ws2, m),
        forall|x: int, y: int|
            0 <= x < width && 0 <= y < height ==> #[trigger] writes_cover(ws1, x, y),
        forall|x: int, y: int|
            0 <= x < width && 0 <= y < height ==> #[trigger] writes_cover(ws2, x, y),
    ensures
        apply_writes(pixels, width, ws1) == apply_writes(pixels, width, ws2),
        apply_writes_bytes(bytes, width, ws1) == apply_writes_bytes(bytes, width, ws2),
{
    let a1 = apply_writes(pixels, width, ws1);
    let a2 = apply_writes(pixels, width, ws2);
    lemma_apply_writes_len(pixels, width, height, ws1);
    lemma_apply_writes_len(pixels, width, height, ws2);
    assert forall|i: int| 0 <= i < pixels.len() implies a1[i] == a2[i] by {
        assert(width > 0 && height > 0) by (nonlinear_arith)
            requires
                0 <= i < width * height,
                width >= 0,
                height >= 0,
        ;
        let x = i % width;
        let y = i / width;
        vstd::arithmetic::div_mod::lemma_mod_bound(i, width);
        vstd::arithmetic::div_mod::lemma_fundamental_div_mod(i, width);
        vstd::arithmetic::div_mod::lemma_multiply_divide_lt(i, width, height);
        vstd::arithmetic::mul::lemma_mul_is_commutative(width, y);
        assert(i == pixel_index(x, y, width));
        lemma_apply_writes_pins(pixels, width, height, ws1, m, x, y);
        lemma_apply_writes_pins(pixels, width, height, ws2, m, x, y);
    }
    assert(a1 =~= a2);
    let b1 = apply_writes_bytes(bytes, width, ws1);
    let b2 = apply_writes_bytes(bytes, width, ws2);
    lemma_apply_writes_bytes_len(bytes, width, height, ws1);
    lemma_apply_writes_bytes_len(bytes, width, height, ws2);
    assert forall|j: int| 0 <= j < bytes.len() implies b1[j] == b2[j] by {
        let i = j / 4;
        let c = j % 4;
        vstd::arithmetic::div_mod::lemma_mod_bound(j, 4);
        vstd::arithmetic::div_mod::lemma_fundamental_div_mod(j, 4);
        assert(i < width * height) by {
            vstd::arithmetic::div_mod::lemma_multiply_divide_lt(j, 4, width * height);
        }
        assert(width > 0 && height > 0) by (nonlinear_arith)
            requires
                0 <= i < width * height,
                width >= 0,
                height >= 0,
        ;
        let x = i % width;
        let y = i / width;
        vstd::arithmetic::div_mod::lemma_mod_bound(i, width);
        vstd::arithmetic::div_mod::lemma_fundamental_div_mod(i, width);
        vstd::arithmetic::div_mod::lemma_multiply_divide_lt(i, width, height);
        vstd::arithmetic::mul::lemma_mul_is_commutative(width, y);
        assert(i == pixel_index(x, y, width));
        lemma_apply_writes_bytes_pins(bytes, width, height, ws1, m, x, y);
        lemma_apply_writes_bytes_pins(bytes, width, height, ws2, m, x, y);
        assert(byte_group(b1, i) == byte_group(b2, i));
        assert(j == 4 * i + c);
        if c == 0 {
            assert(b1[j] == byte_group(b1, i).r && b2[j] == byte_group(b2, i).r);
        } else if c == 1 {
            assert(b1[j] == byte_group(b1, i).g && b2[j] == byte_group(b2, i).g);
        } else if c == 2 {
            assert(b1[j] == byte_group(b1, i).b && b2[j] == byte_group(b2, i).b);
        } else {
            assert(b1[j] == byte_group(b1, i).a && b2[j] == byte_group(b2, i).a);
        }
    }
    assert(b1 =~= b2);
}

/// Indices of the smallest and the largest of the given channel keys, each
/// the first index attaining its extreme — the scan behind the min/max
/// normalization post-pass, over order-preserving keys. Every key weighs in
/// on both extremes: a key that is at once the smallest and the largest seen
/// sets both. `None` only when there are no keys.
pub fn min_max_keys(keys: &Vec<u64>) -> (r: Option<(usize, usize)>)
    ensures
        match r {
            Some((lo, hi)) => {
                &&& lo < keys@.len()
                &&& hi < keys@.len()
                &&& forall|j: int|
                    0 <= j < keys@.len() ==> keys@[lo as int] <= #[trigger] keys@[j] <= keys@[hi as int]
                &&& forall|j: int| 0 <= j < lo ==> keys@[lo as int] < #[trigger] keys@[j]
                &&& forall|j: int| 0 <= j < hi ==> #[trigger] keys@[j] < keys@[hi as int]
            },
            None => keys@.len() == 0,
        },
{
    if keys.len() == 0 {
        return None;
    }
    let mut lo: usize = 0;
    let mut hi: usize = 0;
    let mut j: usize = 1;
    while j < keys.len()
        invariant
            1 <= j <= keys@.len(),
            lo < j,
            hi < j,
            forall|i: int|
                0 <= i < j ==> keys@[lo as int] <= #[trigger] keys@[i] <= keys@[hi as int],
            forall|i: int| 0 <= i < lo ==> keys@[lo as int] < #[trigger] keys@[i],
            forall|i: int| 0 <= i < hi ==> #[trigger] keys@[i] < keys@[hi as int],
        decreases keys@.len() - j,
    {
        if keys[j] < keys[lo] {
            lo = j;
        }
        if keys[j] > keys[hi] {
            hi = j;
        }
        j = j + 1;
    }
    Some((lo, hi))
}

/// An image: a pixel grid and its encoded bytes, in step.
pub struct Image<P> {
    width: usize,
    height: usize,
    pixels: Vec<P>,
    srgba: Vec<u8>,
}

impl<P: Copy> Image<P> {
    /// The image width in pixels.
    pub closed spec fn width(self) -> int {
        self.width as int
    }

    /// The image height in pixels.
    pub closed spec fn height(self) -> int {
        self.height as int
    }

    /// The pixel grid, row-major.
    pub closed spec fn pixel_seq(self) -> Seq<P> {
        self.pixels@
    }

    /// The encoded bytes, four per pixel, row-major.
    pub closed spec fn byte_seq(self) -> Seq<u8> {
        self.srgba@
    }

    /// Both buffers have the size the grid dictates, and that size fits the
    /// machine.
    pub open spec fn wf(self) -> bool {
        &&& self.pixel_seq().len() == self.width() * self.height()
        &&& self.byte_seq().len() == 4 * (self.width() * self.height())
        &&& self.width() * self.height() * 4 <= usize::MAX
    }

    /// Make an image of the given size with every pixel set to `fill`, whose
    /// encoded bytes are `code`.
    pub fn new(width: usize, height: usize, fill: P, code: Rgba8) -> (img: Self)
        requires
            width * height * 4 <= usize::MAX,
        ensures
            img.wf(),
            img.width() == width,
            img.height() == height,
            forall|k: int| 0 <= k < img.pixel_seq().len() ==> img.pixel_seq()[k] == fill,
            forall|k: int|
                0 <= k < width * height ==> #[trigger] byte_group(img.byte_seq(), k) == code,
    {
        proof {
            vstd::arithmetic::mul::lemma_mul_nonnegative(width as int, height as int);
        }
        let num_pixels = width * height;
        let mut pixels: Vec<P> = Vec::new();
        let mut i: usize = 0;
        while i < num_pixels
            invariant
                i <= num_pixels,
                pixels@.len() == i,
                forall|j: int| 0 <= j < i ==> pixels@[j] == fill,
            decreases num_pixels - i,
        {
            pixels.push(fill);
            i = i + 1;
        }
        let mut srgba: Vec<u8> = Vec::new();
        let mut j: usize = 0;
        while j < num_pixels
            invariant
                j <= num_pixels,
                num_pixels * 4 <= usize::MAX,
                srgba@.len() == 4 * j,
                forall|k: int| 0 <= k < j ==> #[trigger] byte_group(srgba@, k) == code,
            decreases num_pixels - j,
        {
            let ghost old_srgba = srgba@;
            srgba.push(code.r);
            srgba.push(code.g);
            srgba.push(code.b);
            srgba.push(code.a);
            assert forall|k: int| 0 <= k < j + 1 implies #[trigger] byte_group(srgba@, k)
                == code by {
                if k < j {
                    assert(byte_group(old_srgba, k) == code);
                    assert(srgba@[4 * k] == old_srgba[4 * k]);
                    assert(srgba@[4 * k + 1] == old_srgba[4 * k + 1]);
                    assert(srgba@[4 * k + 2] == old_srgba[4 * k + 2]);
                    assert(srgba@[4 * k + 3] == old_srgba[4 * k + 3]);
                } else {
                    assert(srgba@[4 * k] == code.r);
                    assert(srgba@[4 * k + 1] == code.g);
                    assert(srgba@[4 * k + 2] == code.b);
                    assert(srgba@[4 * k + 3] == code.a);
                }
            }
            j = j + 1;
        }
        Image { width, height, pixels, srgba }
    }

    /// Return a tuple containing the width and height of the image.
    pub fn get_size(&self) -> (size: (usize, usize))
        ensures
            size.0 == self.width(),
            size.1 == self.height(),
    {
        (self.width, self.height)
    }

    /// Set pixel `(x, y)` to `pixel`, whose encoded bytes are `code`. Both the
    /// pixel grid and the byte buffer are updated.
    pub fn set_pixel(&mut self, x: usize, y: usize, pixel: P, code: Rgba8)
        requires
            old(self).wf(),
            x < old(self).width(),
            y < old(self).height(),
        ensures
            final(self).wf(),
            final(self).width() == old(self).width(),
            final(self).height() == old(self).height(),
            final(self).pixel_seq() == old(self).pixel_seq().update(
                pixel_index(x as int, y as int, old(self).width()),
                pixel,
            ),
            final(self).byte_seq() == old(self).byte_seq().update(
                4 * pixel_index(x as int, y as int, old(self).width()),
                code.r,
            ).update(4 * pixel_index(x as int, y as int, old(self).width()) + 1, code.g).update(
                4 * pixel_index(x as int, y as int, old(self).width()) + 2,
                code.b,
            ).update(4 * pixel_index(x as int, y as int, old(self).width()) + 3, code.a),
    {
        assert(y * self.width + x < self.width * self.height) by (nonlinear_arith)
            requires
                x < self.width,
                y < self.height,
        ;
        let offset = y * self.width + x;
        let base = 4 * offset;
        self.pixels.set(offset, pixel);
        self.srgba.set(base, code.r);
        self.srgba.set(base + 1, code.g);
        self.srgba.set(base + 2, code.b);
        self.srgba.set(base + 3, code.a);
    }

    /// Replace the pixel value of `(x, y)` alone: the encoded bytes keep
    /// their last state. Post-processing passes that sweep the whole grid
    /// (normalization, clamping) use this and leave re-encoding to the next
    /// per-pixel write or to the caller.
    pub fn set_pixel_value(&mut self, x: usize, y: usize, pixel: P)
        requires
            old(self).wf(),
            x < old(self).width(),
            y < old(self).height(),
        ensures
            final(self).wf(),
            final(self).width() == old(self).width(),
            final(self).height() == old(self).height(),
            final(self).pixel_seq() == old(self).pixel_seq().update(
                pixel_index(x as int, y as int, old(self).width()),
                pixel,
            ),
            final(self).byte_seq() == old(self).byte_seq(),
    {
        assert(y * self.width + x < self.width * self.height) by (nonlinear_arith)
            requires
                x < self.width,
                y < self.height,
        ;
        let offset = y * self.width + x;
        self.pixels.set(offset, pixel);
    }

    /// Read pixel `(x, y)`.
    pub fn get_pixel(&self, x: usize, y: usize) -> (pixel: P)
        requires
            self.wf(),
            x < self.width(),
            y < self.height(),
        ensures
            pixel == self.pixel_seq()[pixel_index(x as int, y as int, self.width())],
    {
        assert(y * self.width + x < self.width * self.height) by (nonlinear_arith)
            requires
                x < self.width,
                y < self.height,
        ;
        let offset = y * self.width + x;
        self.pixels[offset]
    }

    /// Write a batch of delivered pixels into the image, in the order the
    /// batch holds them.
    pub fn update(&mut self, writes: &Vec<PixelWrite<P>>)
        requires
            old(self).wf(),
            forall|k: int|
                0 <= k < writes@.len() ==> (#[trigger] writes@[k]).x < old(self).width()
                    && writes@[k].y < old(self).height(),
        ensures
            final(self).wf(),
            final(self).width() == old(self).width(),
            final(self).height() == old(self).height(),
            final(self).pixel_seq() == apply_writes(
                old(self).pixel_seq(),
                old(self).width(),
                writes@,
            ),
            final(self).byte_seq() == apply_writes_bytes(
                old(self).byte_seq(),
                old(self).width(),
                writes@,
            ),
    {
        let ghost pixels0 = self.pixel_seq();
        let ghost bytes0 = self.byte_seq();
        let ghost image_width = self.width();
        let ghost image_height = self.height();
        let mut k: usize = 0;
        while k < writes.len()
            invariant
                k <= writes@.len(),
                self.wf(),
                self.width() == image_width,
                self.height() == image_height,
                forall|i: int|
                    0 <= i < writes@.len() ==> (#[trigger] writes@[i]).x < image_width
                        && writes@[i].y < image_height,
                self.pixel_seq() == apply_writes(
                    pixels0,
                    image_width,
                    writes@.subrange(0, k as int),
                ),
                self.byte_seq() == apply_writes_bytes(
                    bytes0,
                    image_width,
                    writes@.subrange(0, k as int),
                ),
            decreases writes@.len() - k,
        {
            let w = writes[k];
            let ghost prefix = writes@.subrange(0, k as int);
            self.set_pixel(w.x, w.y, w.pixel, w.code);
            proof {
                assert(writes@.subrange(0, k + 1 as int) =~= prefix.push(writes@[k as int]));
                lemma_apply_writes_push(pixels0, image_width, prefix, writes@[k as int]);
                lemma_apply_writes_bytes_push(bytes0, image_width, prefix, writes@[k as int]);
            }
            k = k + 1;
        }
        proof {
            assert(writes@.subrange(0, writes@.len() as int) =~= writes@);
        }
    }

    /// Get the encoded byte vector, four bytes per pixel in row-major order.
    pub fn get_srgba_vector(&self) -> (bytes: &Vec<u8>)
        ensures
            bytes@ == self.byte_seq(),
    {
        &self.srgba
    }
}

} // verus!
