//! Scanline unfiltering (PNG §9) and the Adam7 interlacing geometry (§8.2).

use vstd::prelude::*;

verus! {

/// Absolute value.
pub open spec fn abs_int(v: int) -> int {
    if v < 0 { -v } else { v }
}

/// PNG's Paeth predictor: whichever of left `a`, up `b` and up-left `c` is
/// closest to `a + b - c`, ties broken in that order.
pub open spec fn paeth_spec(a: u8, b: u8, c: u8) -> u8 {
    let p = a + b - c;
    let pa = abs_int(p - a);
    let pb = abs_int(p - b);
    let pc = abs_int(p - c);
    if pa <= pb && pa <= pc { a } else if pb <= pc { b } else { c }
}

/// `(raw + predictor) mod 256`.
pub open spec fn add_mod(raw: u8, predictor: int) -> u8 {
    ((raw + predictor) % 256) as u8
}

/// The reconstructed byte at output position `j` of an image whose rows are
/// `stride` bytes of `bpp`-byte pixels, each row preceded in `data` by its
/// filter type: `Recon = Filt + predictor(Recon(left), Recon(up), Recon(up-left))`.
pub open spec fn recon(data: Seq<u8>, stride: int, bpp: int, j: int) -> u8
    decreases j,
{
    if bpp <= 0 || stride <= 0 || j < 0 {
        0
    } else {
        let y = j / stride;
        let i = j % stride;
        let raw = data[y * (stride + 1) + 1 + i];
        let a: u8 = if i >= bpp && j >= bpp { recon(data, stride, bpp, j - bpp) } else { 0 };
        let b: u8 = if y > 0 && j >= stride { recon(data, stride, bpp, j - stride) } else { 0 };
        let c: u8 = if i >= bpp && y > 0 && j >= stride + bpp { recon(data, stride, bpp, j - stride - bpp) } else { 0 };
        apply_filter(data[y * (stride + 1)], raw, a, b, c)
    }
}

/// Undo one filtered byte given its left, up and up-left neighbours.
pub open spec fn apply_filter(kind: u8, raw: u8, a: u8, b: u8, c: u8) -> u8 {
    if kind == 0 {
        raw
    } else if kind == 1 {
        add_mod(raw, a as int)
    } else if kind == 2 {
        add_mod(raw, b as int)
    } else if kind == 3 {
        add_mod(raw, (a + b) / 2)
    } else {
        add_mod(raw, paeth_spec(a, b, c) as int)
    }
}

fn reconstruct_byte(kind: u8, raw: u8, a: u8, b: u8, c: u8) -> (result: u8)
    ensures
        result == apply_filter(kind, raw, a, b, c),
{
    if kind == 0 {
        raw
    } else if kind == 1 {
        raw.wrapping_add(a)
    } else if kind == 2 {
        raw.wrapping_add(b)
    } else if kind == 3 {
        raw.wrapping_add(((a as u16 + b as u16) / 2) as u8)
    } else {
        raw.wrapping_add(paeth(a, b, c))
    }
}

/// Position `y * stride + i` of the output unfolds to its row's filter.
proof fn lemma_recon_step(data: Seq<u8>, stride: int, bpp: int, y: int, i: int)
    requires
        stride > 0,
        bpp > 0,
        y >= 0,
        0 <= i < stride,
    ensures
        ({
            let j = y * stride + i;
            recon(data, stride, bpp, j) == apply_filter(
                data[y * (stride + 1)],
                data[y * (stride + 1) + 1 + i],
                if i >= bpp { recon(data, stride, bpp, j - bpp) } else { 0 },
                if y > 0 { recon(data, stride, bpp, j - stride) } else { 0 },
                if i >= bpp && y > 0 { recon(data, stride, bpp, j - stride - bpp) } else { 0 },
            )
        }),
{
    let j = y * stride + i;
    vstd::arithmetic::div_mod::lemma_fundamental_div_mod_converse(j, stride, y, i);
    if y > 0 {
        assert(y * stride >= stride) by (nonlinear_arith) requires y >= 1, stride >= 0;
    }
}

/// Whether every one of the first `rows` rows has a filter type 0–4.
pub open spec fn filters_known(data: Seq<u8>, stride: int, rows: int) -> bool {
    forall|y: int| 0 <= y < rows ==> #[trigger] data[y * (stride + 1)] <= 4
}

/// PNG's Paeth predictor.
pub fn paeth(a: u8, b: u8, c: u8) -> (result: u8)
    ensures
        result == paeth_spec(a, b, c),
{
    let (a, b, c) = (a as i32, b as i32, c as i32);
    let p = a + b - c;
    let pa = if p - a < 0 { a - p } else { p - a };
    let pb = if p - b < 0 { b - p } else { p - b };
    let pc = if p - c < 0 { c - p } else { p - c };
    if pa <= pb && pa <= pc {
        a as u8
    } else if pb <= pc {
        b as u8
    } else {
        c as u8
    }
}

/// Undo the per-scanline filters of `height` rows of `width` pixels of `bpp`
/// bytes. `None` if `data` is shorter than the `(width * bpp + 1) * height`
/// bytes that needs (or that size overflows), or a row names a filter type
/// other than 0–4; otherwise the reconstructed bytes, filter bytes removed.
pub fn unfilter(data: &[u8], width: usize, height: usize, bpp: usize) -> (result: Option<Vec<u8>>)
    ensures
        (width == 0 || height == 0) ==> (result is Some && result->0@.len() == 0),
        (width > 0 && height > 0) ==> (result is Some <==> (
            width * bpp + 1 <= usize::MAX
            && (width * bpp + 1) * height <= usize::MAX
            && (width * bpp + 1) * height <= data@.len()
            && filters_known(data@, width * bpp, height as int))),
        result matches Some(out) ==> out@.len() == width * bpp * height
            && forall|j: int| 0 <= j < out@.len() ==> #[trigger] out@[j] == recon(data@, width * bpp, bpp as int, j),
{
    if width == 0 || height == 0 {
        assert(width * bpp * height == 0) by (nonlinear_arith) requires width == 0 || height == 0;
        return Some(Vec::new());
    }
    let stride = match width.checked_mul(bpp) {
        Some(s) => s,
        None => return None,
    };
    let row_bytes = match stride.checked_add(1) {
        Some(r) => r,
        None => return None,
    };
    let needed = match row_bytes.checked_mul(height) {
        Some(n) => n,
        None => return None,
    };
    if needed > data.len() {
        return None;
    }
    assert(stride * height <= needed) by (nonlinear_arith) requires needed == (stride + 1) * height, height > 0;
    let mut out: Vec<u8> = vec![0u8; stride * height];
    let mut y: usize = 0;
    while y < height
        invariant
            stride == width * bpp, row_bytes == stride + 1, needed == row_bytes * height,
            stride * height <= needed,
            needed <= data@.len(), height > 0, width > 0,
            y <= height,
            out@.len() == stride * height,
            filters_known(data@, stride as int, y as int),
            forall|j: int| 0 <= j < y * stride ==> #[trigger] out@[j] == recon(data@, stride as int, bpp as int, j),
        decreases height - y,
    {
        proof {
            assert((y + 1) * row_bytes <= needed) by (nonlinear_arith) requires y < height, needed == row_bytes * height;
            assert((y + 1) * row_bytes == y * row_bytes + row_bytes) by (nonlinear_arith);
            assert((y + 1) * stride <= stride * height) by (nonlinear_arith) requires y < height;
            assert((y + 1) * stride == y * stride + stride) by (nonlinear_arith);
            assert(0 <= y * stride) by (nonlinear_arith) requires y >= 0;
        }
        let filter_type = data[y * row_bytes];
        if filter_type > 4 {
            proof {
                assert(!filters_known(data@, stride as int, height as int)) by {
                    assert(data@[y * (stride + 1)] > 4);
                }
            }
            return None;
        }
        let mut i: usize = 0;
        while i < stride
            invariant
                stride == width * bpp, row_bytes == stride + 1, needed == row_bytes * height,
                needed <= data@.len(), height > 0, width > 0,
                y < height,
                stride * height <= needed,
                (y + 1) * row_bytes <= needed,
                (y + 1) * stride <= stride * height,
                (y + 1) * stride == y * stride + stride,
                i <= stride,
                out@.len() == stride * height,
                filter_type == data@[y * (stride + 1)],
                filter_type <= 4,
                forall|j: int| 0 <= j < y * stride + i ==> #[trigger] out@[j] == recon(data@, stride as int, bpp as int, j),
            decreases stride - i,
        {
            proof {
                assert(y * row_bytes + 1 + i < needed) by (nonlinear_arith)
                    requires (y + 1) * row_bytes <= needed, i < stride, row_bytes == stride + 1;
                if y > 0 {
                    assert(y * stride >= stride) by (nonlinear_arith) requires y >= 1, stride >= 0;
                }
                lemma_recon_step(data@, stride as int, bpp as int, y as int, i as int);
            }
            let j = y * stride + i;
            let raw = data[y * row_bytes + 1 + i];
            let left: u8 = if i >= bpp { out[j - bpp] } else { 0 };
            let up: u8 = if y > 0 { out[j - stride] } else { 0 };
            let up_left: u8 = if i >= bpp && y > 0 { out[j - stride - bpp] } else { 0 };
            let recon_byte = reconstruct_byte(filter_type, raw, left, up, up_left);
            out.set(j, recon_byte);
            i += 1;
        }
        y += 1;
    }
    proof {
        assert(y * stride == width * bpp * height) by (nonlinear_arith) requires y == height, stride == width * bpp;
    }
    Some(out)
}

/// One Adam7 pass: the pixel it starts at and its step along each axis.
#[derive(Debug, Clone, Copy, PartialEq, Eq, Structural)]
pub struct Adam7Pass {
    pub x0: u32,
    pub y0: u32,
    pub dx: u32,
    pub dy: u32,
}

/// The seven passes in transmission order.
pub open spec fn adam7_spec(i: int) -> Adam7Pass {
    if i == 0 {
        Adam7Pass { x0: 0, y0: 0, dx: 8, dy: 8 }
    } else if i == 1 {
        Adam7Pass { x0: 4, y0: 0, dx: 8, dy: 8 }
    } else if i == 2 {
        Adam7Pass { x0: 0, y0: 4, dx: 4, dy: 8 }
    } else if i == 3 {
        Adam7Pass { x0: 2, y0: 0, dx: 4, dy: 4 }
    } else if i == 4 {
        Adam7Pass { x0: 0, y0: 2, dx: 2, dy: 4 }
    } else if i == 5 {
        Adam7Pass { x0: 1, y0: 0, dx: 2, dy: 2 }
    } else {
        Adam7Pass { x0: 0, y0: 1, dx: 1, dy: 2 }
    }
}

/// The seven Adam7 passes, in transmission order.
pub fn adam7_passes() -> (result: [Adam7Pass; 7])
    ensures
        forall|i: int| 0 <= i < 7 ==> #[trigger] result@[i] == adam7_spec(i),
{
    [
        Adam7Pass { x0: 0, y0: 0, dx: 8, dy: 8 },
        Adam7Pass { x0: 4, y0: 0, dx: 8, dy: 8 },
        Adam7Pass { x0: 0, y0: 4, dx: 4, dy: 8 },
        Adam7Pass { x0: 2, y0: 0, dx: 4, dy: 4 },
        Adam7Pass { x0: 0, y0: 2, dx: 2, dy: 4 },
        Adam7Pass { x0: 1, y0: 0, dx: 2, dy: 2 },
        Adam7Pass { x0: 0, y0: 1, dx: 1, dy: 2 },
    ]
}

/// How many positions `start, start + step, ...` lie below `size`.
pub open spec fn pass_extent(size: int, start: int, step: int) -> int {
    if size > start { (size - start + step - 1) / step } else { 0 }
}

/// How many pixels of a `width × height` image fall in `pass`, per axis.
pub fn pass_dims(pass: &Adam7Pass, width: u32, height: u32) -> (result: (u32, u32))
    requires
        pass.dx > 0,
        pass.dy > 0,
    ensures
        result.0 == pass_extent(width as int, pass.x0 as int, pass.dx as int),
        result.1 == pass_extent(height as int, pass.y0 as int, pass.dy as int),
{
    let w = if width > pass.x0 {
        let n = width - pass.x0;
        proof { lemma_quotient_room(n as int, pass.dx as int); }
        n / pass.dx + if n % pass.dx != 0 { 1 } else { 0 }
    } else {
        0
    };
    let h = if height > pass.y0 {
        let n = height - pass.y0;
        proof { lemma_quotient_room(n as int, pass.dy as int); }
        n / pass.dy + if n % pass.dy != 0 { 1 } else { 0 }
    } else {
        0
    };
    proof {
        lemma_ceil_div((width - pass.x0) as int, pass.dx as int);
        lemma_ceil_div((height - pass.y0) as int, pass.dy as int);
    }
    (w, h)
}

/// An inexact quotient leaves room to round up within `u32`.
proof fn lemma_quotient_room(n: int, d: int)
    requires
        0 <= n <= u32::MAX,
        d > 0,
    ensures
        n % d != 0 ==> n / d < u32::MAX,
        n / d <= u32::MAX,
{
    if d == 1 {
        assert(n % 1 == 0);
        assert(n / 1 == n);
    } else {
        assert(n / d <= n / 2) by (nonlinear_arith) requires d >= 2, n >= 0;
    }
    assert(n / d <= n) by (nonlinear_arith) requires d >= 1, n >= 0;
}

/// Rounding up by adding `d - 1` is the same as bumping an inexact quotient.
proof fn lemma_ceil_div(n: int, d: int)
    requires
        d > 0,
    ensures
        n >= 0 ==> (n + d - 1) / d == n / d + if n % d != 0 { 1int } else { 0 },
{
    if n >= 0 {
        vstd::arithmetic::div_mod::lemma_fundamental_div_mod(n, d);
        let q = n / d;
        let r = n % d;
        assert(d * q == q * d) by (nonlinear_arith);
        assert((q + 1) * d == q * d + d) by (nonlinear_arith);
        if r == 0 {
            vstd::arithmetic::div_mod::lemma_fundamental_div_mod_converse(n + d - 1, d, q, d - 1);
        } else {
            vstd::arithmetic::div_mod::lemma_fundamental_div_mod_converse(n + d - 1, d, q + 1, r - 1);
        }
    }
}

} // verus!
