//! The raster fill: every pixel of a `width x height` grid gets the
//! grayscale intensity of its escape result, row by row.
use vstd::prelude::*;

verus! {

/// The escape-iteration budget used for images: every count below it
/// keeps a distinct shade.
pub const DEFAULT_LIMIT: u32 = 255;

/// The grayscale byte for one escape result. A point that stays bounded
/// is black; one that escapes after `n` iterations is `255 - n`, floored
/// at zero, so slower escape renders darker.
pub open spec fn intensity_spec(escape: Option<u32>) -> u8 {
    match escape {
        None => 0,
        Some(n) => if n >= 255 {
            0
        } else {
            (255 - n) as u8
        },
    }
}

/// The grayscale byte for one escape result.
pub fn intensity(escape: Option<u32>) -> (r: u8)
    ensures
        r == intensity_spec(escape),
{
    match escape {
        None => 0,
        Some(n) => if n >= 255 {
            0
        } else {
            (255 - n) as u8
        },
    }
}

/// Row-major position of the pixel at column `x` and row `y` of a raster
/// `width` columns wide.
pub open spec fn pixel_index(width: u32, x: u32, y: u32) -> int {
    y as int * width as int + x as int
}

/// The byte of `buf` for the pixel at column `x`, row `y` is the intensity
/// of one of the escape results that `escape_at(x, y)` may return.
pub open spec fn pixel_rendered<F: Fn(u32, u32) -> Option<u32>>(
    escape_at: F,
    width: u32,
    buf: Seq<u8>,
    x: u32,
    y: u32,
) -> bool {
    exists|e: Option<u32>|
        #[trigger] escape_at.ensures((x, y), e) && buf[pixel_index(width, x, y)]
            == intensity_spec(e)
}

/// `buf` is the intensity buffer of a `bounds.0 x bounds.1` raster whose
/// pixel at column `x`, row `y` has one of the escape results that
/// `escape_at(x, y)` may return.
pub open spec fn renders<F: Fn(u32, u32) -> Option<u32>>(
    bounds: (u32, u32),
    escape_at: F,
    buf: Seq<u8>,
) -> bool {
    &&& buf.len() == bounds.0 as int * bounds.1 as int
    &&& forall|x: u32, y: u32|
        x < bounds.0 && y < bounds.1 ==> #[trigger] pixel_rendered(escape_at, bounds.0, buf, x, y)
}

/// Fills the intensity buffer of a `bounds.0 x bounds.1` raster, asking
/// `escape_at` for the escape result of each pixel.
pub fn render<F: Fn(u32, u32) -> Option<u32>>(bounds: (u32, u32), escape_at: &F) -> (r: Vec<u8>)
    requires
        bounds.0 as int * bounds.1 as int <= usize::MAX,
        forall|x: u32, y: u32| x < bounds.0 && y < bounds.1 ==> escape_at.requires((x, y)),
    ensures
        renders(bounds, *escape_at, r@),
{
    let (width, height) = bounds;
    let mut buf: Vec<u8> = Vec::new();
    let mut y: u32 = 0;
    while y < height
        invariant
            bounds == (width, height),
            width as int * height as int <= usize::MAX,
            forall|x: u32, y: u32| x < width && y < height ==> escape_at.requires((x, y)),
            y <= height,
            buf@.len() == y as int * width as int,
            forall|px: u32, py: u32|
                px < width && py < y ==> #[trigger] pixel_rendered(*escape_at, width, buf@, px, py),
        decreases height - y,
    {
        let mut x: u32 = 0;
        while x < width
            invariant
                bounds == (width, height),
                width as int * height as int <= usize::MAX,
                forall|x: u32, y: u32| x < width && y < height ==> escape_at.requires((x, y)),
                y < height,
                x <= width,
                buf@.len() == y as int * width as int + x as int,
                forall|px: u32, py: u32|
                    (py < y && px < width) || (py == y && px < x) ==> #[trigger] pixel_rendered(
                        *escape_at,
                        width,
                        buf@,
                        px,
                        py,
                    ),
            decreases width - x,
        {
            proof {
                assert(buf@.len() < width as int * height as int) by (nonlinear_arith)
                    requires
                        buf@.len() == y as int * width as int + x as int,
                        x < width,
                        y < height,
                ;
            }
            let e = escape_at(x, y);
            let ghost before = buf@;
            buf.push(intensity(e));
            proof {
                assert forall|px: u32, py: u32|
                    (py < y && px < width) || (py == y && px < x + 1) implies #[trigger] pixel_rendered(
                        *escape_at,
                        width,
                        buf@,
                        px,
                        py,
                    ) by {
                    if py == y && px == x {
                        assert(escape_at.ensures((px, py), e));
                        assert(buf@[pixel_index(width, px, py)] == intensity_spec(e));
                    } else {
                        assert(pixel_index(width, px, py) < before.len()) by (nonlinear_arith)
                            requires
                                (py < y && px < width) || (py == y && px < x),
                                before.len() == y as int * width as int + x as int,
                                pixel_index(width, px, py) == py as int * width as int
                                    + px as int,
                        ;
                        assert(pixel_rendered(*escape_at, width, before, px, py));
                        let f = choose|f: Option<u32>|
                            #[trigger] escape_at.ensures((px, py), f) && before[pixel_index(
                                width,
                                px,
                                py,
                            )] == intensity_spec(f);
                        assert(escape_at.ensures((px, py), f));
                        assert(buf@[pixel_index(width, px, py)] == before[pixel_index(width, px, py)]);
                    }
                }
            }
            x = x + 1;
        }
        proof {
            assert(buf@.len() == (y + 1) as int * width as int) by (nonlinear_arith)
                requires
                    buf@.len() == y as int * width as int + width as int,
            ;
        }
        y = y + 1;
    }
    proof {
        assert(buf@.len() == width as int * height as int) by (nonlinear_arith)
            requires
                buf@.len() == height as int * width as int,
        ;
    }
    buf
}

/// Rendering is a function of its inputs: where every pixel has a single
/// possible escape result, two buffers rendered for the same raster are
/// identical.
pub proof fn lemma_render_deterministic<F: Fn(u32, u32) -> Option<u32>>(
    bounds: (u32, u32),
    escape_at: F,
    a: Seq<u8>,
    b: Seq<u8>,
)
    requires
        forall|x: u32, y: u32, e1: Option<u32>, e2: Option<u32>|
            #[trigger] escape_at.ensures((x, y), e1) && #[trigger] escape_at.ensures((x, y), e2)
                ==> e1 == e2,
        renders(bounds, escape_at, a),
        renders(bounds, escape_at, b),
    ensures
        a == b,
{
    assert forall|i: int| 0 <= i < a.len() implies a[i] == b[i] by {
        let w = bounds.0;
        let h = bounds.1;
        assert(w > 0) by (nonlinear_arith)
            requires
                0 <= i < w as int * h as int,
        ;
        let xi = i % w as int;
        let yi = i / w as int;
        assert(0 <= xi < w && 0 <= yi < h && yi * w + xi == i) by (nonlinear_arith)
            requires
                0 <= i < w as int * h as int,
                w > 0,
                xi == i % w as int,
                yi == i / w as int,
        ;
        let x = xi as u32;
        let y = yi as u32;
        assert(pixel_index(w, x, y) == i);
        assert(pixel_rendered(escape_at, w, a, x, y));
        assert(pixel_rendered(escape_at, w, b, x, y));
    }
    assert(a =~= b);
}

/// A point that never escapes is rendered no lighter than any other, and
/// of two escaping points the one that escapes later is no lighter.
pub proof fn lemma_intensity_order(m: u32, n: u32)
    ensures
        intensity_spec(None) <= intensity_spec(Some(n)),
        m <= n ==> intensity_spec(Some(n)) <= intensity_spec(Some(m)),
        n < 255 ==> intensity_spec(Some(n)) > intensity_spec(None),
{
}

} // verus!
