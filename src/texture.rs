//! The integer side of texture lookups: which square of a checker a point
//! falls on, and which texel of a bitmap it reads.
use vstd::prelude::*;

verus! {

/// Whether `v` is even.
pub fn is_even(v: u32) -> (r: bool)
    ensures
        r == (v % 2 == 0),
{
    v % 2 == 0
}

/// Whether the checker square in column `x` and row `y` shows the checker's
/// even colour: it does where the two have the same parity.
pub fn checker_shows_even(x: u32, y: u32) -> (r: bool)
    ensures
        r == ((x % 2 == 0) == (y % 2 == 0)),
{
    match (is_even(x), is_even(y)) {
        (true, true) => true,
        (false, false) => true,
        _ => false,
    }
}

/// A texel index along a side of `size` texels, clamped to the last texel.
pub fn clamp_texel(i: u32, size: u32) -> (r: u32)
    requires
        size > 0,
    ensures
        r == if i < size {
            i
        } else {
            (size - 1) as u32
        },
        r < size,
{
    if i < size - 1 {
        i
    } else {
        size - 1
    }
}


/// A decoded raster image: `width` by `height` texels, row by row from the
/// top left, each an RGB triple.
#[derive(Clone, Debug)]
pub struct Bitmap {
    width: u32,
    height: u32,
    pixels: Vec<(u8, u8, u8)>,
}

impl Bitmap {
    /// The width and the height.
    pub closed spec fn dims(&self) -> (nat, nat) {
        (self.width as nat, self.height as nat)
    }

    /// The texels, row by row.
    pub closed spec fn texels(&self) -> Seq<(u8, u8, u8)> {
        self.pixels@
    }

    /// The bitmap has at least one texel, and one for each place.
    pub closed spec fn wf(&self) -> bool {
        &&& self.width > 0
        &&& self.height > 0
        &&& self.pixels@.len() == self.width as int * self.height as int
    }

    /// The texel in column `i` of row `j`.
    pub open spec fn texel_at(&self, i: int, j: int) -> (u8, u8, u8) {
        self.texels()[j * self.dims().0 + i]
    }

    /// A bitmap of `width` by `height` texels; `None` unless both are
    /// positive and `pixels` holds exactly one texel for each place.
    pub fn new(width: u32, height: u32, pixels: Vec<(u8, u8, u8)>) -> (r: Option<Bitmap>)
        ensures
            r is Some <==> width > 0 && height > 0 && pixels@.len() == width as int
                * height as int,
            r matches Some(b) ==> b.wf() && b.dims() == (width as nat, height as nat)
                && b.texels() == pixels@,
    {
        proof {
            assert((width as int) * (height as int) <= u64::MAX) by (nonlinear_arith)
                requires
                    width <= u32::MAX,
                    height <= u32::MAX,
            ;
        }
        if width == 0 || height == 0 || pixels.len() as u64 != width as u64 * height as u64 {
            return None;
        }
        Some(Bitmap { width, height, pixels })
    }

    pub fn width(&self) -> (r: u32)
        ensures
            r == self.dims().0,
    {
        self.width
    }

    pub fn height(&self) -> (r: u32)
        ensures
            r == self.dims().1,
    {
        self.height
    }

    /// The texel in column `i` of row `j`, each clamped to the last one.
    pub fn texel(&self, i: u32, j: u32) -> (r: (u8, u8, u8))
        requires
            self.wf(),
        ensures
            r == self.texel_at(
                if i < self.dims().0 {
                    i as int
                } else {
                    self.dims().0 - 1
                },
                if j < self.dims().1 {
                    j as int
                } else {
                    self.dims().1 - 1
                },
            ),
    {
        let x = clamp_texel(i, self.width);
        let y = clamp_texel(j, self.height);
        let count = self.pixels.len();
        proof {
            // the index below stays under the number of texels, a usize
            assert(count as int == self.pixels@.len());
            let w = self.width as int;
            assert((y as int) * w + (x as int) < w * (self.height as int)) by (nonlinear_arith)
                requires
                    x < self.width,
                    y < self.height,
                    w == self.width as int,
            ;
            assert(0 <= (y as int) * w) by (nonlinear_arith)
                requires
                    w >= 0,
            ;
        }
        let row = y as usize * self.width as usize;
        self.pixels[row + x as usize]
    }
}

} // verus!
