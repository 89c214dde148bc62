//! The order in which the render driver hands out pixels.
use vstd::prelude::*;

verus! {

/// The pixel coordinates of a `width` by `height` image, row by row from the
/// top left: entry `k` is column `k % width` of row `k / width`.
pub fn pixel_order(width: u32, height: u32) -> (r: Vec<(u32, u32)>)
    requires
        width as int * height as int <= usize::MAX,
    ensures
        r@.len() == width as int * height as int,
        forall|k: int|
            0 <= k < r@.len() ==> #[trigger] r@[k] == ((k % width as int) as u32, (k
                / width as int) as u32),
        forall|x: u32, y: u32| x < width && y < height ==> #[trigger] r@.contains((x, y)),
        r@.no_duplicates(),
{
    let mut r: Vec<(u32, u32)> = Vec::new();
    let mut y: u32 = 0;
    while y < height
        invariant
            y <= height,
            width as int * height as int <= usize::MAX,
            r@.len() == width as int * y as int,
            forall|k: int|
                0 <= k < r@.len() ==> #[trigger] r@[k] == ((k % width as int) as u32, (k
                    / width as int) as u32),
        decreases height - y,
    {
        let mut x: u32 = 0;
        while x < width
            invariant
                x <= width,
                y < height,
                width as int * height as int <= usize::MAX,
                r@.len() == width as int * y as int + x as int,
                forall|k: int|
                    0 <= k < r@.len() ==> #[trigger] r@[k] == ((k % width as int) as u32, (k
                        / width as int) as u32),
            decreases width - x,
        {
            proof {
                let k = width as int * y as int + x as int;
                assert(k < width as int * height as int) by (nonlinear_arith)
                    requires
                        x < width,
                        y < height,
                        k == width as int * y as int + x as int,
                ;
                assert(k % width as int == x as int && k / width as int == y as int) by (
                nonlinear_arith)
                    requires
                        x < width,
                        k == width as int * y as int + x as int,
                ;
            }
            r.push((x, y));
            x = x + 1;
        }
        proof {
            assert(width as int * (y as int + 1) == width as int * y as int + width as int) by (
            nonlinear_arith);
        }
        y = y + 1;
    }
    proof {
        let w = width as int;
        assert forall|x: u32, y: u32| x < width && y < height implies #[trigger] r@.contains(
            (x, y),
        ) by {
            let k = w * y as int + x as int;
            assert(0 <= k < w * height as int && k % w == x as int && k / w == y as int) by (
            nonlinear_arith)
                requires
                    x < width,
                    y < height,
                    k == w * y as int + x as int,
                    w == width as int,
            ;
            assert(r@[k] == (x, y));
        }
        assert forall|i: int, j: int|
            0 <= i < r@.len() && 0 <= j < r@.len() && i != j implies r@[i] != r@[j] by {
            if r@[i] == r@[j] {
                assert(0 <= i % w < w && 0 <= i / w < height as int) by (nonlinear_arith)
                    requires
                        0 <= i < w * height as int,
                        w == width as int,
                        w > 0,
                ;
                assert(0 <= j % w < w && 0 <= j / w < height as int) by (nonlinear_arith)
                    requires
                        0 <= j < w * height as int,
                        w == width as int,
                        w > 0,
                ;
                assert(i % w == j % w && i / w == j / w);
                vstd::arithmetic::div_mod::lemma_fundamental_div_mod(i, w);
                vstd::arithmetic::div_mod::lemma_fundamental_div_mod(j, w);
            }
        }
    }
    r
}

} // verus!
