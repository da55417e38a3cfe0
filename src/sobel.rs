//! Sobel edge images.
use vstd::prelude::*;
use crate::grid::{Grid, cell_at, lemma_row_major, lemma_side_of_square, side_for};
use crate::image::Image;

verus! {

/// The pixel at `(x, y)`, or zero outside the image.
pub open spec fn px(cells: Seq<u8>, x: int, y: int) -> int {
    cell_at(cells, side_for(cells.len()) as int, x, y, 0u8) as int
}

pub open spec fn abs(v: int) -> int {
    if v < 0 {
        -v
    } else {
        v
    }
}

/// The magnitude of the horizontal Sobel response at `(x, y)`.
pub open spec fn x_gradient(cells: Seq<u8>, x: int, y: int) -> int {
    abs(px(cells, x + 1, y - 1) + 2 * px(cells, x + 1, y) + px(cells, x + 1, y + 1) - px(
        cells,
        x - 1,
        y - 1,
    ) - 2 * px(cells, x - 1, y) - px(cells, x - 1, y + 1))
}

/// The magnitude of the vertical Sobel response at `(x, y)`.
pub open spec fn y_gradient(cells: Seq<u8>, x: int, y: int) -> int {
    abs(px(cells, x - 1, y + 1) + 2 * px(cells, x, y + 1) + px(cells, x + 1, y + 1) - px(
        cells,
        x - 1,
        y - 1,
    ) - 2 * px(cells, x, y - 1) - px(cells, x + 1, y - 1))
}

/// The edge pixel at `(x, y)`: the sum of both gradient magnitudes, saturated at 255.
pub open spec fn edge_value(cells: Seq<u8>, x: int, y: int) -> u8 {
    let v = x_gradient(cells, x, y) + y_gradient(cells, x, y);
    if v > 255 {
        255
    } else {
        v as u8
    }
}

/// The pixel at `(x, y)`, or zero outside the image.
fn get(img: &Image, x: isize, y: isize) -> (r: u8)
    requires
        img.wf(),
    ensures
        r == px(img@, x as int, y as int),
{
    proof {
        img.lemma_side();
    }
    match img.option_get(x, y) {
        Some(p) => p,
        None => 0,
    }
}

/// Saturates an edge value at the largest pixel.
fn compress(edge_value: u16) -> (r: u8)
    ensures
        r == if edge_value > 255 {
            255
        } else {
            edge_value
        },
{
    if edge_value > u8::MAX as u16 {
        u8::MAX
    } else {
        edge_value as u8
    }
}

fn x_total(img: &Image, x: usize, y: usize) -> (r: u16)
    requires
        img.wf(),
        x + 2 <= isize::MAX,
        y + 2 <= isize::MAX,
    ensures
        r == x_gradient(img@, x as int, y as int),
{
    let (x, y) = (x as isize, y as isize);
    let mut total: i16 = 0;
    total = total - get(img, x - 1, y - 1) as i16;
    total = total - 2 * get(img, x - 1, y) as i16;
    total = total - get(img, x - 1, y + 1) as i16;
    total = total + get(img, x + 1, y - 1) as i16;
    total = total + 2 * get(img, x + 1, y) as i16;
    total = total + get(img, x + 1, y + 1) as i16;
    if total < 0 {
        (-total) as u16
    } else {
        total as u16
    }
}

fn y_total(img: &Image, x: usize, y: usize) -> (r: u16)
    requires
        img.wf(),
        x + 2 <= isize::MAX,
        y + 2 <= isize::MAX,
    ensures
        r == y_gradient(img@, x as int, y as int),
{
    let (x, y) = (x as isize, y as isize);
    let mut total: i16 = 0;
    total = total - get(img, x - 1, y - 1) as i16;
    total = total - 2 * get(img, x, y - 1) as i16;
    total = total - get(img, x + 1, y - 1) as i16;
    total = total + get(img, x - 1, y + 1) as i16;
    total = total + 2 * get(img, x, y + 1) as i16;
    total = total + get(img, x + 1, y + 1) as i16;
    if total < 0 {
        (-total) as u16
    } else {
        total as u16
    }
}

fn edge_pixel(img: &Image, x: usize, y: usize) -> (r: u8)
    requires
        img.wf(),
        x + 2 <= isize::MAX,
        y + 2 <= isize::MAX,
    ensures
        r == edge_value(img@, x as int, y as int),
{
    compress(x_total(img, x, y) + y_total(img, x, y))
}

/// The image of Sobel edge strengths, of the same side as `img`.
pub fn edge_image(img: &Image) -> (r: Image)
    requires
        img.wf(),
        img.side_nat() + 2 <= isize::MAX,
        img.side_nat() * img.side_nat() < usize::MAX,
    ensures
        r.wf(),
        r.side_nat() == img.side_nat(),
        r@ == Seq::new(
            img.side_nat() * img.side_nat(),
            |k: int|
                edge_value(img@, k % img.side_nat() as int, k / img.side_nat() as int),
        ),
{
    let s = img.side();
    let ghost target = Seq::new(
        (s * s) as nat,
        |k: int| edge_value(img@, k % s as int, k / s as int),
    );
    let mut result = Image::new();
    let mut y: usize = 0;
    while y < s
        invariant
            img.wf(),
            s == img.side_nat(),
            s + 2 <= isize::MAX,
            s * s < usize::MAX,
            target == Seq::new((s * s) as nat, |k: int| edge_value(img@, k % s as int, k / s as int)),
            y <= s,
            result.wf(),
            result@ == target.subrange(0, y * s),
        decreases s - y,
    {
        let mut x: usize = 0;
        while x < s
            invariant
                img.wf(),
                s == img.side_nat(),
                s + 2 <= isize::MAX,
                s * s < usize::MAX,
                target == Seq::new(
                    (s * s) as nat,
                    |k: int| edge_value(img@, k % s as int, k / s as int),
                ),
                y < s,
                x <= s,
                result.wf(),
                result@ == target.subrange(0, y * s + x),
            decreases s - x,
        {
            let p = edge_pixel(img, x, y);
            proof {
                let k = y * s + x;
                lemma_row_major(k, s as int, y as int, x as int);
                assert(k < s * s) by (nonlinear_arith)
                    requires
                        k == y * s + x,
                        y < s,
                        x < s,
                ;
                assert(target.subrange(0, k + 1) =~= target.subrange(0, k).push(p));
            }
            result.add(p);
            x = x + 1;
        }
        proof {
            assert(y * s + s == (y + 1) * s) by (nonlinear_arith);
        }
        y = y + 1;
    }
    proof {
        assert(result@ =~= target);
        lemma_side_of_square(s as nat);
        result.lemma_side();
    }
    result
}

} // verus!
