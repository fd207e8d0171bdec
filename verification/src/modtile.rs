//! Palette entry types: a color point plus the opaque name and number that
//! travel with it, and the conversion of a palette into raw coordinate
//! points for the spatial tree.

use vstd::prelude::*;

verus! {

/// One usable color: an ordered triple of unsigned byte coordinates.
#[derive(Clone, Copy, PartialEq, Eq, Structural, Hash, Debug)]
pub struct RGB(pub u8, pub u8, pub u8);

/// One palette entry: a color point plus a display name and a number that
/// this core passes through unmodified.
#[derive(Debug)]
pub struct TileColor {
    pub rgb: RGB,
    pub name: String,
    pub number: String,
}

/// A named palette: a collection of tile colors.
#[derive(Debug)]
pub struct AllColors {
    pub name: String,
    pub url: String,
    pub description: String,
    pub colors: Vec<TileColor>,
}

/// Builds the list of raw coordinate points, one three-byte point per
/// palette entry, in palette order.
pub fn build_color_vec(all_colors: &AllColors) -> (r: Vec<Vec<u8>>)
    ensures
        r@.len() == all_colors.colors@.len(),
        forall|i: int|
            0 <= i < r@.len() ==> r@[i]@ =~= seq![
                all_colors.colors@[i].rgb.0,
                all_colors.colors@[i].rgb.1,
                all_colors.colors@[i].rgb.2,
            ],
{
    let mut color_vec: Vec<Vec<u8>> = Vec::new();
    let mut i: usize = 0;
    while i < all_colors.colors.len()
        invariant
            i <= all_colors.colors@.len(),
            color_vec@.len() == i,
            forall|j: int|
                0 <= j < i ==> color_vec@[j]@ =~= seq![
                    all_colors.colors@[j].rgb.0,
                    all_colors.colors@[j].rgb.1,
                    all_colors.colors@[j].rgb.2,
                ],
        decreases all_colors.colors@.len() - i,
    {
        let tc = &all_colors.colors[i];
        let mut color: Vec<u8> = Vec::new();
        color.push(tc.rgb.0);
        color.push(tc.rgb.1);
        color.push(tc.rgb.2);
        color_vec.push(color);
        i = i + 1;
    }
    color_vec
}


/// Lays a pane's tile colors out row-major into a `height` by `width` grid
/// of rows; positions past the last color stay black.
pub fn tile_grid(colors: &Vec<RGB>, width: usize, height: usize) -> (r: Vec<Vec<RGB>>)
    requires
        width * height <= usize::MAX,
        colors@.len() <= width * height,
    ensures
        r@.len() == height,
        forall|i: int| 0 <= i < height ==> r@[i]@.len() == width,
        forall|i: int, j: int|
            0 <= i < height && 0 <= j < width ==> r@[i]@[j] == (if i * width + j
                < colors@.len() {
                colors@[i * width + j]
            } else {
                RGB(0, 0, 0)
            }),
{
    let mut grid: Vec<Vec<RGB>> = Vec::new();
    let mut i: usize = 0;
    while i < height
        invariant
            i <= height,
            grid@.len() == i,
            width * height <= usize::MAX,
            colors@.len() <= width * height,
            forall|a: int| 0 <= a < i ==> grid@[a]@.len() == width,
            forall|a: int, b: int|
                0 <= a < i && 0 <= b < width ==> grid@[a]@[b] == (if a * width + b
                    < colors@.len() {
                    colors@[a * width + b]
                } else {
                    RGB(0, 0, 0)
                }),
        decreases height - i,
    {
        let mut row: Vec<RGB> = Vec::new();
        let mut j: usize = 0;
        assert(i * width + width <= height * width) by (nonlinear_arith)
            requires
                i < height,
                0 <= width,
        ;
        assert(height * width == width * height) by (nonlinear_arith);
        while j < width
            invariant
                j <= width,
                i < height,
                row@.len() == j,
                i * width + width <= width * height <= usize::MAX,
                colors@.len() <= width * height,
                forall|b: int|
                    0 <= b < j ==> row@[b] == (if i * width + b < colors@.len() {
                        colors@[i * width + b]
                    } else {
                        RGB(0, 0, 0)
                    }),
            decreases width - j,
        {
            let idx = i * width + j;
            if idx < colors.len() {
                row.push(colors[idx]);
            } else {
                row.push(RGB(0, 0, 0));
            }
            j = j + 1;
        }
        grid.push(row);
        i = i + 1;
    }
    grid
}
} // verus!
