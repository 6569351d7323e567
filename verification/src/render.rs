//! Rendering: a grid of 8-bit intensity samples becomes lines of palette
//! characters.

use vstd::prelude::*;
use crate::codec::PaletteError;
use crate::text::{chars_of, push_char};

verus! {

/// A grid of 8-bit intensity samples, stored row after row.
pub struct Raster {
    width: usize,
    height: usize,
    samples: Vec<u8>,
}

/// The palette position for intensity `sample` under a palette of `n`
/// characters: the 256 intensities fall into `n` buckets of equal width,
/// and no position lies past the last one.
pub open spec fn shade_index(sample: u8, n: int) -> int {
    let bucket = sample as int * n / 256;
    if bucket > n - 1 {
        n - 1
    } else {
        bucket
    }
}

/// One rendered row: the palette character of each sample, then a line
/// feed.
pub open spec fn render_row(row: Seq<u8>, palette: Seq<char>) -> Seq<char> {
    Seq::new(row.len(), |j: int| palette[shade_index(row[j], palette.len() as int)]) + seq!['\n']
}

/// The first `count` rows of `samples`, each `width` samples wide,
/// rendered one after the other.
pub open spec fn render_rows(samples: Seq<u8>, width: int, count: int, palette: Seq<char>) -> Seq<
    char,
>
    decreases count,
{
    if count <= 0 {
        Seq::empty()
    } else {
        render_rows(samples, width, count - 1, palette) + render_row(
            samples.subrange((count - 1) * width, count * width),
            palette,
        )
    }
}

/// Checks that a palette can be rendered with: it must hold a character.
pub fn check_palette(colors: &str) -> (r: Result<(), PaletteError>)
    ensures
        r is Ok <==> colors@.len() >= 1,
        r is Err ==> r == Err::<(), PaletteError>(PaletteError::Empty),
{
    if colors.is_empty() {
        Err(PaletteError::Empty)
    } else {
        Ok(())
    }
}

/// The palette position of a sample lies inside the palette.
pub proof fn lemma_shade_index(sample: u8, n: int)
    requires
        n >= 1,
    ensures
        0 <= shade_index(sample, n) < n,
        shade_index(sample, n) == sample as int * n / 256,
{
    assert(0 <= sample * n <= 255 * n) by (nonlinear_arith)
        requires
            0 <= sample <= 255,
            n >= 1,
    ;
}

/// Computes the palette position for one sample.
pub fn shade(sample: u8, n: usize) -> (index: usize)
    requires
        n >= 1,
    ensures
        index == shade_index(sample, n as int),
        index < n,
{
    assert(sample * n <= 255 * n) by (nonlinear_arith)
        requires
            sample <= 255,
            n >= 0,
    ;
    let bucket: u128 = (sample as u128) * (n as u128) / 256;
    if bucket > (n - 1) as u128 {
        n - 1
    } else {
        bucket as usize
    }
}

impl Raster {
    #[verifier::type_invariant]
    spec fn inv(self) -> bool {
        self.samples@.len() == self.width * self.height
    }

    /// Number of samples in a row.
    pub closed spec fn cols(self) -> int {
        self.width as int
    }

    /// Number of rows.
    pub closed spec fn rows(self) -> int {
        self.height as int
    }

    /// The samples, row after row.
    pub closed spec fn samples(self) -> Seq<u8> {
        self.samples@
    }

    /// The text that the grid renders to under `palette`. A grid without
    /// columns has no rows to render.
    pub open spec fn render_spec(self, palette: Seq<char>) -> Seq<char> {
        if self.cols() == 0 {
            Seq::empty()
        } else {
            render_rows(self.samples(), self.cols(), self.rows(), palette)
        }
    }

    /// Makes a grid of `height` rows of `width` samples, where `samples`
    /// holds exactly that many.
    pub fn new(width: usize, height: usize, samples: Vec<u8>) -> (r: Option<Raster>)
        ensures
            r is Some <==> samples@.len() == width * height,
            r matches Some(grid) ==> grid.cols() == width && grid.rows() == height
                && grid.samples() == samples@,
    {
        let count: usize = samples.len();
        match width.checked_mul(height) {
            Some(area) => {
                if count == area {
                    Some(Raster { width, height, samples })
                } else {
                    None
                }
            },
            None => None,
        }
    }

    /// Number of samples in a row.
    pub fn width(&self) -> (w: usize)
        ensures
            w == self.cols(),
    {
        self.width
    }

    /// Number of rows.
    pub fn height(&self) -> (h: usize)
        ensures
            h == self.rows(),
    {
        self.height
    }
}

/// Renders `image` under the palette `colors`: row by row, each sample as
/// the palette character of its bucket, each row closed by a line feed.
pub fn generate(image: &Raster, colors: &str) -> (text: String)
    requires
        colors@.len() >= 1,
    ensures
        text@ == image.render_spec(colors@),
{
    proof {
        use_type_invariant(image);
    }
    let chars = chars_of(colors);
    let n: usize = chars.len();
    let width: usize = image.width;
    let mut text = String::new();
    if width == 0 {
        return text;
    }
    let total: usize = image.samples.len();
    let mut row: usize = 0;
    let mut start: usize = 0;
    while row < image.height
        invariant
            total == image.samples@.len(),
            row <= image.height,
            width == image.width,
            width > 0,
            n == chars@.len(),
            n >= 1,
            chars@ == colors@,
            image.samples@.len() == image.width * image.height,
            start == row * width,
            text@ == render_rows(image.samples@, width as int, row as int, chars@),
        decreases image.height - row,
    {
        assert(start + width == (row + 1) * width) by (nonlinear_arith)
            requires
                start == row * width,
        ;
        assert((row + 1) * width <= image.height * width) by (nonlinear_arith)
            requires
                row < image.height,
        ;
        assert(image.height * width == image.width * image.height) by (nonlinear_arith)
            requires
                width == image.width,
        ;
        let ghost before = text@;
        let ghost line = image.samples@.subrange(start as int, start + width);
        let mut col: usize = 0;
        while col < width
            invariant
                col <= width,
                total == image.samples@.len(),
                start + width <= total,
                n == chars@.len(),
                n >= 1,
                line == image.samples@.subrange(start as int, start + width),
                text@ == before + Seq::new(
                    col as nat,
                    |j: int| chars@[shade_index(line[j], n as int)],
                ),
            decreases width - col,
        {
            let index = shade(image.samples[start + col], n);
            push_char(&mut text, chars[index]);
            col += 1;
            assert(text@ =~= before + Seq::new(
                col as nat,
                |j: int| chars@[shade_index(line[j], n as int)],
            ));
        }
        push_char(&mut text, '\n');
        assert(text@ =~= before + render_row(line, chars@));
        start += width;
        row += 1;
    }
    text
}

} // verus!
