//! Images as rows of RGB pixels, their split into channels, and the
//! interleaving of three channels into one buffer.

use vstd::prelude::*;

verus! {

/// The three byte intensities of one pixel.
#[derive(Clone, Copy, Debug, PartialEq, Eq, Structural)]
pub struct Pixel {
    pub r: u8,
    pub g: u8,
    pub b: u8,
}

/// An image of `width` by `height` pixels, held row by row.
pub struct Image {
    width: u32,
    height: u32,
    pixels: Vec<Pixel>,
}

impl View for Image {
    type V = Seq<Pixel>;

    closed spec fn view(&self) -> Seq<Pixel> {
        self.pixels@
    }
}

impl Image {
    /// The number of pixels in a row.
    pub closed spec fn spec_width(&self) -> nat {
        self.width as nat
    }

    /// The number of rows.
    pub closed spec fn spec_height(&self) -> nat {
        self.height as nat
    }

    #[verifier::type_invariant]
    spec fn inv(&self) -> bool {
        self.pixels@.len() == self.width * self.height
    }

    /// Makes an image of the given dimensions from its pixels in row-major
    /// order, if there are `width * height` of them.
    pub fn new(width: u32, height: u32, pixels: Vec<Pixel>) -> (image: Option<Image>)
        ensures
            image.is_some() <==> pixels@.len() == width * height,
            image matches Some(img) ==> {
                &&& img@ == pixels@
                &&& img.spec_width() == width
                &&& img.spec_height() == height
            },
    {
        let count: u64 = pixels.len() as u64;
        assert(width * height <= u64::MAX) by (nonlinear_arith)
            requires
                width <= u32::MAX,
                height <= u32::MAX,
        ;
        let expected: u64 = (width as u64) * (height as u64);
        if count == expected {
            Some(Image { width, height, pixels })
        } else {
            None
        }
    }

    /// The number of pixels in a row.
    pub fn width(&self) -> (w: u32)
        ensures
            w == self.spec_width(),
    {
        self.width
    }

    /// The number of rows.
    pub fn height(&self) -> (h: u32)
        ensures
            h == self.spec_height(),
    {
        self.height
    }

    /// The number of pixels, which is the number of samples of each channel.
    pub fn sample_count(&self) -> (n: usize)
        ensures
            n == self@.len(),
            n == self.spec_width() * self.spec_height(),
    {
        proof {
            use_type_invariant(self);
        }
        self.pixels.len()
    }

    /// Splits the image into its red, green and blue channels, each in
    /// row-major order.
    pub fn split_channels(&self) -> (channels: (Vec<u8>, Vec<u8>, Vec<u8>))
        ensures
            channels.0@ == self@.map_values(|p: Pixel| p.r),
            channels.1@ == self@.map_values(|p: Pixel| p.g),
            channels.2@ == self@.map_values(|p: Pixel| p.b),
    {
        let n = self.pixels.len();
        let mut red: Vec<u8> = Vec::with_capacity(n);
        let mut green: Vec<u8> = Vec::with_capacity(n);
        let mut blue: Vec<u8> = Vec::with_capacity(n);
        let mut i: usize = 0;
        while i < n
            invariant
                n == self.pixels@.len(),
                i <= n,
                red@.len() == i,
                green@.len() == i,
                blue@.len() == i,
                forall|j: int| 0 <= j < i ==> #[trigger] red@[j] == self.pixels@[j].r,
                forall|j: int| 0 <= j < i ==> #[trigger] green@[j] == self.pixels@[j].g,
                forall|j: int| 0 <= j < i ==> #[trigger] blue@[j] == self.pixels@[j].b,
            decreases n - i,
        {
            let p = self.pixels[i];
            red.push(p.r);
            green.push(p.g);
            blue.push(p.b);
            i += 1;
        }
        proof {
            assert(red@ =~= self@.map_values(|p: Pixel| p.r));
            assert(green@ =~= self@.map_values(|p: Pixel| p.g));
            assert(blue@ =~= self@.map_values(|p: Pixel| p.b));
        }
        (red, green, blue)
    }
}

/// Three channels of equal length as one buffer: element `k` of the red
/// channel at `3k`, of the green at `3k + 1`, of the blue at `3k + 2`.
pub open spec fn interleaved<T>(r: Seq<T>, g: Seq<T>, b: Seq<T>) -> Seq<T> {
    Seq::new(
        3 * r.len(),
        |k: int|
            if k % 3 == 0 {
                r[k / 3]
            } else if k % 3 == 1 {
                g[k / 3]
            } else {
                b[k / 3]
            },
    )
}

/// Interleaves three channels of equal length into one buffer of three times
/// that length.
pub fn interleave<T: Copy>(r: &Vec<T>, g: &Vec<T>, b: &Vec<T>) -> (out: Vec<T>)
    requires
        r@.len() == g@.len(),
        r@.len() == b@.len(),
    ensures
        out@ == interleaved(r@, g@, b@),
        out@.len() == 3 * r@.len(),
        forall|k: int|
            0 <= k < r@.len() ==> {
                &&& out@[3 * k] == #[trigger] r@[k]
                &&& out@[3 * k + 1] == g@[k]
                &&& out@[3 * k + 2] == b@[k]
            },
{
    let n = r.len();
    let mut out: Vec<T> = Vec::new();
    let mut i: usize = 0;
    while i < n
        invariant
            n == r@.len(),
            n == g@.len(),
            n == b@.len(),
            i <= n,
            out@.len() == 3 * i,
            forall|k: int| 0 <= k < 3 * i ==> #[trigger] out@[k] == interleaved(r@, g@, b@)[k],
        decreases n - i,
    {
        out.push(r[i]);
        out.push(g[i]);
        out.push(b[i]);
        i += 1;
    }
    proof {
        assert(out@ =~= interleaved(r@, g@, b@));
    }
    out
}

} // verus!
