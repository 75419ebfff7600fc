//! A rectangular buffer of RGBA pixels.
use vstd::prelude::*;

verus! {

/// A raster of `width` x `height` pixels, stored row by row.
pub struct Raster {
    width: u32,
    height: u32,
    pixels: Vec<[u8; 4]>,
}

impl Raster {
    /// The raster's dimensions and pixels are consistent.
    pub open spec fn wf(&self) -> bool {
        self@.len() == self.spec_width() as nat * self.spec_height() as nat
    }

    pub closed spec fn spec_width(&self) -> u32 {
        self.width
    }

    pub closed spec fn spec_height(&self) -> u32 {
        self.height
    }

    /// The pixels, row by row.
    pub closed spec fn view(&self) -> Seq<[u8; 4]> {
        self.pixels@
    }

    /// Create a raster filled with one color.
    pub fn new(width: u32, height: u32, clr: [u8; 4]) -> (r: Raster)
        requires
            width as nat * height as nat <= usize::MAX,
        ensures
            r.spec_width() == width,
            r.spec_height() == height,
            r@ == Seq::new(width as nat * height as nat, |_i: int| clr),
    {
        let n: usize = (width as u64 * height as u64) as usize;
        let mut pixels: Vec<[u8; 4]> = Vec::new();
        let mut i: usize = 0;
        while i < n
            invariant
                n == width as nat * height as nat,
                i <= n,
                pixels@ == Seq::new(i as nat, |_k: int| clr),
            decreases n - i,
        {
            pixels.push(clr);
            i = i + 1;
            assert(pixels@ =~= Seq::new(i as nat, |_k: int| clr));
        }
        Raster { width, height, pixels }
    }

    /// Width in pixels.
    pub fn width(&self) -> (w: u32)
        ensures
            w == self.spec_width(),
    {
        self.width
    }

    /// Height in pixels.
    pub fn height(&self) -> (h: u32)
        ensures
            h == self.spec_height(),
    {
        self.height
    }

    /// The pixel at column `x` of row `y`, both 0-based.
    pub fn pixel(&self, x: u32, y: u32) -> (p: [u8; 4])
        requires
            self.wf(),
            x < self.spec_width(),
            y < self.spec_height(),
        ensures
            p == self@[(y as int) * (self.spec_width() as int) + (x as int)],
    {
        proof {
            assert((y as int) * (self.width as int) + (x as int) < (self.width as int) * (self.height as int))
                by (nonlinear_arith)
                requires
                    x < self.width,
                    y < self.height,
            ;
        }
        let _len: usize = self.pixels.len();
        let i: usize = y as usize * self.width as usize + x as usize;
        self.pixels[i]
    }
}

} // verus!
