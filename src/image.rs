use vstd::prelude::*;
use crate::vec3::{vec3, Color};

verus! {

/// A grid of colours, `height` rows of `width` pixels; row 0 is the bottom.
pub struct Image {
    pub height: u16,
    pub width: u16,
    pub aspect_w: u16,
    pub aspect_h: u16,
    pub pixels: Vec<Color>,
}

/// Height of an image of the given width and aspect ratio `aspect_w : aspect_h`.
pub open spec fn height_of(aspect_w: int, aspect_h: int, width: int) -> int {
    width * aspect_h / aspect_w
}

/// Position of pixel `(i, j)` in the row-major pixel sequence.
pub open spec fn pixel_index(width: int, i: int, j: int) -> int {
    i * width + j
}

pub proof fn lemma_index_in_range(width: int, height: int, i: int, j: int)
    requires
        0 <= i < height,
        0 <= j < width,
        width <= 0xFFFF,
        height <= 0xFFFF,
    ensures
        0 <= pixel_index(width, i, j) < width * height,
        0 <= i * width <= i * width + j,
        i * width + j < 0x1_0000_0000,
{
    assert(0 <= i * width + j < width * height) by (nonlinear_arith)
        requires
            0 <= i < height,
            0 <= j < width,
    ;
    assert(0 <= i * width) by (nonlinear_arith)
        requires
            0 <= i,
            0 <= j < width,
    ;
    assert(i * width + j < 0x1_0000_0000) by (nonlinear_arith)
        requires
            0 <= i < height,
            0 <= j < width,
            width <= 0xFFFF,
            height <= 0xFFFF,
    ;
}

impl View for Image {
    type V = Seq<Color>;

    open spec fn view(&self) -> Seq<Color> {
        self.pixels@
    }
}

impl Image {
    /// The pixel sequence holds exactly `width * height` colours.
    pub open spec fn wf(&self) -> bool {
        self@.len() == self.width * self.height
    }

    /// The colour of pixel `(i, j)`.
    pub open spec fn pixel(&self, i: int, j: int) -> Color {
        self@[pixel_index(self.width as int, i, j)]
    }

    /// A black image of the given width whose height follows from the aspect
    /// ratio `aspect_w : aspect_h`, rounded down.
    pub fn new(aspect_w: u16, aspect_h: u16, width: u16) -> (r: Self)
        requires
            aspect_w > 0,
            height_of(aspect_w as int, aspect_h as int, width as int) <= u16::MAX,
        ensures
            r.wf(),
            r.width == width,
            r.height == height_of(aspect_w as int, aspect_h as int, width as int),
            r.aspect_w == aspect_w,
            r.aspect_h == aspect_h,
            forall|k: int| 0 <= k < r@.len() ==> #[trigger] r@[k] == vec3(0, 0, 0),
    {
        assert(width * aspect_h <= 0xFFFF * 0xFFFF) by (nonlinear_arith)
            requires
                width <= 0xFFFF,
                aspect_h <= 0xFFFF,
        ;
        let height = ((width as u32 * aspect_h as u32) / aspect_w as u32) as u16;
        assert(width * height <= 0xFFFF * 0xFFFF) by (nonlinear_arith)
            requires
                width <= 0xFFFF,
                height <= 0xFFFF,
        ;
        let n = (width as u32 * height as u32) as usize;
        let mut pixels: Vec<Color> = Vec::new();
        while pixels.len() < n
            invariant
                pixels@.len() <= n,
                forall|k: int| 0 <= k < pixels@.len() ==> #[trigger] pixels@[k] == vec3(0, 0, 0),
            decreases n - pixels@.len(),
        {
            pixels.push(Color::new(0, 0, 0));
        }
        Image { height, width, aspect_w, aspect_h, pixels }
    }

    /// The colour of pixel `(i, j)`.
    pub fn get(&self, i: u16, j: u16) -> (c: Color)
        requires
            self.wf(),
            i < self.height,
            j < self.width,
        ensures
            c == self.pixel(i as int, j as int),
    {
        proof {
            lemma_index_in_range(self.width as int, self.height as int, i as int, j as int);
        }
        self.pixels[(i as u64 * self.width as u64 + j as u64) as usize]
    }

    /// Sets pixel `(i, j)` to `c`; every other pixel keeps its colour.
    pub fn set(&mut self, i: u16, j: u16, c: Color)
        requires
            old(self).wf(),
            i < old(self).height,
            j < old(self).width,
        ensures
            final(self).wf(),
            final(self).width == old(self).width,
            final(self).height == old(self).height,
            final(self).aspect_w == old(self).aspect_w,
            final(self).aspect_h == old(self).aspect_h,
            final(self)@ == old(self)@.update(pixel_index(old(self).width as int, i as int, j as int), c),
    {
        proof {
            lemma_index_in_range(self.width as int, self.height as int, i as int, j as int);
        }
        self.pixels[(i as u64 * self.width as u64 + j as u64) as usize] = c;
    }
}

} // verus!
