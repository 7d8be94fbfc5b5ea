use vstd::prelude::*;

verus! {

/// An 8-bit RGB image stored row by row, three channel bytes per pixel.
pub struct RgbImage {
    pub width: u32,
    pub height: u32,
    pub data: Vec<u8>,
}

/// An 8-bit single-channel image stored row by row.
pub struct GrayImage {
    pub width: u32,
    pub height: u32,
    pub data: Vec<u8>,
}

/// Position of pixel `(col, row)` in a row-major buffer `width` pixels wide.
pub open spec fn pixel_index(width: int, col: int, row: int) -> int {
    row * width + col
}

/// A pixel inside the image has its position, and its three channel bytes,
/// inside the buffer.
pub proof fn lemma_index_in_bounds(width: int, height: int, col: int, row: int)
    requires
        0 <= col < width,
        0 <= row < height,
    ensures
        0 <= row * width <= pixel_index(width, col, row) < width * height,
        0 <= pixel_index(width, col, row) * 3 + 2 < width * height * 3,
{
    assert(row * width + col < width * height) by (nonlinear_arith)
        requires 0 <= col < width, 0 <= row < height;
    assert(row * width >= 0) by (nonlinear_arith)
        requires 0 <= col < width, 0 <= row;
}

/// Distinct pixels of an image have distinct positions in its buffer.
pub proof fn lemma_index_injective(w: int, c1: int, r1: int, c2: int, r2: int)
    requires
        0 <= c1 < w,
        0 <= c2 < w,
        0 <= r1,
        0 <= r2,
        pixel_index(w, c1, r1) == pixel_index(w, c2, r2),
    ensures
        c1 == c2 && r1 == r2,
{
    if r1 < r2 {
        assert(r1 * w + w <= r2 * w) by (nonlinear_arith)
            requires r1 < r2, w >= 1;
    } else if r2 < r1 {
        assert(r2 * w + w <= r1 * w) by (nonlinear_arith)
            requires r2 < r1, w >= 1;
    }
}

impl RgbImage {
    pub open spec fn wf(&self) -> bool {
        self.data@.len() == self.width as int * self.height as int * 3
    }

    /// The first channel of pixel `(col, row)`.
    pub open spec fn channel_at(&self, col: int, row: int) -> int {
        self.data@[pixel_index(self.width as int, col, row) * 3] as int
    }

    /// Wraps a raw buffer; `None` unless it holds exactly three bytes per pixel.
    pub fn from_raw(width: u32, height: u32, data: Vec<u8>) -> (r: Option<RgbImage>)
        ensures
            r is Some <==> data@.len() == width as int * height as int * 3,
            r matches Some(img) ==> img.wf() && img.width == width && img.height == height
                && img.data@ == data@,
    {
        let w: usize = width as usize;
        let h: usize = height as usize;
        let _n: usize = data.len();
        match w.checked_mul(h) {
            Some(n) => match n.checked_mul(3) {
                Some(len) => {
                    if data.len() == len {
                        Some(RgbImage { width, height, data })
                    } else {
                        None
                    }
                },
                None => None,
            },
            None => {
                assert(w * h * 3 > usize::MAX) by (nonlinear_arith)
                    requires w * h > usize::MAX;
                None
            },
        }
    }

    /// The first channel of pixel `(col, row)`.
    pub fn channel(&self, col: u32, row: u32) -> (r: u8)
        requires
            self.wf(),
            col < self.width,
            row < self.height,
        ensures
            r as int == self.channel_at(col as int, row as int),
    {
        proof {
            lemma_index_in_bounds(self.width as int, self.height as int, col as int, row as int);
        }
        let _n: usize = self.data.len();
        let i: usize = (row as usize * self.width as usize + col as usize) * 3;
        self.data[i]
    }
}

impl GrayImage {
    pub open spec fn wf(&self) -> bool {
        self.data@.len() == self.width as int * self.height as int
    }

    /// The value of pixel `(col, row)`.
    pub open spec fn pixel_at(&self, col: int, row: int) -> u8 {
        self.data@[pixel_index(self.width as int, col, row)]
    }

    /// An all-zero image of the given size.
    pub fn new(width: u32, height: u32) -> (r: GrayImage)
        requires
            width as int * height as int <= usize::MAX,
        ensures
            r.wf(),
            r.width == width,
            r.height == height,
            forall|i: int| 0 <= i < r.data@.len() ==> r.data@[i] == 0,
    {
        let n: usize = width as usize * height as usize;
        let mut data: Vec<u8> = Vec::with_capacity(n);
        let mut i: usize = 0;
        while i < n
            invariant
                i <= n,
                data@.len() == i,
                forall|j: int| 0 <= j < i ==> data@[j] == 0,
            decreases n - i,
        {
            data.push(0);
            i = i + 1;
        }
        GrayImage { width, height, data }
    }

    /// The value of pixel `(col, row)`.
    pub fn get_pixel(&self, col: u32, row: u32) -> (r: u8)
        requires
            self.wf(),
            col < self.width,
            row < self.height,
        ensures
            r == self.pixel_at(col as int, row as int),
    {
        proof {
            lemma_index_in_bounds(self.width as int, self.height as int, col as int, row as int);
        }
        let _n: usize = self.data.len();
        self.data[row as usize * self.width as usize + col as usize]
    }

    /// Sets pixel `(col, row)` to `value`, leaving every other pixel as it was.
    pub fn put_pixel(&mut self, col: u32, row: u32, value: u8)
        requires
            old(self).wf(),
            col < old(self).width,
            row < old(self).height,
        ensures
            final(self).wf(),
            final(self).width == old(self).width,
            final(self).height == old(self).height,
            final(self).data@ == old(self).data@.update(
                pixel_index(old(self).width as int, col as int, row as int),
                value,
            ),
    {
        proof {
            lemma_index_in_bounds(self.width as int, self.height as int, col as int, row as int);
        }
        let _n: usize = self.data.len();
        let i: usize = row as usize * self.width as usize + col as usize;
        self.data.set(i, value);
    }
}

} // verus!
