use vstd::prelude::*;
use crate::image::{lemma_index_in_bounds, lemma_index_injective, pixel_index, GrayImage, RgbImage};
use crate::kernel::{is_interior, lemma_capped_root, sobel_at, sobel_value};
use crate::partition::{
    lemma_rows_partition_interior, nth_row, row_count, row_owner, worker_row_seq, worker_rows,
};

verus! {

/// The value the edge image holds at `(col, row)`: the Sobel magnitude at an
/// interior pixel, zero on the border.
pub open spec fn expected_pixel(img: RgbImage, col: int, row: int) -> int {
    if is_interior(img.width as int, img.height as int, col, row) {
        sobel_value(img, col, row)
    } else {
        0
    }
}

/// The output rows owned by one worker: `rows[k]` is image row
/// `worker + 1 + k * num_threads`. Each worker holds its own view, so no two
/// workers can write the same memory.
pub struct RowView {
    pub worker: u32,
    pub num_threads: u32,
    pub width: u32,
    pub height: u32,
    pub rows: Vec<Vec<u8>>,
}

impl RowView {
    pub open spec fn wf(&self) -> bool {
        &&& self.num_threads >= 1
        &&& self.worker < self.num_threads
        &&& self.rows@.len() == row_count(
            self.worker as int,
            self.num_threads as int,
            self.height as int,
        )
        &&& forall|k: int| 0 <= k < self.rows@.len() ==> (#[trigger] self.rows@[k])@.len()
            == self.width
    }

    /// Every row of the view holds the edge image's values for its image row.
    pub open spec fn filled_from(&self, img: RgbImage) -> bool {
        forall|k: int, c: int|
            0 <= k < self.rows@.len() && 0 <= c < self.width ==> #[trigger] self.rows@[k]@[c]
                as int == expected_pixel(
                img,
                c,
                nth_row(self.worker as int, self.num_threads as int, k),
            )
    }

    /// Computes the Sobel magnitudes of every row the view owns. Border columns
    /// are left as they were.
    pub fn fill(&mut self, img: &RgbImage)
        requires
            old(self).wf(),
            img.wf(),
            img.width == old(self).width,
            img.height == old(self).height,
            forall|k: int, c: int|
                0 <= k < old(self).rows@.len() && 0 <= c < old(self).width ==> #[trigger] old(self).rows@[k]@[c] == 0,
        ensures
            final(self).wf(),
            final(self).worker == old(self).worker,
            final(self).num_threads == old(self).num_threads,
            final(self).width == old(self).width,
            final(self).height == old(self).height,
            final(self).filled_from(*img),
    {
        let ghost t = self.num_threads as int;
        let ghost id = self.worker as int;
        let row_ids = worker_rows(self.worker, self.num_threads, self.height);
        proof {
            lemma_rows_partition_interior(t, self.height as int);
        }
        let mut k: usize = 0;
        while k < row_ids.len()
            invariant
                self.wf(),
                img.wf(),
                img.width == self.width,
                img.height == self.height,
                self.num_threads == t,
                self.worker == id,
                self.worker == old(self).worker,
                self.num_threads == old(self).num_threads,
                self.width == old(self).width,
                self.height == old(self).height,
                k <= row_ids@.len(),
                row_ids@.len() == self.rows@.len(),
                forall|j: int|
                    0 <= j < row_ids@.len() ==> row_ids@[j] as int == #[trigger] worker_row_seq(
                        id,
                        t,
                        self.height as int,
                    )[j],
                forall|j: int|
                    0 <= j < row_ids@.len() ==> 1 <= #[trigger] worker_row_seq(id, t, self.height as int)[j]
                        <= self.height - 2,
                forall|j: int, c: int|
                    0 <= j < self.rows@.len() && 0 <= c < self.width ==> #[trigger] self.rows@[j]@[c]
                        as int == if j < k {
                        expected_pixel(*img, c, nth_row(id, t, j))
                    } else {
                        0
                    },
            decreases row_ids@.len() - k,
        {
            let row: u32 = row_ids[k];
            assert(row as int == worker_row_seq(id, t, self.height as int)[k as int]);
            let line = interior_line(img, row);
            self.rows.set(k, line);
            k = k + 1;
        }
    }
}

/// One image row of the edge image: the Sobel magnitude at each interior
/// column and zero at both border columns.
pub fn interior_line(img: &RgbImage, row: u32) -> (r: Vec<u8>)
    requires
        img.wf(),
        1 <= row <= img.height - 2,
    ensures
        r@.len() == img.width,
        forall|c: int| 0 <= c < img.width ==> r@[c] as int == expected_pixel(*img, c, row as int),
{
    let mut line: Vec<u8> = Vec::new();
    let mut c: u32 = 0;
    while c < img.width
        invariant
            img.wf(),
            1 <= row <= img.height - 2,
            c <= img.width,
            line@.len() == c,
            forall|j: int| 0 <= j < c ==> line@[j] as int == expected_pixel(*img, j, row as int),
        decreases img.width - c,
    {
        if c >= 1 && c + 1 < img.width {
            let v = sobel_at(img, c, row);
            line.push(v);
        } else {
            line.push(0);
        }
        c = c + 1;
    }
    line
}

/// A zero-filled row `width` pixels wide.
fn blank_line(width: u32) -> (r: Vec<u8>)
    ensures
        r@.len() == width,
        forall|c: int| 0 <= c < width ==> r@[c] == 0,
{
    let mut line: Vec<u8> = Vec::new();
    let mut c: u32 = 0;
    while c < width
        invariant
            c <= width,
            line@.len() == c,
            forall|j: int| 0 <= j < c ==> line@[j] == 0,
        decreases width - c,
    {
        line.push(0);
        c = c + 1;
    }
    line
}

/// A set of views splits an output image among `num_threads` workers: view `i`
/// belongs to worker `i`, and all of them agree with the image's size.
pub open spec fn views_split(views: Seq<RowView>, num_threads: int, width: int, height: int) -> bool {
    &&& num_threads >= 1
    &&& views.len() == num_threads
    &&& forall|i: int|
        0 <= i < views.len() ==> {
            &&& (#[trigger] views[i]).wf()
            &&& views[i].worker == i
            &&& views[i].num_threads == num_threads
            &&& views[i].width == width
            &&& views[i].height == height
        }
}

/// Splits a `width` x `height` output into one zero-filled view per worker,
/// each owning exactly the rows the partition gives that worker.
pub fn split_views(width: u32, height: u32, num_threads: u32) -> (r: Vec<RowView>)
    requires
        num_threads >= 1,
    ensures
        views_split(r@, num_threads as int, width as int, height as int),
        forall|i: int, k: int, c: int|
            0 <= i < r@.len() && 0 <= k < r@[i].rows@.len() && 0 <= c < width ==> #[trigger] r@[i].rows@[k]@[c]
                == 0,
{
    let mut views: Vec<RowView> = Vec::new();
    let mut id: u32 = 0;
    while id < num_threads
        invariant
            num_threads >= 1,
            id <= num_threads,
            views@.len() == id,
            forall|i: int|
                0 <= i < views@.len() ==> {
                    &&& (#[trigger] views@[i]).wf()
                    &&& views@[i].worker == i
                    &&& views@[i].num_threads == num_threads
                    &&& views@[i].width == width
                    &&& views@[i].height == height
                },
            forall|i: int, k: int, c: int|
                0 <= i < views@.len() && 0 <= k < views@[i].rows@.len() && 0 <= c < width ==> #[trigger] views@[i].rows@[k]@[c]
                    == 0,
        decreases num_threads - id,
    {
        let count: usize = worker_rows(id, num_threads, height).len();
        let mut rows: Vec<Vec<u8>> = Vec::new();
        let mut k: usize = 0;
        while k < count
            invariant
                k <= count,
                rows@.len() == k,
                forall|j: int| 0 <= j < k ==> (#[trigger] rows@[j])@.len() == width,
                forall|j: int, c: int| 0 <= j < k && 0 <= c < width ==> #[trigger] rows@[j]@[c] == 0,
            decreases count - k,
        {
            rows.push(blank_line(width));
            k = k + 1;
        }
        views.push(RowView { worker: id, num_threads, width, height, rows });
        id = id + 1;
    }
    views
}

/// The value that merged views give image pixel `(col, row)` of an interior row.
pub open spec fn view_value(views: Seq<RowView>, num_threads: int, col: int, row: int) -> u8 {
    views[row_owner(row, num_threads)].rows@[(row - 1) / num_threads]@[col]
}

/// Copies every view's rows into the output image. Interior rows take the
/// value of the view that owns them; the top and bottom rows are unchanged.
pub fn merge_views(out: &mut GrayImage, views: &Vec<RowView>)
    requires
        old(out).wf(),
        views@.len() >= 1,
        views_split(views@, views@.len() as int, old(out).width as int, old(out).height as int),
    ensures
        final(out).wf(),
        final(out).width == old(out).width,
        final(out).height == old(out).height,
        forall|c: int, r: int|
            0 <= c < old(out).width && 0 <= r < old(out).height ==> #[trigger] final(out).pixel_at(c, r)
                == if 1 <= r <= old(out).height - 2 {
                view_value(views@, views@.len() as int, c, r)
            } else {
                old(out).pixel_at(c, r)
            },
{
    let t: usize = views.len();
    let ghost old_out = *out;
    let w: u32 = out.width;
    let h: u32 = out.height;
    proof {
        lemma_rows_partition_interior(t as int, h as int);
    }
    if h < 2 {
        return;
    }
    let mut r: u32 = 1;
    while r + 1 < h
        invariant
            out.wf(),
            out.width == w,
            out.height == h,
            old_out.width == w,
            old_out.height == h,
            old_out.wf(),
            h >= 2,
            1 <= r <= h - 1,
            t == views@.len(),
            t >= 1,
            views_split(views@, t as int, w as int, h as int),
            forall|row: int|
                1 <= row <= h - 2 ==> {
                    let id = #[trigger] row_owner(row, t as int);
                    let k = (row - 1) / t as int;
                    0 <= id < t && 0 <= k < worker_row_seq(id, t as int, h as int).len()
                },
            forall|c: int, row: int|
                0 <= c < w && 0 <= row < h ==> #[trigger] out.pixel_at(c, row) == if 1 <= row < r {
                    view_value(views@, t as int, c, row)
                } else {
                    old_out.pixel_at(c, row)
                },
        decreases h - r,
    {
        let owner: usize = ((r - 1) as usize) % t;
        let k: usize = ((r - 1) as usize) / t;
        assert(owner as int == row_owner(r as int, t as int));
        let view = &views[owner];
        assert(view.wf());
        let line = &view.rows[k];
        let mut c: u32 = 0;
        while c < w
            invariant
                out.wf(),
                out.width == w,
                out.height == h,
                old_out.width == w,
                old_out.height == h,
                1 <= r <= h - 2,
                c <= w,
                t == views@.len(),
                t >= 1,
                owner as int == row_owner(r as int, t as int),
                k as int == (r - 1) / t as int,
                line@.len() == w,
                *line == views@[owner as int].rows@[k as int],
                forall|cc: int, row: int|
                    0 <= cc < w && 0 <= row < h ==> #[trigger] out.pixel_at(cc, row) == if 1 <= row < r
                        || (row == r && cc < c) {
                        view_value(views@, t as int, cc, row)
                    } else {
                        old_out.pixel_at(cc, row)
                    },
            decreases w - c,
        {
            let ghost before = *out;
            out.put_pixel(c, r, line[c as usize]);
            assert(out.data@ == before.data@.update(pixel_index(w as int, c as int, r as int), line@[c as int]));
            assert forall|cc: int, row: int| 0 <= cc < w && 0 <= row < h implies #[trigger] out.pixel_at(cc, row)
                == if 1 <= row < r || (row == r && cc < c + 1) {
                view_value(views@, t as int, cc, row)
            } else {
                old_out.pixel_at(cc, row)
            } by {
                lemma_index_in_bounds(w as int, h as int, cc, row);
                lemma_index_in_bounds(w as int, h as int, c as int, r as int);
                let _ = before.pixel_at(cc, row);
                if cc != c || row != r {
                    if pixel_index(w as int, cc, row) == pixel_index(w as int, c as int, r as int) {
                        lemma_index_injective(w as int, cc, row, c as int, r as int);
                    }
                    assert(pixel_index(w as int, cc, row) != pixel_index(w as int, c as int, r as int));
                    assert(out.data@[pixel_index(w as int, cc, row)] == before.data@[pixel_index(
                        w as int,
                        cc,
                        row,
                    )]);
                } else {
                    assert(out.pixel_at(cc, row) == line@[c as int]);
                }
            }
            c = c + 1;
        }
        r = r + 1;
    }
}

/// Merged views that were each filled from `img` hold the edge image on every
/// interior row, whatever the worker count.
pub proof fn lemma_views_hold_edge_image(img: RgbImage, views: Seq<RowView>, num_threads: int)
    requires
        img.wf(),
        views_split(views, num_threads, img.width as int, img.height as int),
        forall|i: int| 0 <= i < views.len() ==> (#[trigger] views[i]).filled_from(img),
    ensures
        forall|c: int, r: int|
            0 <= c < img.width && 1 <= r <= img.height - 2 ==> #[trigger] view_value(
                views,
                num_threads,
                c,
                r,
            ) as int == expected_pixel(img, c, r),
{
    lemma_rows_partition_interior(num_threads, img.height as int);
    assert forall|c: int, r: int|
        0 <= c < img.width && 1 <= r <= img.height - 2 implies #[trigger] view_value(
            views,
            num_threads,
            c,
            r,
        ) as int == expected_pixel(img, c, r) by {
        let id = row_owner(r, num_threads);
        let k = (r - 1) / num_threads;
        assert(worker_row_seq(id, num_threads, img.height as int)[k] == r);
        assert(views[id].filled_from(img));
    }
}

/// The edge image is zero on its border: row 0, row `height - 1`, column 0
/// and column `width - 1`.
pub proof fn lemma_border_is_zero(img: RgbImage, col: int, row: int)
    requires
        0 <= col < img.width,
        0 <= row < img.height,
        row == 0 || row == img.height - 1 || col == 0 || col == img.width - 1,
    ensures
        expected_pixel(img, col, row) == 0,
{
}

/// Every value of the edge image lies in `[0, 255]`.
pub proof fn lemma_pixel_in_range(img: RgbImage, col: int, row: int)
    ensures
        0 <= expected_pixel(img, col, row) <= 255,
{
    if is_interior(img.width as int, img.height as int, col, row) {
        let gx = crate::kernel::gradient_x(img, col, row);
        let gy = crate::kernel::gradient_y(img, col, row);
        assert(gx * gx + gy * gy >= 0) by (nonlinear_arith);
        lemma_capped_root(gx * gx + gy * gy);
    }
}

/// Two runs over one image with any two worker counts produce the same pixel
/// at every interior row.
pub proof fn lemma_worker_count_irrelevant(
    img: RgbImage,
    views1: Seq<RowView>,
    t1: int,
    views2: Seq<RowView>,
    t2: int,
)
    requires
        img.wf(),
        views_split(views1, t1, img.width as int, img.height as int),
        views_split(views2, t2, img.width as int, img.height as int),
        forall|i: int| 0 <= i < views1.len() ==> (#[trigger] views1[i]).filled_from(img),
        forall|i: int| 0 <= i < views2.len() ==> (#[trigger] views2[i]).filled_from(img),
    ensures
        forall|c: int, r: int|
            0 <= c < img.width && 1 <= r <= img.height - 2 ==> #[trigger] view_value(views1, t1, c, r)
                == view_value(views2, t2, c, r),
{
    lemma_views_hold_edge_image(img, views1, t1);
    lemma_views_hold_edge_image(img, views2, t2);
    assert forall|c: int, r: int|
        0 <= c < img.width && 1 <= r <= img.height - 2 implies #[trigger] view_value(views1, t1, c, r)
            == view_value(views2, t2, c, r) by {
        assert(view_value(views2, t2, c, r) as int == expected_pixel(img, c, r));
    }
}

/// Runs the Sobel operator over `img` with its interior rows split among
/// `num_threads` workers, one after another, each writing only its own view.
pub fn detect_edges(img: &RgbImage, num_threads: u32) -> (r: GrayImage)
    requires
        img.wf(),
        num_threads >= 1,
    ensures
        r.wf(),
        r.width == img.width,
        r.height == img.height,
        forall|c: int, row: int|
            0 <= c < img.width && 0 <= row < img.height ==> #[trigger] r.pixel_at(c, row) as int
                == expected_pixel(*img, c, row),
{
    let _n: usize = img.data.len();
    assert(img.width as int * img.height as int <= usize::MAX) by (nonlinear_arith)
        requires img.data@.len() == img.width as int * img.height as int * 3,
            img.data@.len() <= usize::MAX;
    let mut out = GrayImage::new(img.width, img.height);
    let mut blank = split_views(img.width, img.height, num_threads);
    let ghost all = blank@;
    let mut filled: Vec<RowView> = Vec::new();
    let mut i: u32 = 0;
    while i < num_threads
        invariant
            img.wf(),
            num_threads >= 1,
            i <= num_threads,
            views_split(all, num_threads as int, img.width as int, img.height as int),
            forall|j: int, k: int, c: int|
                0 <= j < all.len() && 0 <= k < all[j].rows@.len() && 0 <= c < img.width ==> #[trigger] all[j].rows@[k]@[c]
                    == 0,
            blank@ == all.subrange(i as int, num_threads as int),
            filled@.len() == i,
            forall|j: int|
                0 <= j < i ==> {
                    &&& (#[trigger] filled@[j]).wf()
                    &&& filled@[j].filled_from(*img)
                    &&& filled@[j].worker == j
                    &&& filled@[j].num_threads == num_threads
                    &&& filled@[j].width == img.width
                    &&& filled@[j].height == img.height
                },
        decreases num_threads - i,
    {
        let mut view = blank.remove(0);
        assert(view == all[i as int]);
        view.fill(img);
        filled.push(view);
        i = i + 1;
    }
    merge_views(&mut out, &filled);
    proof {
        lemma_views_hold_edge_image(*img, filled@, num_threads as int);
        assert forall|c: int, row: int|
            0 <= c < img.width && 0 <= row < img.height implies #[trigger] out.pixel_at(c, row) as int
                == expected_pixel(*img, c, row) by {
            if 1 <= row <= img.height - 2 {
                assert(view_value(filled@, num_threads as int, c, row) as int == expected_pixel(
                    *img,
                    c,
                    row,
                ));
            } else {
                lemma_index_in_bounds(img.width as int, img.height as int, c, row);
            }
        }
    }
    out
}

} // verus!
