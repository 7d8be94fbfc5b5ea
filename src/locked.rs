use vstd::prelude::*;
use crate::image::{lemma_index_in_bounds, lemma_index_injective, pixel_index, GrayImage, RgbImage};
use crate::kernel::{is_interior, sobel_at};
use crate::partition::{lemma_rows_partition_interior, row_owner, worker_row_seq, worker_rows};
use crate::store::{expected_pixel, lemma_views_hold_edge_image, view_value, views_split, RowView};

verus! {

/// One pixel write that a worker hands to a shared, locked output image.
#[derive(Clone, Copy, Debug, PartialEq, Eq)]
pub struct PixelWrite {
    pub col: u32,
    pub row: u32,
    pub value: u8,
}

/// `w` writes the edge image's value at an interior pixel of `img`.
pub open spec fn is_edge_write(img: RgbImage, w: PixelWrite) -> bool {
    &&& is_interior(img.width as int, img.height as int, w.col as int, w.row as int)
    &&& w.value as int == expected_pixel(img, w.col as int, w.row as int)
}

/// Some write of `s` targets pixel `(col, row)`.
pub open spec fn addresses(s: Seq<PixelWrite>, col: int, row: int) -> bool {
    exists|i: int| 0 <= i < s.len() && s[i].col == col && s[i].row == row
}

/// The pixels of `data` (an image `width` pixels wide) after the writes of `s`,
/// made one at a time in order.
pub open spec fn apply_all(data: Seq<u8>, width: int, s: Seq<PixelWrite>) -> Seq<u8>
    decreases s.len(),
{
    if s.len() == 0 {
        data
    } else {
        let w = s.last();
        apply_all(data, width, s.drop_last()).update(
            pixel_index(width, w.col as int, w.row as int),
            w.value,
        )
    }
}

/// Applying edge writes, in whatever order, leaves each pixel that some write
/// targets at its edge image value and every other pixel as it was.
pub proof fn lemma_apply_edge_writes(img: RgbImage, data: Seq<u8>, s: Seq<PixelWrite>)
    requires
        img.wf(),
        data.len() == img.width as int * img.height as int,
        forall|i: int| 0 <= i < s.len() ==> is_edge_write(img, #[trigger] s[i]),
    ensures
        apply_all(data, img.width as int, s).len() == data.len(),
        forall|c: int, r: int|
            0 <= c < img.width && 0 <= r < img.height ==> #[trigger] apply_all(
                data,
                img.width as int,
                s,
            )[pixel_index(img.width as int, c, r)] as int == if addresses(s, c, r) {
                expected_pixel(img, c, r)
            } else {
                data[pixel_index(img.width as int, c, r)] as int
            },
    decreases s.len(),
{
    let w = img.width as int;
    let h = img.height as int;
    if s.len() > 0 {
        let p = s.drop_last();
        let last = s.last();
        assert(is_edge_write(img, s[s.len() - 1]));
        lemma_apply_edge_writes(img, data, p);
        lemma_index_in_bounds(w, h, last.col as int, last.row as int);
        assert forall|c: int, r: int| 0 <= c < w && 0 <= r < h implies #[trigger] apply_all(
            data,
            w,
            s,
        )[pixel_index(w, c, r)] as int == if addresses(s, c, r) {
            expected_pixel(img, c, r)
        } else {
            data[pixel_index(w, c, r)] as int
        } by {
            lemma_index_in_bounds(w, h, c, r);
            let prev = apply_all(data, w, p);
            assert(prev[pixel_index(w, c, r)] as int == if addresses(p, c, r) {
                expected_pixel(img, c, r)
            } else {
                data[pixel_index(w, c, r)] as int
            });
            if c == last.col && r == last.row {
                assert(addresses(s, c, r)) by {
                    assert(s[s.len() - 1].col == c && s[s.len() - 1].row == r);
                }
            } else {
                if pixel_index(w, c, r) == pixel_index(w, last.col as int, last.row as int) {
                    lemma_index_injective(w, c, r, last.col as int, last.row as int);
                }
                if addresses(s, c, r) {
                    let i = choose|i: int| 0 <= i < s.len() && s[i].col == c && s[i].row == r;
                    assert(p[i] == s[i]);
                    assert(addresses(p, c, r));
                }
                if addresses(p, c, r) {
                    let i = choose|i: int| 0 <= i < p.len() && p[i].col == c && p[i].row == r;
                    assert(s[i] == p[i]);
                    assert(addresses(s, c, r));
                }
            }
        }
    }
}

/// The writes worker `worker` of `num_threads` makes: one for each interior
/// column of each of its rows, with the Sobel magnitude there.
pub fn worker_writes(img: &RgbImage, worker: u32, num_threads: u32) -> (r: Vec<PixelWrite>)
    requires
        img.wf(),
        num_threads >= 1,
        worker < num_threads,
    ensures
        forall|i: int|
            0 <= i < r@.len() ==> is_edge_write(*img, #[trigger] r@[i]) && row_owner(
                r@[i].row as int,
                num_threads as int,
            ) == worker,
        forall|c: int, row: int|
            is_interior(img.width as int, img.height as int, c, row) && row_owner(
                row,
                num_threads as int,
            ) == worker ==> #[trigger] addresses(r@, c, row),
{
    let ghost t = num_threads as int;
    let ghost h = img.height as int;
    let rows = worker_rows(worker, num_threads, img.height);
    proof {
        lemma_rows_partition_interior(t, h);
    }
    let mut writes: Vec<PixelWrite> = Vec::new();
    let mut k: usize = 0;
    while k < rows.len()
        invariant
            img.wf(),
            t == num_threads,
            h == img.height,
            num_threads >= 1,
            worker < num_threads,
            k <= rows@.len(),
            rows@.len() == worker_row_seq(worker as int, t, h).len(),
            forall|j: int|
                0 <= j < rows@.len() ==> rows@[j] as int == #[trigger] worker_row_seq(
                    worker as int,
                    t,
                    h,
                )[j],
            forall|j: int|
                0 <= j < rows@.len() ==> 1 <= #[trigger] worker_row_seq(worker as int, t, h)[j]
                    <= h - 2 && row_owner(worker_row_seq(worker as int, t, h)[j], t) == worker,
            forall|i: int|
                0 <= i < writes@.len() ==> is_edge_write(*img, #[trigger] writes@[i]) && row_owner(
                    writes@[i].row as int,
                    t,
                ) == worker,
            forall|j: int, c: int|
                0 <= j < k && 1 <= c <= img.width - 2 ==> #[trigger] addresses(
                    writes@,
                    c,
                    worker_row_seq(worker as int, t, h)[j],
                ),
        decreases rows@.len() - k,
    {
        let row: u32 = rows[k];
        assert(row as int == worker_row_seq(worker as int, t, h)[k as int]);
        let mut c: u32 = 1;
        while (c as u64) + 1 < img.width as u64
            invariant
                img.wf(),
                t == num_threads,
                h == img.height,
                1 <= row <= img.height - 2,
                row_owner(row as int, t) == worker,
                1 <= c <= img.width as int + 1,
                k < rows@.len(),
                row as int == worker_row_seq(worker as int, t, h)[k as int],
                forall|i: int|
                    0 <= i < writes@.len() ==> is_edge_write(*img, #[trigger] writes@[i])
                        && row_owner(writes@[i].row as int, t) == worker,
                forall|j: int, cc: int|
                    0 <= j < k && 1 <= cc <= img.width - 2 ==> #[trigger] addresses(
                        writes@,
                        cc,
                        worker_row_seq(worker as int, t, h)[j],
                    ),
                forall|cc: int| 1 <= cc < c ==> #[trigger] addresses(writes@, cc, row as int),
            decreases img.width as int + 1 - c,
        {
            let value = sobel_at(img, c, row);
            let ghost before = writes@;
            writes.push(PixelWrite { col: c, row, value });
            assert forall|j: int, cc: int|
                0 <= j < k && 1 <= cc <= img.width - 2 implies #[trigger] addresses(
                    writes@,
                    cc,
                    worker_row_seq(worker as int, t, h)[j],
                ) by {
                let rr = worker_row_seq(worker as int, t, h)[j];
                assert(addresses(before, cc, rr));
                let i = choose|i: int| 0 <= i < before.len() && before[i].col == cc && before[i].row == rr;
                assert(writes@[i] == before[i]);
            }
            assert forall|cc: int| 1 <= cc < c + 1 implies #[trigger] addresses(
                writes@,
                cc,
                row as int,
            ) by {
                if cc < c {
                    assert(addresses(before, cc, row as int));
                    let i = choose|i: int|
                        0 <= i < before.len() && before[i].col == cc && before[i].row == row;
                    assert(writes@[i] == before[i]);
                } else {
                    assert(writes@[before.len() as int].col == cc);
                }
            }
            c = c + 1;
        }
        k = k + 1;
    }
    proof {
        assert forall|c: int, row: int|
            is_interior(img.width as int, img.height as int, c, row) && row_owner(row, t)
                == worker implies #[trigger] addresses(writes@, c, row) by {
            let j = (row - 1) / t;
            assert(worker_row_seq(worker as int, t, h)[j] == row);
        }
    }
    writes
}

/// Makes the writes of `writes` on `out`, in order.
pub fn apply_writes(out: &mut GrayImage, writes: &Vec<PixelWrite>)
    requires
        old(out).wf(),
        forall|i: int|
            0 <= i < writes@.len() ==> (#[trigger] writes@[i]).col < old(out).width
                && writes@[i].row < old(out).height,
    ensures
        final(out).wf(),
        final(out).width == old(out).width,
        final(out).height == old(out).height,
        final(out).data@ == apply_all(old(out).data@, old(out).width as int, writes@),
{
    let ghost start = out.data@;
    let mut i: usize = 0;
    while i < writes.len()
        invariant
            out.wf(),
            out.width == old(out).width,
            out.height == old(out).height,
            start == old(out).data@,
            i <= writes@.len(),
            forall|j: int|
                0 <= j < writes@.len() ==> (#[trigger] writes@[j]).col < out.width
                    && writes@[j].row < out.height,
            out.data@ == apply_all(start, out.width as int, writes@.subrange(0, i as int)),
        decreases writes@.len() - i,
    {
        let w = writes[i];
        out.put_pixel(w.col, w.row, w.value);
        assert(writes@.subrange(0, i + 1).drop_last() == writes@.subrange(0, i as int));
        i = i + 1;
    }
    assert(writes@.subrange(0, writes@.len() as int) == writes@);
}

/// Whichever order the writes of all workers reach a zero image in, the result
/// is the edge image; so a locked shared output and per-worker views agree.
pub proof fn lemma_any_order_gives_edge_image(
    img: RgbImage,
    num_threads: int,
    s: Seq<PixelWrite>,
    data: Seq<u8>,
)
    requires
        img.wf(),
        num_threads >= 1,
        data.len() == img.width as int * img.height as int,
        forall|i: int| 0 <= i < data.len() ==> data[i] == 0,
        forall|i: int| 0 <= i < s.len() ==> is_edge_write(img, #[trigger] s[i]),
        forall|c: int, r: int|
            is_interior(img.width as int, img.height as int, c, r) ==> #[trigger] addresses(s, c, r),
    ensures
        forall|c: int, r: int|
            0 <= c < img.width && 0 <= r < img.height ==> #[trigger] apply_all(
                data,
                img.width as int,
                s,
            )[pixel_index(img.width as int, c, r)] as int == expected_pixel(img, c, r),
{
    lemma_apply_edge_writes(img, data, s);
    assert forall|c: int, r: int| 0 <= c < img.width && 0 <= r < img.height implies #[trigger] apply_all(
        data,
        img.width as int,
        s,
    )[pixel_index(img.width as int, c, r)] as int == expected_pixel(img, c, r) by {
        lemma_index_in_bounds(img.width as int, img.height as int, c, r);
        if !is_interior(img.width as int, img.height as int, c, r) && addresses(s, c, r) {
            let i = choose|i: int| 0 <= i < s.len() && s[i].col == c && s[i].row == r;
            assert(is_edge_write(img, s[i]));
        }
    }
}

/// Runs the Sobel operator over `img` with `num_threads` workers that each
/// write their pixels one at a time into one shared output image.
pub fn detect_edges_locked(img: &RgbImage, num_threads: u32) -> (r: GrayImage)
    requires
        img.wf(),
        num_threads >= 1,
    ensures
        r.wf(),
        r.width == img.width,
        r.height == img.height,
        forall|c: int, row: int|
            0 <= c < img.width && 0 <= row < img.height ==> #[trigger] r.pixel_at(c, row) as int
                == expected_pixel(*img, c, row),
{
    let _n: usize = img.data.len();
    assert(img.width as int * img.height as int <= usize::MAX) by (nonlinear_arith)
        requires img.data@.len() == img.width as int * img.height as int * 3,
            img.data@.len() <= usize::MAX;
    let mut out = GrayImage::new(img.width, img.height);
    let ghost w = img.width as int;
    let ghost h = img.height as int;
    let ghost t = num_threads as int;
    proof {
        assert forall|c: int, row: int| 0 <= c < w && 0 <= row < h implies #[trigger] out.pixel_at(
            c,
            row,
        ) as int == 0 by {
            lemma_index_in_bounds(w, h, c, row);
        }
        assert forall|row: int| 1 <= row implies #[trigger] row_owner(row, t) >= 0 by {
            assert((row - 1) % t >= 0) by (nonlinear_arith)
                requires t >= 1, row >= 1;
        }
    }
    let mut id: u32 = 0;
    while id < num_threads
        invariant
            img.wf(),
            w == img.width,
            h == img.height,
            t == num_threads,
            num_threads >= 1,
            id <= num_threads,
            out.wf(),
            out.width == img.width,
            out.height == img.height,
            forall|c: int, row: int|
                0 <= c < w && 0 <= row < h ==> #[trigger] out.pixel_at(c, row) as int == if is_interior(
                    w,
                    h,
                    c,
                    row,
                ) && row_owner(row, t) < id {
                    expected_pixel(*img, c, row)
                } else {
                    0
                },
        decreases num_threads - id,
    {
        let writes = worker_writes(img, id, num_threads);
        let ghost before = out;
        apply_writes(&mut out, &writes);
        proof {
            lemma_apply_edge_writes(*img, before.data@, writes@);
            assert forall|c: int, row: int| 0 <= c < w && 0 <= row < h implies #[trigger] out.pixel_at(
                c,
                row,
            ) as int == if is_interior(w, h, c, row) && row_owner(row, t) < id + 1 {
                expected_pixel(*img, c, row)
            } else {
                0
            } by {
                let _ = before.pixel_at(c, row);
                if addresses(writes@, c, row) {
                    let i = choose|i: int| 0 <= i < writes@.len() && writes@[i].col == c && writes@[i].row == row;
                    assert(is_edge_write(*img, writes@[i]));
                }
                if is_interior(w, h, c, row) {
                    assert((row - 1) % t >= 0) by (nonlinear_arith)
                        requires t >= 1, row >= 1;
                }
            }
        }
        id = id + 1;
    }
    proof {
        assert forall|c: int, row: int|
            0 <= c < w && 0 <= row < h implies #[trigger] out.pixel_at(c, row) as int
                == expected_pixel(*img, c, row) by {
            if is_interior(w, h, c, row) {
                assert((row - 1) % t < t) by (nonlinear_arith)
                    requires t >= 1, row >= 1;
            }
        }
    }
    out
}

/// The locked discipline and the per-worker views give the same image: with
/// views filled by all workers, and the writes of all workers reaching a zero
/// image in any order, every interior row matches pixel for pixel.
pub proof fn lemma_disciplines_agree(
    img: RgbImage,
    num_threads: int,
    views: Seq<RowView>,
    s: Seq<PixelWrite>,
    data: Seq<u8>,
)
    requires
        img.wf(),
        views_split(views, num_threads, img.width as int, img.height as int),
        forall|i: int| 0 <= i < views.len() ==> (#[trigger] views[i]).filled_from(img),
        data.len() == img.width as int * img.height as int,
        forall|i: int| 0 <= i < data.len() ==> data[i] == 0,
        forall|i: int| 0 <= i < s.len() ==> is_edge_write(img, #[trigger] s[i]),
        forall|c: int, r: int|
            is_interior(img.width as int, img.height as int, c, r) ==> #[trigger] addresses(s, c, r),
    ensures
        forall|c: int, r: int|
            0 <= c < img.width && 1 <= r <= img.height - 2 ==> #[trigger] apply_all(
                data,
                img.width as int,
                s,
            )[pixel_index(img.width as int, c, r)] == view_value(views, num_threads, c, r),
{
    lemma_views_hold_edge_image(img, views, num_threads);
    lemma_any_order_gives_edge_image(img, num_threads, s, data);
    assert forall|c: int, r: int| 0 <= c < img.width && 1 <= r <= img.height - 2 implies #[trigger] apply_all(
        data,
        img.width as int,
        s,
    )[pixel_index(img.width as int, c, r)] == view_value(views, num_threads, c, r) by {
        assert(view_value(views, num_threads, c, r) as int == expected_pixel(img, c, r));
    }
}

} // verus!
