use sobel_edges::config::{ArgumentError, Configuration};
use sobel_edges::image::{GrayImage, RgbImage};
use sobel_edges::kernel::{magnitude, sobel_at, weight_x, weight_y};
use sobel_edges::locked::{apply_writes, detect_edges_locked, worker_writes, PixelWrite};
use sobel_edges::partition::worker_rows;
use sobel_edges::store::{detect_edges, merge_views, split_views};

fn image_from(width: u32, height: u32, f: impl Fn(u32, u32) -> u8) -> RgbImage {
    let mut data = Vec::new();
    for row in 0..height {
        for col in 0..width {
            let v = f(col, row);
            data.push(v);
            data.push(v.wrapping_mul(3));
            data.push(v.wrapping_add(91));
        }
    }
    RgbImage::from_raw(width, height, data).unwrap()
}

fn noisy(width: u32, height: u32) -> RgbImage {
    image_from(width, height, |c, r| ((c * 37 + r * 101 + c * r * 13) % 256) as u8)
}

fn args(list: &[&str]) -> Vec<String> {
    list.iter().map(|s| s.to_string()).collect()
}

#[test]
fn rows_of_single_worker() {
    assert_eq!(worker_rows(0, 1, 5), vec![1, 2, 3]);
}

#[test]
fn rows_striped_by_worker() {
    assert_eq!(worker_rows(1, 3, 10), vec![2, 5, 8]);
    assert_eq!(worker_rows(2, 3, 10), vec![3, 6]);
    assert_eq!(worker_rows(0, 3, 10), vec![1, 4, 7]);
}

#[test]
fn rows_empty_for_short_images() {
    assert!(worker_rows(0, 1, 0).is_empty());
    assert!(worker_rows(0, 1, 2).is_empty());
    assert!(worker_rows(1, 4, 3).is_empty());
    assert_eq!(worker_rows(0, 4, 3), vec![1]);
}

#[test]
fn rows_cover_interior_once() {
    for t in 1..9u32 {
        for h in 0..20u32 {
            let mut seen = vec![0u32; h as usize];
            for id in 0..t {
                for r in worker_rows(id, t, h) {
                    seen[r as usize] += 1;
                }
            }
            for r in 0..h {
                let want = if r >= 1 && r + 1 < h { 1 } else { 0 };
                assert_eq!(seen[r as usize], want, "t={} h={} r={}", t, h, r);
            }
        }
    }
}

#[test]
fn kernel_weights() {
    let kx = [[-1, 0, 1], [-2, 0, 2], [-1, 0, 1]];
    let ky = [[1, 2, 1], [0, 0, 0], [-1, -2, -1]];
    for dx in 0..3 {
        for dy in 0..3 {
            assert_eq!(weight_x(dx, dy), kx[dx][dy]);
            assert_eq!(weight_y(dx, dy), ky[dx][dy]);
        }
    }
}

#[test]
fn magnitude_rounds_root() {
    assert_eq!(magnitude(0, 0), 0);
    assert_eq!(magnitude(3, 4), 5);
    assert_eq!(magnitude(1, 1), 1);
    assert_eq!(magnitude(1, 2), 2);
    assert_eq!(magnitude(2, 3), 4);
    assert_eq!(magnitude(-10, 10), 14);
}

#[test]
fn magnitude_clamps() {
    assert_eq!(magnitude(1020, 0), 255);
    assert_eq!(magnitude(180, 180), 255);
    assert_eq!(magnitude(-4590, 4590), 255);
    assert_eq!(magnitude(254, 0), 254);
}

#[test]
fn sobel_single_corner() {
    let img = image_from(3, 3, |c, r| if c == 0 && r == 0 { 10 } else { 0 });
    assert_eq!(sobel_at(&img, 1, 1), 14);
}

#[test]
fn sobel_reads_first_channel_only() {
    let mut data = vec![0u8; 27];
    for p in 0..9 {
        data[p * 3 + 1] = (p * 20) as u8;
        data[p * 3 + 2] = 255 - (p * 20) as u8;
    }
    let img = RgbImage::from_raw(3, 3, data).unwrap();
    assert_eq!(sobel_at(&img, 1, 1), 0);
}

#[test]
fn from_raw_checks_length() {
    assert!(RgbImage::from_raw(2, 2, vec![0; 11]).is_none());
    assert!(RgbImage::from_raw(2, 2, vec![0; 12]).is_some());
    assert!(RgbImage::from_raw(0, 5, vec![]).is_some());
}

#[test]
fn gray_put_and_get() {
    let mut g = GrayImage::new(4, 3);
    assert_eq!(g.data, vec![0; 12]);
    g.put_pixel(2, 1, 9);
    assert_eq!(g.get_pixel(2, 1), 9);
    assert_eq!(g.data[6], 9);
    assert_eq!(g.data.iter().filter(|&&v| v != 0).count(), 1);
}

#[test]
fn uniform_gray_gives_zero() {
    let img = image_from(5, 5, |_, _| 100);
    let out = detect_edges(&img, 1);
    assert_eq!(out.width, 5);
    assert_eq!(out.height, 5);
    assert!(out.data.iter().all(|&v| v == 0));
}

#[test]
fn vertical_step_edge() {
    let img = image_from(5, 5, |c, _| if c < 2 { 0 } else { 255 });
    let one = detect_edges(&img, 1);
    let four = detect_edges(&img, 4);
    assert_eq!(one.data, four.data);
    for row in 0..5u32 {
        for col in 0..5u32 {
            let interior = (1..4).contains(&row) && (1..4).contains(&col);
            let want = if interior && (col == 1 || col == 2) { 255 } else { 0 };
            assert_eq!(one.get_pixel(col, row), want, "col={} row={}", col, row);
        }
    }
}

#[test]
fn border_stays_zero() {
    let img = image_from(9, 7, |c, r| ((c * 97 + r * 31) % 256) as u8);
    for t in 1..5 {
        let out = detect_edges(&img, t);
        for col in 0..9 {
            assert_eq!(out.get_pixel(col, 0), 0);
            assert_eq!(out.get_pixel(col, 6), 0);
        }
        for row in 0..7 {
            assert_eq!(out.get_pixel(0, row), 0);
            assert_eq!(out.get_pixel(8, row), 0);
        }
        assert!(out.data.iter().any(|&v| v != 0));
    }
}

#[test]
fn thread_count_does_not_matter() {
    let img = noisy(11, 9);
    let base = detect_edges(&img, 1);
    for t in 2..12 {
        assert_eq!(detect_edges(&img, t).data, base.data, "t={}", t);
    }
}

#[test]
fn disciplines_agree() {
    let img = noisy(10, 8);
    for t in 1..6 {
        assert_eq!(detect_edges_locked(&img, t).data, detect_edges(&img, t).data);
    }
}

#[test]
fn write_order_does_not_matter() {
    let img = noisy(8, 8);
    let t = 3;
    let mut all: Vec<PixelWrite> = Vec::new();
    for id in (0..t).rev() {
        let mut w = worker_writes(&img, id, t);
        w.reverse();
        all.extend(w);
    }
    let mut out = GrayImage::new(8, 8);
    apply_writes(&mut out, &all);
    assert_eq!(out.data, detect_edges(&img, 1).data);
}

#[test]
fn worker_writes_cover_owned_rows() {
    let img = noisy(6, 9);
    let w = worker_writes(&img, 1, 3);
    assert_eq!(w.len(), 2 * 4);
    assert!(w.iter().all(|p| (p.row - 1) % 3 == 1 && p.col >= 1 && p.col <= 4));
    assert_eq!(w[0], PixelWrite { col: 1, row: 2, value: sobel_at(&img, 1, 2) });
}

#[test]
fn views_fill_and_merge() {
    let img = noisy(7, 6);
    let mut views = split_views(7, 6, 2);
    assert_eq!(views.len(), 2);
    assert_eq!(views[0].rows.len(), 2);
    assert_eq!(views[1].rows.len(), 2);
    for v in views.iter_mut() {
        v.fill(&img);
    }
    let mut out = GrayImage::new(7, 6);
    merge_views(&mut out, &views);
    assert_eq!(out.data, detect_edges(&img, 5).data);
    assert_eq!(views[1].rows[0][3], sobel_at(&img, 3, 2));
}

#[test]
fn zero_threads_refused() {
    let r = Configuration::new(&args(&["prog", "in.png", "out.png", "0"]));
    assert_eq!(r.err(), Some(ArgumentError::ZeroThreadCount));
}

#[test]
fn non_numeric_threads_refused() {
    for bad in ["abc", "", "-3", "4x", "4294967296", " 4"] {
        let r = Configuration::new(&args(&["prog", "in.png", "out.png", bad]));
        assert_eq!(r.err(), Some(ArgumentError::InvalidThreadCount), "{:?}", bad);
    }
}

#[test]
fn missing_arguments_refused() {
    let r = Configuration::new(&args(&["prog", "in.png", "out.png"]));
    assert_eq!(r.err(), Some(ArgumentError::NotEnoughArguments));
}

#[test]
fn arguments_accepted() {
    let c = Configuration::new(&args(&["prog", "in.png", "out.png", "+12", "extra"])).unwrap();
    assert_eq!(c.file_path, "in.png");
    assert_eq!(c.out_path, "out.png");
    assert_eq!(c.num_threads, 12);
    let c = Configuration::new(&args(&["prog", "a", "b", "4294967295"])).unwrap();
    assert_eq!(c.num_threads, u32::MAX);
}
