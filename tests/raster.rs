use rusty_mandelbrot::color::{channel_of, put_pixel};
use rusty_mandelbrot::partition::{partition, Band};
use rusty_mandelbrot::render::{
    draw, draw_in_bands, draw_low_res, draw_low_res_in_bands, draw_range, draw_slice,
};

fn grey(degree: u8) -> [u8; 4] {
    let c = 255 - degree;
    [c, c, c, 255]
}

fn pixel(frame: &[u8], i: usize) -> [u8; 4] {
    [frame[4 * i], frame[4 * i + 1], frame[4 * i + 2], frame[4 * i + 3]]
}

#[test]
fn channel_inverts_degree() {
    assert_eq!(channel_of(0), 255);
    assert_eq!(channel_of(50), 205);
    assert_eq!(channel_of(254), 1);
    assert_eq!(channel_of(255), 0);
}

#[test]
fn channel_clamps_out_of_range() {
    assert_eq!(channel_of(-7), 255);
    assert_eq!(channel_of(300), 0);
    assert_eq!(channel_of(i64::MAX), 0);
}

#[test]
fn put_pixel_writes_one_slot() {
    let mut frame = vec![9u8; 12];
    put_pixel(&mut frame, 1, 5);
    assert_eq!(frame, vec![9, 9, 9, 9, 250, 250, 250, 255, 9, 9, 9, 9]);
}

#[test]
fn partition_even_split() {
    let bands = partition(1000 * 1000, 8);
    assert_eq!(bands.len(), 8);
    for (k, b) in bands.iter().enumerate() {
        assert_eq!(*b, Band { first_pixel: k * 125_000, pixel_count: 125_000 });
    }
}

#[test]
fn partition_last_band_takes_remainder() {
    let bands = partition(10, 3);
    assert_eq!(
        bands,
        vec![
            Band { first_pixel: 0, pixel_count: 3 },
            Band { first_pixel: 3, pixel_count: 3 },
            Band { first_pixel: 6, pixel_count: 4 },
        ]
    );
}

#[test]
fn partition_more_bands_than_pixels() {
    let bands = partition(2, 4);
    assert_eq!(bands.len(), 4);
    for b in &bands[..3] {
        assert_eq!(*b, Band { first_pixel: 0, pixel_count: 0 });
    }
    assert_eq!(bands[3], Band { first_pixel: 0, pixel_count: 2 });
}

#[test]
fn partition_single_band_and_empty_frame() {
    assert_eq!(partition(77, 1), vec![Band { first_pixel: 0, pixel_count: 77 }]);
    assert_eq!(partition(0, 2), vec![Band { first_pixel: 0, pixel_count: 0 }; 2]);
}

#[test]
fn partition_covers_every_pixel_once() {
    for total in [0usize, 1, 7, 100, 1001] {
        for n in 1usize..10 {
            let bands = partition(total, n);
            let mut next = 0;
            for b in &bands {
                assert_eq!(b.first_pixel, next);
                next += b.pixel_count;
            }
            assert_eq!(next, total);
        }
    }
}

#[test]
fn draw_maps_index_to_position() {
    // width 3, 2 rows: pixel i sits at (i % 3, i / 3)
    let mut frame = vec![0u8; 24];
    draw(&mut frame, 3, &|x: usize, y: usize| (10 * y + x) as i64);
    for i in 0..6 {
        assert_eq!(pixel(&frame, i), grey((10 * (i / 3) + i % 3) as u8));
    }
}

#[test]
fn draw_leaves_trailing_bytes() {
    let mut frame = vec![7u8; 10];
    draw(&mut frame, 2, &|_x: usize, _y: usize| 1);
    assert_eq!(frame, vec![254, 254, 254, 255, 254, 254, 254, 255, 7, 7]);
}

#[test]
fn draw_slice_uses_global_index() {
    let mut frame = vec![0u8; 8];
    draw_slice(&mut frame, 4, 6, &|x: usize, y: usize| (x * 10 + y) as i64);
    // slots 0 and 1 are pixels 6 and 7: (2, 1) and (3, 1)
    assert_eq!(pixel(&frame, 0), grey(21));
    assert_eq!(pixel(&frame, 1), grey(31));
}

#[test]
fn draw_range_touches_only_its_slots() {
    let mut frame = vec![1u8; 16];
    draw_range(&mut frame, 2, 1, 2, 0, &|x: usize, y: usize| (x + 2 * y) as i64);
    assert_eq!(pixel(&frame, 0), [1, 1, 1, 1]);
    assert_eq!(pixel(&frame, 1), grey(1));
    assert_eq!(pixel(&frame, 2), grey(2));
    assert_eq!(pixel(&frame, 3), [1, 1, 1, 1]);
}

#[test]
fn low_res_repeats_samples() {
    let mut frame = vec![0u8; 4 * 10];
    let calls = std::cell::Cell::new(0);
    draw_low_res(&mut frame, 10, 0, 4, &|x: usize, _y: usize| {
        calls.set(calls.get() + 1);
        x as i64
    });
    assert_eq!(calls.get(), 3);
    let expected = [0u8, 0, 0, 0, 4, 4, 4, 4, 8, 8];
    for i in 0..10 {
        assert_eq!(pixel(&frame, i), grey(expected[i]));
    }
}

#[test]
fn low_res_stride_one_is_full_res() {
    let eval = |x: usize, y: usize| (3 * x + y) as i64;
    let mut a = vec![0u8; 4 * 12];
    let mut b = vec![0u8; 4 * 12];
    draw_low_res(&mut a, 4, 0, 1, &eval);
    draw(&mut b, 4, &eval);
    assert_eq!(a, b);
}

#[test]
fn low_res_samples_from_band_start() {
    // the band starts at frame pixel 5; sampling counts from the band's start
    let mut frame = vec![0u8; 4 * 6];
    draw_low_res(&mut frame, 100, 5, 3, &|x: usize, _y: usize| x as i64);
    let expected = [5u8, 5, 5, 8, 8, 8];
    for i in 0..6 {
        assert_eq!(pixel(&frame, i), grey(expected[i]));
    }
}

#[test]
fn bands_match_single_worker() {
    let eval = |x: usize, y: usize| ((x * 7 + y * 13) % 256) as i64;
    let mut one = vec![0u8; 4 * 37 * 23];
    let mut eight = vec![0xAAu8; 4 * 37 * 23];
    draw_in_bands(&mut one, 37, 1, &eval);
    draw_in_bands(&mut eight, 37, 8, &eval);
    assert_eq!(one, eight);
    let mut plain = vec![0u8; 4 * 37 * 23];
    draw(&mut plain, 37, &eval);
    assert_eq!(one, plain);
}

#[test]
fn low_res_bands_follow_each_band() {
    let (w, h, n, stride) = (10usize, 7usize, 3usize, 4usize);
    let mut frame = vec![0u8; 4 * w * h];
    draw_low_res_in_bands(&mut frame, w, n, stride, &|x: usize, y: usize| (x + 10 * y) as i64);
    for b in partition(w * h, n) {
        for s in b.first_pixel..b.first_pixel + b.pixel_count {
            let local = s - b.first_pixel;
            let sample = s - local % stride;
            assert_eq!(pixel(&frame, s), pixel(&frame, sample));
            if local % stride == 0 {
                assert_eq!(pixel(&frame, s), grey((s % w + 10 * (s / w)) as u8));
            }
        }
    }
}

fn escape_degree(cx: f64, cy: f64, max_steps: i64, threshold: f64) -> i64 {
    let (mut zr, mut zi) = (0.0f64, 0.0f64);
    let mut index: i64 = 0;
    while index < max_steps && zr * zr + zi * zi < threshold * threshold {
        let t = zr * zr - zi * zi + cx;
        zi = 2.0 * zr * zi + cy;
        zr = t;
        index += 1;
    }
    index
}

#[test]
fn end_to_end_hundred_square() {
    let (w, h) = (100usize, 100usize);
    let (left, top, right, bottom) = (-2.0f64, 1.0f64, 1.0f64, -1.0f64);
    let kx = (right - left) / w as f64;
    let ky = (top - bottom) / h as f64;
    let eval = |x: usize, y: usize| {
        escape_degree(left + x as f64 * kx, top - y as f64 * ky, 50, 4.0)
    };
    let mut frame = vec![0u8; 4 * w * h];
    draw_in_bands(&mut frame, w, 4, &eval);
    // nearest pixel to (0, 0): x = 2 / kx, y = 1 / ky
    let origin = 50 * w + 67;
    let corner = 0;
    assert!(255 - frame[4 * origin] as i64 >= 45);
    assert!(255 - frame[4 * corner] as i64 <= 5);
}
