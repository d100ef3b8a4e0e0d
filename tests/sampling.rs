use std::cell::Cell;

use ndrt::raster::{difference_sq, find_max_deviation, get_px, get_px_checked, set_px, ColorInt};
use ndrt::sampler::{
    fill_sample_grid, init_sample_grid, render, COARSE_STEP, FINE_MAX_SQ_DEVIATION, FINE_STEP,
    MEDIUM_MAX_SQ_DEVIATION, MEDIUM_STEP,
};

fn blank(width: usize, height: usize) -> Vec<u8> {
    vec![0u8; width * height * 4]
}

#[test]
fn set_px_writes_rgb_and_forces_alpha() {
    let mut data = blank(3, 2);
    set_px(&mut data, 3, 1, 1, [10, 20, 30, 40]);
    assert_eq!(get_px(&data, 3, 1, 1), [10, 20, 30, 255]);
    let index = (1 + 3) * 4;
    for (i, b) in data.iter().enumerate() {
        if i < index || i >= index + 4 {
            assert_eq!(*b, 0);
        }
    }
}

#[test]
fn get_px_checked_rejects_pixels_off_the_buffer() {
    let mut data = blank(2, 2);
    set_px(&mut data, 2, 1, 0, [1, 2, 3, 4]);
    assert_eq!(get_px_checked(&data, 2, 1, 0), Some([1, 2, 3, 255]));
    assert_eq!(get_px_checked(&data, 2, 0, 1), Some([0, 0, 0, 0]));
    assert_eq!(get_px_checked(&data, 2, 2, 0), None);
    assert_eq!(get_px_checked(&data, 2, 0, 2), None);
    assert_eq!(get_px_checked(&data, 0, 0, 0), None);
}

#[test]
fn difference_sq_is_squared_rgb_distance() {
    assert_eq!(difference_sq(&[10, 20, 30, 255], &[13, 16, 30, 0]), 25);
    assert_eq!(difference_sq(&[0, 0, 0, 0], &[255, 255, 255, 255]), 3 * 255 * 255);
    assert_eq!(difference_sq(&[7, 7, 7, 1], &[7, 7, 7, 200]), 0);
}

#[test]
fn find_max_deviation_takes_the_largest_present() {
    let c: ColorInt = [100, 100, 100, 255];
    assert_eq!(find_max_deviation(c, None, None, None, None), 0);
    assert_eq!(
        find_max_deviation(c, Some([103, 100, 100, 255]), None, Some([100, 96, 100, 255]), None),
        16
    );
    assert_eq!(
        find_max_deviation(
            c,
            Some([101, 100, 100, 0]),
            Some([100, 100, 110, 0]),
            Some([100, 102, 100, 0]),
            Some([99, 100, 100, 0]),
        ),
        100
    );
}

#[test]
fn init_samples_only_cell_centres() {
    let (w, h) = (18usize, 9usize);
    let mut data = blank(w, h);
    let calls = Cell::new(0usize);
    let sample = |x: usize, y: usize| -> ColorInt {
        calls.set(calls.get() + 1);
        [x as u8, y as u8, 7, 0]
    };
    init_sample_grid(&mut data, w, h, 9, &sample);
    assert_eq!(calls.get(), 2);
    for y in 0..h {
        for x in 0..w {
            let px = get_px(&data, w, x, y);
            if (x == 4 || x == 13) && y == 4 {
                assert_eq!(px, [x as u8, 4, 7, 255]);
            } else {
                assert_eq!(px, [0, 0, 0, 0]);
            }
        }
    }
}

/// A 27 by 27 buffer whose nine coarse centres all hold `colour`.
fn coarse_buffer(colour: ColorInt) -> Vec<u8> {
    let mut data = blank(27, 27);
    init_sample_grid(&mut data, 27, 27, 9, &|_x: usize, _y: usize| colour);
    data
}

#[test]
fn fill_copies_centre_in_uniform_interior_cell() {
    let colour: ColorInt = [40, 80, 120, 255];
    let mut data = coarse_buffer(colour);
    let calls = Cell::new(0usize);
    let marker = |_x: usize, _y: usize| -> ColorInt {
        calls.set(calls.get() + 1);
        [1, 2, 3, 4]
    };
    fill_sample_grid(&mut data, 27, 27, 9, 3, MEDIUM_MAX_SQ_DEVIATION, &marker);
    // Eight edge cells, each with eight fine positions besides the centre.
    assert_eq!(calls.get(), 64);
    for &(x, y) in &[(10usize, 10usize), (13, 10), (16, 10), (10, 13), (16, 13), (10, 16), (13, 16), (16, 16)] {
        assert_eq!(get_px(&data, 27, x, y), colour);
    }
    // Edge cells are sampled afresh.
    assert_eq!(get_px(&data, 27, 1, 1), [1, 2, 3, 255]);
    assert_eq!(get_px(&data, 27, 25, 22), [1, 2, 3, 255]);
    // Centres stay as they were; positions off the fine grid are untouched.
    assert_eq!(get_px(&data, 27, 4, 4), colour);
    assert_eq!(get_px(&data, 27, 13, 13), colour);
    assert_eq!(get_px(&data, 27, 11, 13), [0, 0, 0, 0]);
}

fn fill_with_right_neighbour(neighbour: ColorInt) -> ColorInt {
    let colour: ColorInt = [100, 100, 100, 255];
    let mut data = coarse_buffer(colour);
    set_px(&mut data, 27, 22, 13, neighbour);
    fill_sample_grid(&mut data, 27, 27, 9, 3, MEDIUM_MAX_SQ_DEVIATION, &|_x: usize, _y: usize| {
        [9, 9, 9, 9]
    });
    get_px(&data, 27, 10, 13)
}

#[test]
fn fill_threshold_is_inclusive() {
    // 9 * 9 + 9 * 9 = 162: within tolerance, the centre is reused.
    assert_eq!(fill_with_right_neighbour([109, 91, 100, 255]), [100, 100, 100, 255]);
    // 162 + 1 = 163: over tolerance, the cell is sampled afresh.
    assert_eq!(fill_with_right_neighbour([109, 91, 101, 255]), [9, 9, 9, 255]);
}

#[test]
fn fill_to_single_pixels_covers_every_non_centre() {
    let (w, h) = (6usize, 3usize);
    let mut data = blank(w, h);
    init_sample_grid(&mut data, w, h, 3, &|x: usize, _y: usize| [x as u8, 0, 0, 0]);
    fill_sample_grid(&mut data, w, h, 3, 1, FINE_MAX_SQ_DEVIATION, &|x: usize, y: usize| {
        [x as u8, y as u8, 50, 0]
    });
    for y in 0..h {
        for x in 0..w {
            let px = get_px(&data, w, x, y);
            if (x == 1 || x == 4) && y == 1 {
                assert_eq!(px, [x as u8, 0, 0, 255]);
            } else {
                // Every cell touches the edge, so every position is resampled.
                assert_eq!(px, [x as u8, y as u8, 50, 255]);
            }
        }
    }
}

#[test]
fn uniform_scene_reuses_coarse_samples() {
    let colour: ColorInt = [30, 60, 90, 255];
    let mut data = blank(27, 27);
    let calls = Cell::new(0usize);
    let sample = |_x: usize, _y: usize| -> ColorInt {
        calls.set(calls.get() + 1);
        colour
    };
    render(&mut data, 27, 27, &sample);
    for y in 0..27 {
        for x in 0..27 {
            assert_eq!(get_px(&data, 27, x, y), colour);
        }
    }
    // 9 coarse samples; the medium pass resamples only its 8 edge cells
    // (8 positions each); the finest pass only its 32 edge cells.
    assert_eq!(calls.get(), 9 + 8 * 8 + 32 * 8);
    assert!(calls.get() < 27 * 27);
}

#[test]
fn render_commits_every_pixel() {
    let (w, h) = (18usize, 9usize);
    let mut data = vec![7u8; w * h * 4];
    render(&mut data, w, h, &|x: usize, y: usize| [x as u8, y as u8, 200, 3]);
    for y in 0..h {
        for x in 0..w {
            let px = get_px(&data, w, x, y);
            assert_eq!(px[2], 200);
            assert_eq!(px[3], 255);
            assert!((px[0] as usize) < w && (px[1] as usize) < h);
        }
    }
}

#[test]
fn pass_constants() {
    assert_eq!((COARSE_STEP, MEDIUM_STEP, FINE_STEP), (9, 3, 1));
    assert_eq!(MEDIUM_MAX_SQ_DEVIATION, 162);
    assert_eq!(FINE_MAX_SQ_DEVIATION, 650);
}
