use lau_computer_vision::image::kernel_shape;
use lau_computer_vision::{Border, GrayImage, ImageError};

#[test]
fn test_create_blank_image() {
    let img: GrayImage<f64> = GrayImage::new(10, 20);
    assert_eq!(img.width(), 10);
    assert_eq!(img.height(), 20);
    assert_eq!(img.get(5, 5).unwrap(), 0.0);
}

#[test]
fn test_set_and_get() {
    let mut img: GrayImage<f64> = GrayImage::new(5, 5);
    img.set(2, 3, 128.0).unwrap();
    assert_eq!(img.get(2, 3).unwrap(), 128.0);
}

#[test]
fn test_out_of_bounds() {
    let img: GrayImage<f64> = GrayImage::new(5, 5);
    assert!(img.get(5, 0).is_err());
    assert!(img.get(0, 5).is_err());
}

#[test]
fn test_histogram() {
    let mut img: GrayImage<u8> = GrayImage::new(2, 2);
    img.set(0, 0, 0).unwrap();
    img.set(1, 0, 100).unwrap();
    img.set(0, 1, 100).unwrap();
    img.set(1, 1, 200).unwrap();
    let hist = img.histogram();
    assert_eq!(hist[0], 1);
    assert_eq!(hist[100], 2);
    assert_eq!(hist[200], 1);
}

#[test]
fn test_from_u8() {
    let data = vec![0u8, 128, 255, 64];
    let img: GrayImage<f64> = GrayImage::from_u8(2, 2, &data).unwrap();
    assert_eq!(img.get(1, 0).unwrap(), 128.0);
    assert_eq!(img.get(1, 1).unwrap(), 64.0);
}

#[test]
fn test_padded_boundary() {
    let mut img: GrayImage<f64> = GrayImage::new(3, 3);
    img.set(1, 1, 42.0).unwrap();
    assert_eq!(img.get_padded(-1, -1), 0.0);
    assert_eq!(img.get_padded(3, 3), 0.0);
    assert_eq!(img.get_padded(1, 1), 42.0);
}

#[test]
fn test_clamped_boundary() {
    let mut img: GrayImage<f64> = GrayImage::new(3, 3);
    img.set(0, 0, 10.0).unwrap();
    img.set(2, 2, 99.0).unwrap();
    assert_eq!(img.get_clamped(-1, -1), 10.0);
    assert_eq!(img.get_clamped(3, 3), 99.0);
}

#[test]
fn test_map() {
    let mut img: GrayImage<f64> = GrayImage::new(2, 2);
    img.set(0, 0, 10.0).unwrap();
    img.set(1, 0, 20.0).unwrap();
    let doubled = img.map(|v| v * 2.0);
    assert_eq!(doubled.get(0, 0).unwrap(), 20.0);
    assert_eq!(doubled.get(1, 0).unwrap(), 40.0);
}

#[test]
fn test_zip_with() {
    let mut a: GrayImage<f64> = GrayImage::new(2, 2);
    let mut b: GrayImage<f64> = GrayImage::new(2, 2);
    a.set(0, 0, 10.0).unwrap();
    b.set(0, 0, 5.0).unwrap();
    let c = a.zip_with(&b, |x, y| x + y).unwrap();
    assert_eq!(c.get(0, 0).unwrap(), 15.0);
}

#[test]
fn from_vec_rejects_zero_dimension() {
    let r: Result<GrayImage<f64>, ImageError> = GrayImage::from_vec(0, 3, vec![]);
    assert_eq!(r.unwrap_err(), ImageError::InvalidDimensions);
    let r: Result<GrayImage<f64>, ImageError> = GrayImage::from_vec(3, 0, vec![]);
    assert_eq!(r.unwrap_err(), ImageError::InvalidDimensions);
}

#[test]
fn from_vec_rejects_wrong_length() {
    let r: Result<GrayImage<f64>, ImageError> = GrayImage::from_vec(2, 2, vec![1.0, 2.0, 3.0]);
    assert_eq!(r.unwrap_err(), ImageError::DimensionMismatch);
}

#[test]
fn from_vec_is_row_major() {
    let img = GrayImage::from_vec(3, 2, vec![1, 2, 3, 4, 5, 6]).unwrap();
    assert_eq!(img.get(0, 0).unwrap(), 1);
    assert_eq!(img.get(2, 0).unwrap(), 3);
    assert_eq!(img.get(0, 1).unwrap(), 4);
    assert_eq!(img.get(2, 1).unwrap(), 6);
    assert_eq!(img.data(), &[1, 2, 3, 4, 5, 6]);
}

#[test]
fn from_u8_errors() {
    let r: Result<GrayImage<f64>, ImageError> = GrayImage::from_u8(0, 1, &[]);
    assert_eq!(r.unwrap_err(), ImageError::InvalidDimensions);
    let r: Result<GrayImage<f64>, ImageError> = GrayImage::from_u8(2, 1, &[1]);
    assert_eq!(r.unwrap_err(), ImageError::DimensionMismatch);
}

#[test]
fn get_reports_position_and_size() {
    let img: GrayImage<f64> = GrayImage::new(4, 3);
    assert_eq!(
        img.get(4, 1).unwrap_err(),
        ImageError::OutOfBounds { x: 4, y: 1, width: 4, height: 3 }
    );
}

#[test]
fn set_out_of_bounds_leaves_image_unchanged() {
    let mut img: GrayImage<i32> = GrayImage::new(2, 2);
    img.set(1, 1, 7).unwrap();
    let before = img.clone();
    assert_eq!(
        img.set(2, 0, 9).unwrap_err(),
        ImageError::OutOfBounds { x: 2, y: 0, width: 2, height: 2 }
    );
    assert_eq!(img, before);
}

#[test]
fn set_changes_only_the_target_pixel() {
    let mut img = GrayImage::from_vec(2, 2, vec![1, 2, 3, 4]).unwrap();
    img.set(1, 0, 9).unwrap();
    assert_eq!(img.data(), &[1, 9, 3, 4]);
}

#[test]
fn clamped_reads_edges() {
    let img = GrayImage::from_vec(3, 2, vec![1, 2, 3, 4, 5, 6]).unwrap();
    assert_eq!(img.get_clamped(5, 0), 3);
    assert_eq!(img.get_clamped(-4, 1), 4);
    assert_eq!(img.get_clamped(1, 9), 5);
}

#[test]
fn zip_with_rejects_mismatched_sizes() {
    let a: GrayImage<f64> = GrayImage::new(2, 2);
    let b: GrayImage<f64> = GrayImage::new(3, 2);
    assert_eq!(a.zip_with(&b, |x, y| x + y).unwrap_err(), ImageError::DimensionMismatch);
}

#[test]
fn data_mut_writes_through() {
    let mut img: GrayImage<u8> = GrayImage::new(2, 1);
    img.data_mut()[1] = 5;
    assert_eq!(img.get(1, 0).unwrap(), 5);
}

#[test]
fn histogram_counts_every_pixel() {
    let img = GrayImage::from_vec(3, 2, vec![0u8, 255, 255, 7, 7, 7]).unwrap();
    let hist = img.histogram();
    assert_eq!(hist[0], 1);
    assert_eq!(hist[7], 3);
    assert_eq!(hist[255], 2);
    assert_eq!(hist.iter().sum::<usize>(), 6);
}

#[test]
fn kernel_shape_accepts_rectangular() {
    let k = vec![vec![0.0, 1.0, 0.0], vec![1.0, 1.0, 1.0]];
    assert_eq!(kernel_shape(&k), Ok((2, 3)));
}

#[test]
fn kernel_shape_rejects_invalid() {
    let empty: Vec<Vec<f64>> = vec![];
    assert_eq!(kernel_shape(&empty), Err(ImageError::InvalidKernel));
    let empty_row: Vec<Vec<f64>> = vec![vec![]];
    assert_eq!(kernel_shape(&empty_row), Err(ImageError::InvalidKernel));
    let ragged = vec![vec![1.0, 2.0], vec![3.0]];
    assert_eq!(kernel_shape(&ragged), Err(ImageError::InvalidKernel));
}

#[test]
fn fold_windows_identity_kernel() {
    let mut img: GrayImage<i64> = GrayImage::new(5, 5);
    img.set(2, 2, 100).unwrap();
    let kernel = vec![vec![0i64, 0, 0], vec![0, 1, 0], vec![0, 0, 0]];
    let out = img.fold_windows(&kernel, Border::Constant(0), 0i64, |acc, k, v| acc + k * v);
    assert_eq!(out.data(), img.data());
}

#[test]
fn fold_windows_box_sum_with_zero_padding() {
    let img = GrayImage::from_vec(3, 2, vec![1i64, 2, 3, 4, 5, 6]).unwrap();
    let kernel = vec![vec![1i64; 3]; 3];
    let out = img.fold_windows(&kernel, Border::Constant(0), 0i64, |acc, k, v| acc + k * v);
    assert_eq!(out.data(), &[12, 21, 16, 12, 21, 16]);
}

#[test]
fn fold_windows_visits_cells_row_major_centred() {
    // Record the covered pixels (as values) in visiting order for the kernel centred on (0, 0).
    let img = GrayImage::from_vec(2, 2, vec![1i64, 2, 3, 4]).unwrap();
    let kernel = vec![vec![1i64, 1], vec![1, 1]];
    let out = img.fold_windows(&kernel, Border::Constant(9), 0i64, |acc, _k, v| acc * 10 + v);
    // Kernel 2x2 has centre offset (1, 1): at (0, 0) it covers (-1,-1) (0,-1) (-1,0) (0,0).
    assert_eq!(out.get(0, 0).unwrap(), 9991);
    assert_eq!(out.get(1, 1).unwrap(), 1234);
}

#[test]
fn fold_windows_empty_kernel_gives_init() {
    let img = GrayImage::from_vec(2, 1, vec![5i64, 6]).unwrap();
    let kernel: Vec<Vec<i64>> = vec![];
    let out = img.fold_windows(&kernel, Border::Constant(0), 7i64, |acc, k, v| acc + k * v);
    assert_eq!(out.data(), &[7, 7]);
}

#[test]
fn fold_windows_clamped_border_repeats_edge_pixels() {
    // Record the covered pixels in visiting order for a 3x3 window with clamp-to-edge reads.
    let img = GrayImage::from_vec(2, 2, vec![1i64, 2, 3, 4]).unwrap();
    let kernel = vec![vec![(); 3]; 3];
    let out = img.fold_windows(&kernel, Border::Clamp, 0i64, |acc, _k, v| acc * 10 + v);
    assert_eq!(out.get(0, 0).unwrap(), 112112334);
    assert_eq!(out.get(1, 1).unwrap(), 122344344);
}

#[test]
fn fold_windows_separable_passes() {
    // A horizontal pass with zero padding, then a vertical pass clamped at the edges.
    let img = GrayImage::from_vec(3, 2, vec![1i64, 2, 3, 4, 5, 6]).unwrap();
    let row = vec![vec![1i64, 1, 1]];
    let across = img.fold_windows(&row, Border::Constant(0), 0i64, |acc, k, v| acc + k * v);
    assert_eq!(across.data(), &[3, 6, 5, 9, 15, 11]);
    let column = vec![vec![1i64], vec![1], vec![1]];
    let down = across.fold_windows(&column, Border::Clamp, 0i64, |acc, k, v| acc + k * v);
    assert_eq!(down.data(), &[15, 27, 21, 21, 36, 27]);
}
