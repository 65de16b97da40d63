use raytrace::pixel::{pixel_of, unit_of};

#[test]
fn first_unit_is_top_left_pixel() {
    assert_eq!(pixel_of(0, 4, 3), (0, 2));
    assert_eq!(pixel_of(3, 4, 3), (3, 2));
    assert_eq!(pixel_of(4, 4, 3), (0, 1));
    assert_eq!(pixel_of(11, 4, 3), (3, 0));
}

#[test]
fn unit_of_inverts_pixel_of() {
    let (nx, ny) = (7, 5);
    let mut seen = vec![false; nx * ny];
    for n in 0..nx * ny {
        let (i, j) = pixel_of(n, nx, ny);
        assert!(i < nx && j < ny);
        assert_eq!(unit_of(i, j, nx, ny), n);
        let m = unit_of(i, j, nx, ny);
        assert!(!seen[m]);
        seen[m] = true;
    }
    assert!(seen.iter().all(|s| *s));
}

#[test]
fn single_pixel_image() {
    assert_eq!(pixel_of(0, 1, 1), (0, 0));
    assert_eq!(unit_of(0, 0, 1, 1), 0);
}
