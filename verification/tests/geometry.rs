use oxideav_image_filter::perspective::write_background;
use oxideav_image_filter::resize::clamp_coord;
use oxideav_image_filter::{Interpolation, Polar, PolarDirection, Resize};

#[test]
fn polar_builders() {
    assert_eq!(Polar::forward().direction, PolarDirection::Polar);
    assert_eq!(Polar::inverse().direction, PolarDirection::DePolar);
    assert_eq!(Polar::forward().with_direction(PolarDirection::DePolar).direction, PolarDirection::DePolar);
    assert_eq!(Polar::default().direction, PolarDirection::Polar);
    assert_eq!(PolarDirection::default(), PolarDirection::Polar);
}

#[test]
fn resize_builders_clamp_to_one() {
    let r = Resize::new(0, 7);
    assert_eq!(r.target_size(), (1, 7));
    assert_eq!(r.interpolation(), Interpolation::Bilinear);
    let r = r.with_interpolation(Interpolation::Area);
    assert_eq!(r.target_size(), (1, 7));
    assert_eq!(r.interpolation(), Interpolation::Area);
    assert_eq!(Interpolation::default(), Interpolation::Bilinear);
}

#[test]
fn clamp_coord_replicates_border() {
    assert_eq!(clamp_coord(-3, 5), 0);
    assert_eq!(clamp_coord(0, 5), 0);
    assert_eq!(clamp_coord(4, 5), 4);
    assert_eq!(clamp_coord(9, 5), 4);
    assert_eq!(clamp_coord(isize::MAX, 1), 0);
}

#[test]
fn write_background_fills_one_pixel() {
    let mut buf = vec![1u8; 10];
    write_background(&mut buf, 3, &[10, 20, 30, 40], 4);
    assert_eq!(buf, vec![1, 1, 1, 10, 20, 30, 40, 1, 1, 1]);
    let mut buf = vec![1u8; 6];
    write_background(&mut buf, 3, &[10, 20, 30, 40], 3);
    assert_eq!(buf, vec![1, 1, 1, 10, 20, 30]);
    let mut buf = vec![0u8; 5];
    write_background(&mut buf, 0, &[10, 20, 30, 40], 5);
    assert_eq!(buf, vec![10, 20, 30, 40, 40]);
}
