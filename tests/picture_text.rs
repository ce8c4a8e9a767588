use rust_tracer::color::Color;
use rust_tracer::picture::Picture;

fn rgb(r: u8, g: u8, b: u8) -> Color {
    Color { r, g, b }
}

#[test]
fn color_text_has_tab_after_each_channel() {
    assert_eq!(rgb(255, 0, 7).to_string(), "255\t0\t7\t");
    assert_eq!(rgb(0, 0, 0).to_string(), "0\t0\t0\t");
    assert_eq!(rgb(10, 99, 100).to_string(), "10\t99\t100\t");
}

#[test]
fn new_picture_is_black() {
    let p = Picture::new(3, 2);
    assert_eq!(p.width(), 3);
    assert_eq!(p.height(), 2);
    for j in 0..2 {
        for i in 0..3 {
            assert_eq!(p.pixel(i, j), rgb(0, 0, 0));
        }
    }
}

#[test]
fn mutate_sets_each_pixel_from_its_coordinates() {
    let mut p = Picture::new(3, 2);
    p.mutate(|i, j, w, h| {
        assert_eq!((w, h), (3, 2));
        rgb(i as u8, j as u8, (j * w + i) as u8)
    });
    for j in 0..2 {
        for i in 0..3 {
            assert_eq!(p.pixel(i, j), rgb(i as u8, j as u8, (j * 3 + i) as u8));
        }
    }
}

#[test]
fn ppm_lists_rows_from_the_last_to_the_first() {
    let mut p = Picture::new(2, 2);
    p.mutate(|i, j, _, _| rgb((10 * j + i) as u8, 0, 255));
    assert_eq!(
        p.to_ppm(),
        "P3\n2 2\n255\n10\t0\t255\t11\t0\t255\t\n0\t0\t255\t1\t0\t255\t\n"
    );
}

#[test]
fn ppm_of_an_empty_picture_is_the_header() {
    let p = Picture::new(0, 0);
    assert_eq!(p.to_ppm(), "P3\n0 0\n255\n");
}

#[test]
fn ppm_header_writes_large_sizes_in_decimal() {
    let p = Picture::new(1280, 1);
    let text = p.to_ppm();
    assert!(text.starts_with("P3\n1280 1\n255\n0\t0\t0\t"));
    assert_eq!(text.lines().count(), 4);
}
