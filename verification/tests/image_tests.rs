use implicit::image::Image;

fn ramp(w: usize, h: usize) -> Image {
    let mut img = Image::new(w, h, 0);
    for y in 0..h {
        for x in 0..w {
            img.set((x, y), (10 * y + x) as u32);
        }
    }
    img
}

#[test]
fn new_fills() {
    let img = Image::new(3, 2, 7);
    assert_eq!(img.width, 3);
    assert_eq!(img.height, 2);
    assert_eq!(img.data, vec![7; 6]);
}

#[test]
fn set_and_index() {
    let img = ramp(3, 2);
    assert_eq!(img.index((2, 1)), 12);
    assert_eq!(img.data, vec![0, 1, 2, 10, 11, 12]);
}

#[test]
fn pad_keeps_pixels() {
    let img = ramp(2, 2);
    let p = img.pad(3, 3, 9);
    assert_eq!(p.data, vec![0, 1, 9, 10, 11, 9, 9, 9, 9]);
    let same = img.pad(2, 2, 9);
    assert_eq!(same.data, img.data);
}

#[test]
fn stacking() {
    let a = ramp(1, 2);
    let b = ramp(2, 1);
    let h = a.stack_hor(&b, 5);
    assert_eq!((h.width, h.height), (3, 2));
    assert_eq!(h.data, vec![0, 0, 1, 10, 5, 5]);
    let v = a.stack_vert(&b, 5);
    assert_eq!((v.width, v.height), (2, 3));
    assert_eq!(v.data, vec![0, 5, 10, 5, 0, 1]);
}

#[test]
fn pixelize_doubles() {
    let img = ramp(2, 1);
    let p = img.pixelize();
    assert_eq!((p.width, p.height), (4, 2));
    assert_eq!(p.data, vec![0, 0, 1, 1, 0, 0, 1, 1]);
}

#[test]
fn longer_buffers_are_read_by_position() {
    let img = Image { width: 2, height: 1, data: vec![1, 2, 99] };
    assert_eq!(img.index((1, 0)), 2);
    let wide = img.pad(3, 2, 0);
    assert_eq!(wide.data, vec![1, 2, 0, 0, 0, 0]);
    let short = Image { width: 2, height: 2, data: vec![7] };
    assert_eq!(short.pad(2, 2, 0).data, vec![7]);
    let both = img.stack_hor(&img, 5);
    assert_eq!(both.data, vec![1, 2, 1, 2]);
}
