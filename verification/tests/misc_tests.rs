use implicit::field_image::{pixel_color, ColorMode};
use implicit::nodes::{Anchor, IdPool, NodeId};
use implicit::static_file::request_path;

#[test]
fn request_paths() {
    assert_eq!(request_path("./index.html"), Some("index.html"));
    assert_eq!(request_path("///a/b.js"), Some("a/b.js"));
    assert_eq!(request_path("a/../b"), None);
    assert_eq!(request_path("a/./b"), None);
    assert_eq!(request_path("././a"), None);
    assert_eq!(request_path(""), Some(""));
}

#[test]
fn node_ids_are_fresh() {
    let mut pool = IdPool::new();
    let a = NodeId::new(&mut pool);
    let b = NodeId::new(&mut pool);
    assert_ne!(a, b);
}

#[test]
fn anchor_holds() {
    let anchor: Anchor<u32> = Anchor::new();
    let x = 5u32;
    assert_eq!(*anchor.hold(&x), 5);
}

#[test]
fn colors() {
    assert_eq!(pixel_color(ColorMode::BlackAndWhite, true, 17), [0, 0, 0]);
    assert_eq!(pixel_color(ColorMode::BlackAndWhite, false, 17), [255, 255, 255]);
    assert_eq!(pixel_color(ColorMode::Debug, true, 55), [0, 0, 200]);
    assert_eq!(pixel_color(ColorMode::Debug, false, 255), [0, 0, 0]);
}
