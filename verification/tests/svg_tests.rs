use implicit::backend::DrawOptions;
use implicit::canvas::Canvas;
use implicit::svg::SvgBackend;

fn pt(x: &str, y: &str) -> (String, String) {
    (x.to_string(), y.to_string())
}

fn finish(canvas: Canvas<SvgBackend>) -> String {
    canvas.close().unwrap()
}

#[test]
fn empty() {
    let canvas = Canvas::new(SvgBackend::new(String::new()));
    assert_eq!(
        finish(canvas).trim(),
        r#"
<svg xmlns="http://www.w3.org/2000/svg">
</svg>
        "#
        .trim()
    )
}

#[test]
fn empty_polygon() {
    let mut canvas = Canvas::new(SvgBackend::new(String::new()));
    canvas.draw_closed_polygon(vec![], true, DrawOptions::default()).unwrap();
    assert_eq!(
        finish(canvas).trim(),
        r#"
<svg xmlns="http://www.w3.org/2000/svg">
</svg>
        "#
        .trim()
    )
}

#[test]
fn triangle_polygon() {
    let mut canvas = Canvas::new(SvgBackend::new(String::new()));
    canvas
        .draw_closed_polygon(vec![pt("0", "0"), pt("0", "50"), pt("50", "0")], true, DrawOptions::default())
        .unwrap();
    assert_eq!(
        finish(canvas).trim(),
        r#"
<svg xmlns="http://www.w3.org/2000/svg">
    <path fill-rule="evenodd" d="M0,0 L0,50 L50,0 z"/>
</svg>
        "#
        .trim()
    )
}

#[test]
fn triangle_polygon_reversed() {
    let mut canvas = Canvas::new(SvgBackend::new(String::new()));
    canvas
        .draw_closed_polygon(vec![pt("50", "0"), pt("0", "50"), pt("0", "0")], false, DrawOptions::default())
        .unwrap();
    assert_eq!(
        finish(canvas).trim(),
        r#"
<svg xmlns="http://www.w3.org/2000/svg">
    <path fill-rule="evenodd" d="M0,0 L0,50 L50,0 z"/>
</svg>
        "#
        .trim()
    )
}

#[test]
fn triangle_polygon_reversed_with_holes() {
    let mut canvas = Canvas::new(SvgBackend::new(String::new()));
    canvas
        .draw_holy_polygon(
            vec![(vec![pt("50", "0"), pt("0", "50"), pt("0", "0")], false)],
            vec![(vec![pt("30", "10"), pt("10", "30"), pt("10", "10")], false)],
            DrawOptions::default(),
        )
        .unwrap();
    assert_eq!(
        finish(canvas).trim(),
        r#"
<svg xmlns="http://www.w3.org/2000/svg">
    <path fill-rule="evenodd" d="M50,0 L0,0 L0,50 L50,0 M30,10 L10,30 L10,10 L30,10 "/>
</svg>
        "#
        .trim()
    )
}

#[test]
fn clockwise_hole_is_traced_backwards() {
    let mut canvas = Canvas::new(SvgBackend::new(String::new()));
    canvas
        .draw_holy_polygon(
            Vec::new(),
            vec![(vec![pt("1", "2"), pt("3", "4")], true)],
            DrawOptions::filled((1, 2, 3)),
        )
        .unwrap();
    assert_eq!(
        finish(canvas),
        "<svg xmlns=\"http://www.w3.org/2000/svg\">\n    <path fill-rule=\"evenodd\" d=\"M1,2 L3,4 L1,2 \"/>\n</svg>"
    );
}

#[test]
fn header_follows_existing_text() {
    let canvas = Canvas::new(SvgBackend::new("<?xml?>\n".to_string()));
    assert_eq!(
        finish(canvas),
        "<?xml?>\n<svg xmlns=\"http://www.w3.org/2000/svg\">\n</svg>"
    );
}

#[test]
fn draw_options_constructors() {
    let d = DrawOptions::default();
    assert_eq!(d.fill_color, None);
    assert_eq!(d.stroke_color, Some((0, 0, 0)));
    assert_eq!(d.stroke_size, "2.0");
    assert_eq!(d.stroke_size_display, "2");
    let s = DrawOptions::stroked((1, 2, 3), "4.5".to_string(), "4.5".to_string());
    assert_eq!(s.fill_color, None);
    assert_eq!(s.stroke_color, Some((1, 2, 3)));
    assert_eq!(s.stroke_size, "4.5");
    let f = DrawOptions::filled((9, 8, 7));
    assert_eq!(f.fill_color, Some((9, 8, 7)));
    assert_eq!(f.stroke_color, None);
    assert_eq!(f.stroke_size, "0.0");
    assert_eq!(f.stroke_size_display, "0");
}
