use implicit::backend::{Command, DrawOptions};
use implicit::canvas::{apply_all, Canvas};
use implicit::styled_svg::SvgBackend;

const SCRIPT: &str = "\n<script>\nlet svgs = document.children[0];\nlet paths = Array.from(svgs.children).filter(function(c) {\n    var orig = c.style.stroke;\n    c.onmouseover = function() {\n        c.style.stroke = \"rgb(0, 0, 255)\";\n    };\n    c.onmouseout = function () {\n        c.style.stroke = orig;\n    };\n    c.onclick = function () {\n        svgs.removeChild()\n    }\n});\n\nfor (let path of paths) {\n    console.log(path);\n}\n</script>";

fn pt(x: &str, y: &str) -> (String, String) {
    (x.to_string(), y.to_string())
}

#[test]
fn styled_empty_document() {
    let backend = SvgBackend::new(String::new());
    assert_eq!(backend.float_precision, 5);
    let out = Canvas::new(backend).close().unwrap();
    assert_eq!(out, format!("<svg xmlns=\"http://www.w3.org/2000/svg\">\n{}</svg>", SCRIPT));
}

#[test]
fn styled_outlined_triangle() {
    let mut canvas = Canvas::new(SvgBackend::new(String::new()));
    canvas
        .draw_closed_polygon(vec![pt("0", "0"), pt("0", "50"), pt("50", "0")], true, DrawOptions::default())
        .unwrap();
    let out = canvas.close().unwrap();
    assert_eq!(
        out,
        format!(
            "<svg xmlns=\"http://www.w3.org/2000/svg\">\n    <path fill-rule=\"evenodd\" style=\"fill: none; stroke: rgb(0, 0, 0); stroke-width: 2.0;\" d=\"\nM0,0 \nL0,50 \nL50,0 z\"/>\n{}</svg>",
            SCRIPT
        )
    );
}

#[test]
fn styled_paint_variants() {
    let mut backend = SvgBackend::new(String::new());
    let both = DrawOptions {
        fill_color: Some((10, 20, 30)),
        stroke_color: Some((255, 0, 7)),
        stroke_size: "1.5".to_string(),
        stroke_size_display: "1.5".to_string(),
    };
    let none = DrawOptions {
        fill_color: None,
        stroke_color: None,
        stroke_size: "3.0".to_string(),
        stroke_size_display: "3".to_string(),
    };
    apply_all(
        &mut backend,
        vec![
            Command::StartShape(DrawOptions::filled((10, 20, 30))),
            Command::EndShape,
            Command::StartShape(both),
            Command::EndShape,
            Command::StartShape(none),
            Command::MoveTo { x: "1".to_string(), y: "2".to_string() },
            Command::EndShape,
        ],
    )
    .unwrap();
    assert_eq!(
        backend.out,
        "<svg xmlns=\"http://www.w3.org/2000/svg\">\n\
         \x20   <path fill-rule=\"evenodd\" style=\"fill: rgb(10, 20, 30); stroke: none; stroke-width: none;\" d=\"\"/>\n\
         \x20   <path fill-rule=\"evenodd\" style=\"fill: rgb(10, 20, 30); stroke: rgb(255, 0, 7); stroke-width: 1.5;\" d=\"\"/>\n\
         \x20   <path fill-rule=\"evenodd\" style=\"fill: rgb(0, 0, 0); stroke: none; stroke-width: 3;\" d=\"\nM1,2 \"/>\n"
    );
}

#[test]
fn commands_applied_in_order() {
    let mut backend = implicit::svg::SvgBackend::new(String::new());
    apply_all(
        &mut backend,
        vec![
            Command::StartShape(DrawOptions::default()),
            Command::MoveTo { x: "1".to_string(), y: "2".to_string() },
            Command::LineTo { x: "3".to_string(), y: "4".to_string() },
            Command::CloseShape,
        ],
    )
    .unwrap();
    let out = Canvas::new(backend).close().unwrap();
    assert_eq!(
        out,
        "<svg xmlns=\"http://www.w3.org/2000/svg\">\n    <path fill-rule=\"evenodd\" d=\"M1,2 L3,4 z\"/>\n</svg>"
    );
}
