use vstd::prelude::*;
use crate::backend::{Command, DrawBackend, DrawOptions};
use crate::svg::svg_header;
use crate::text::{decimal, push_decimal};

verus! {

/// Writes drawings as an interactive SVG document into a text buffer, with
/// each shape's paint given in a `style` attribute. Coordinates arrive as
/// text; they are meant to be written with `float_precision` decimals.
pub struct SvgBackend {
    pub out: String,
    pub float_precision: usize,
}

/// `rgb(r, g, b)`.
pub open spec fn rgb_text(c: (u8, u8, u8)) -> Seq<char> {
    "rgb("@ + decimal(c.0 as nat) + ", "@ + decimal(c.1 as nat) + ", "@ + decimal(c.2 as nat) + ")"@
}

/// The `style` attribute for painting with `options`.
pub open spec fn style_text(options: DrawOptions) -> Seq<char> {
    match (options.fill_color, options.stroke_color) {
        (Some(fc), Some(sc)) => "fill: "@ + rgb_text(fc) + "; stroke: "@ + rgb_text(sc)
            + "; stroke-width: "@ + options.stroke_size@ + ";"@,
        (None, Some(sc)) => "fill: none; stroke: "@ + rgb_text(sc) + "; stroke-width: "@
            + options.stroke_size@ + ";"@,
        (Some(fc), None) => "fill: "@ + rgb_text(fc) + "; stroke: none; stroke-width: none;"@,
        (None, None) => "fill: rgb(0, 0, 0); stroke: none; stroke-width: "@ + options.stroke_size_display@
            + ";"@,
    }
}

/// The text a command adds to the document.
pub open spec fn styled_command_text(command: Command) -> Seq<char> {
    match command {
        Command::StartShape(options) => "    <path fill-rule=\"evenodd\" style=\""@ + style_text(
            options,
        ) + "\" d=\""@,
        Command::MoveTo { x, y } => "\nM"@ + x@ + ","@ + y@ + " "@,
        Command::LineTo { x, y } => "\nL"@ + x@ + ","@ + y@ + " "@,
        Command::CloseShape => "z\"/>\n"@,
        Command::EndShape => "\"/>\n"@,
        _ => seq![],
    }
}

/// The script that highlights the shape under the mouse.
pub open spec fn highlight_script() -> Seq<char> {
    "\n<script>\nlet svgs = document.children[0];\nlet paths = Array.from(svgs.children).filter(function(c) {\n    var orig = c.style.stroke;\n    c.onmouseover = function() {\n        c.style.stroke = \"rgb(0, 0, 255)\";\n    };\n    c.onmouseout = function () {\n        c.style.stroke = orig;\n    };\n    c.onclick = function () {\n        svgs.removeChild()\n    }\n});\n\nfor (let path of paths) {\n    console.log(path);\n}\n</script>"@
}

/// Appends `rgb_text(c)`.
fn push_rgb(out: &mut String, c: (u8, u8, u8))
    ensures
        final(out)@ == old(out)@ + rgb_text(c),
{
    let (r, g, b) = c;
    out.append("rgb(");
    push_decimal(out, r as usize);
    out.append(", ");
    push_decimal(out, g as usize);
    out.append(", ");
    push_decimal(out, b as usize);
    out.append(")");
    assert(out@ =~= old(out)@ + rgb_text(c));
}

/// Appends `style_text(options)`.
fn push_style(out: &mut String, options: &DrawOptions)
    ensures
        final(out)@ == old(out)@ + style_text(*options),
{
    match (options.fill_color, options.stroke_color) {
        (Some(fc), Some(sc)) => {
            out.append("fill: ");
            push_rgb(out, fc);
            out.append("; stroke: ");
            push_rgb(out, sc);
            out.append("; stroke-width: ");
            out.append(options.stroke_size.as_str());
            out.append(";");
        },
        (None, Some(sc)) => {
            out.append("fill: none; stroke: ");
            push_rgb(out, sc);
            out.append("; stroke-width: ");
            out.append(options.stroke_size.as_str());
            out.append(";");
        },
        (Some(fc), None) => {
            out.append("fill: ");
            push_rgb(out, fc);
            out.append("; stroke: none; stroke-width: none;");
        },
        (None, None) => {
            out.append("fill: rgb(0, 0, 0); stroke: none; stroke-width: ");
            out.append(options.stroke_size_display.as_str());
            out.append(";");
        },
    }
    assert(out@ =~= old(out)@ + style_text(*options));
}

impl SvgBackend {
    /// Starts a document after the text already in `out`; coordinates are
    /// to be written with five decimals.
    pub fn new(out: String) -> (r: SvgBackend)
        ensures
            r.state() == out@ + svg_header(),
            r.float_precision == 5,
    {
        let mut out = out;
        out.append("<svg xmlns=\"http://www.w3.org/2000/svg\">\n");
        SvgBackend { out, float_precision: 5 }
    }
}

impl DrawBackend for SvgBackend {
    /// Writing into a text buffer cannot fail.
    type Error = ();

    /// The finished document.
    type Output = String;

    type State = Seq<char>;

    open spec fn state(&self) -> Seq<char> {
        self.out@
    }

    open spec fn never_fails() -> bool {
        true
    }

    open spec fn supports(command: Command) -> bool {
        !(command is CubicCurveTo || command is QuadraticCurveTo || command is ArcTo)
    }

    open spec fn after(state: Seq<char>, command: Command) -> Seq<char> {
        state + styled_command_text(command)
    }

    open spec fn closes_to(state: Seq<char>, out: String) -> bool {
        out@ == state + highlight_script() + "</svg>"@
    }

    fn apply(&mut self, command: Command) -> (r: Result<(), ()>)
        ensures
            r is Ok,
    {
        let ghost c = command;
        let ghost before = self.out@;
        match command {
            Command::StartShape(options) => {
                self.out.append("    <path fill-rule=\"evenodd\" style=\"");
                push_style(&mut self.out, &options);
                self.out.append("\" d=\"");
            },
            Command::MoveTo { x, y } => {
                self.out.append("\nM");
                self.out.append(x.as_str());
                self.out.append(",");
                self.out.append(y.as_str());
                self.out.append(" ");
            },
            Command::LineTo { x, y } => {
                self.out.append("\nL");
                self.out.append(x.as_str());
                self.out.append(",");
                self.out.append(y.as_str());
                self.out.append(" ");
            },
            Command::CloseShape => {
                self.out.append("z\"/>\n");
            },
            Command::EndShape => {
                self.out.append("\"/>\n");
            },
            _ => {},
        }
        assert(self.out@ =~= before + styled_command_text(c));
        Ok(())
    }

    fn close(self) -> (r: Result<String, ()>)
        ensures
            r is Ok,
    {
        let mut out = self.out;
        out.append(
            "\n<script>\nlet svgs = document.children[0];\nlet paths = Array.from(svgs.children).filter(function(c) {\n    var orig = c.style.stroke;\n    c.onmouseover = function() {\n        c.style.stroke = \"rgb(0, 0, 255)\";\n    };\n    c.onmouseout = function () {\n        c.style.stroke = orig;\n    };\n    c.onclick = function () {\n        svgs.removeChild()\n    }\n});\n\nfor (let path of paths) {\n    console.log(path);\n}\n</script>",
        );
        out.append("</svg>");
        Ok(out)
    }
}

} // verus!
