use vstd::prelude::*;
use crate::backend::{Command, DrawBackend};

verus! {

/// Writes drawings as an SVG document into a text buffer.
pub struct SvgBackend {
    out: String,
}

/// The opening tag of the document.
pub open spec fn svg_header() -> Seq<char> {
    "<svg xmlns=\"http://www.w3.org/2000/svg\">\n"@
}

/// The text a command adds to the document.
pub open spec fn command_text(command: Command) -> Seq<char> {
    match command {
        Command::StartShape(_) => "    <path fill-rule=\"evenodd\" d=\""@,
        Command::MoveTo { x, y } => "M"@ + x@ + ","@ + y@ + " "@,
        Command::LineTo { x, y } => "L"@ + x@ + ","@ + y@ + " "@,
        Command::CloseShape => "z\"/>\n"@,
        Command::EndShape => "\"/>\n"@,
        _ => seq![],
    }
}

/// The commands that have an SVG rendering: all but the curves.
pub open spec fn svg_supports(command: Command) -> bool {
    !(command is CubicCurveTo || command is QuadraticCurveTo || command is ArcTo)
}

impl SvgBackend {
    /// Starts a document after the text already in `out`.
    pub fn new(out: String) -> (r: SvgBackend)
        ensures
            r.state() == out@ + svg_header(),
    {
        let mut out = out;
        out.append("<svg xmlns=\"http://www.w3.org/2000/svg\">\n");
        SvgBackend { out }
    }
}

impl DrawBackend for SvgBackend {
    /// Writing into a text buffer cannot fail.
    type Error = ();

    /// The finished document.
    type Output = String;

    type State = Seq<char>;

    closed spec fn state(&self) -> Seq<char> {
        self.out@
    }

    open spec fn never_fails() -> bool {
        true
    }

    open spec fn supports(command: Command) -> bool {
        svg_supports(command)
    }

    open spec fn after(state: Seq<char>, command: Command) -> Seq<char> {
        state + command_text(command)
    }

    open spec fn closes_to(state: Seq<char>, out: String) -> bool {
        out@ == state + "</svg>"@
    }

    fn apply(&mut self, command: Command) -> (r: Result<(), ()>)
        ensures
            r is Ok,
    {
        let ghost c = command;
        let ghost before = self.out@;
        match command {
            Command::StartShape(_) => {
                self.out.append("    <path fill-rule=\"evenodd\" d=\"");
            },
            Command::MoveTo { x, y } => {
                self.out.append("M");
                self.out.append(x.as_str());
                self.out.append(",");
                self.out.append(y.as_str());
                self.out.append(" ");
            },
            Command::LineTo { x, y } => {
                self.out.append("L");
                self.out.append(x.as_str());
                self.out.append(",");
                self.out.append(y.as_str());
                self.out.append(" ");
            },
            Command::CloseShape => {
                self.out.append("z\"/>\n");
            },
            Command::EndShape => {
                self.out.append("\"/>\n");
            },
            _ => {},
        }
        assert(self.out@ =~= before + command_text(c));
        Ok(())
    }

    fn close(self) -> (r: Result<String, ()>)
        ensures
            r is Ok,
    {
        let mut out = self.out;
        out.append("</svg>");
        Ok(out)
    }
}

} // verus!
