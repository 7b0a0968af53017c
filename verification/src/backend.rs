use vstd::prelude::*;

verus! {

/// How a shape is painted. Colors are `(r, g, b)`. The stroke width is
/// carried as text in both the forms a `style` attribute writes it in: as
/// debugging output shows the number (`stroke_size`, such as `2.0`) and as
/// plain display shows it (`stroke_size_display`, such as `2`).
pub struct DrawOptions {
    pub fill_color: Option<(u8, u8, u8)>,
    pub stroke_color: Option<(u8, u8, u8)>,
    pub stroke_size: String,
    pub stroke_size_display: String,
}

impl DrawOptions {
    /// A black outline two units wide, not filled.
    pub fn default() -> (r: DrawOptions)
        ensures
            r.fill_color is None,
            r.stroke_color == Some((0u8, 0u8, 0u8)),
            r.stroke_size@ == "2.0"@,
            r.stroke_size_display@ == "2"@,
    {
        DrawOptions {
            fill_color: None,
            stroke_color: Some((0, 0, 0)),
            stroke_size: String::from_str("2.0"),
            stroke_size_display: String::from_str("2"),
        }
    }

    /// An outline of color `(r, g, b)` and width `size` (written as
    /// `size_display` in plain form), not filled.
    pub fn stroked(color: (u8, u8, u8), size: String, size_display: String) -> (r: DrawOptions)
        ensures
            r.fill_color is None,
            r.stroke_color == Some(color),
            r.stroke_size == size,
            r.stroke_size_display == size_display,
    {
        let (r, g, b) = color;
        DrawOptions {
            fill_color: None,
            stroke_color: Some((r, g, b)),
            stroke_size: size,
            stroke_size_display: size_display,
        }
    }

    /// A shape filled with color `(r, g, b)` and no outline.
    pub fn filled(color: (u8, u8, u8)) -> (r: DrawOptions)
        ensures
            r.fill_color == Some(color),
            r.stroke_color is None,
            r.stroke_size@ == "0.0"@,
            r.stroke_size_display@ == "0"@,
    {
        let (r, g, b) = color;
        DrawOptions {
            fill_color: Some((r, g, b)),
            stroke_color: None,
            stroke_size: String::from_str("0.0"),
            stroke_size_display: String::from_str("0"),
        }
    }
}

/// A drawing instruction. Coordinates, radii and angles are carried as their
/// decimal text.
pub enum Command {
    StartShape(DrawOptions),
    MoveTo { x: String, y: String },
    LineTo { x: String, y: String },
    CubicCurveTo { cx1: String, cy1: String, cx2: String, cy2: String, x: String, y: String },
    QuadraticCurveTo { cx: String, cy: String, x: String, y: String },
    ArcTo {
        rx: String,
        ry: String,
        rotation: String,
        large_arc: bool,
        sweep: bool,
        x: String,
        y: String,
    },
    CloseShape,
    EndShape,
}

/// Something that carries out drawing commands, such as an SVG writer.
pub trait DrawBackend: Sized {
    type Error;

    /// What closing the backend hands back.
    type Output;

    /// An abstract account of what the backend has drawn so far.
    type State;

    /// What the backend has drawn so far.
    spec fn state(&self) -> Self::State;

    /// The backend knows how to carry out `command`.
    spec fn supports(command: Command) -> bool;

    /// What has been drawn after carrying out `command` in `state`.
    spec fn after(state: Self::State, command: Command) -> Self::State;

    /// `out` is what closing the backend in `state` hands back.
    spec fn closes_to(state: Self::State, out: Self::Output) -> bool;

    /// The backend never reports an error: every command it supports and
    /// closing it succeed.
    spec fn never_fails() -> bool;

    /// Carries out `command`.
    fn apply(&mut self, command: Command) -> (r: Result<(), Self::Error>)
        requires
            Self::supports(command),
        ensures
            r is Ok ==> final(self).state() == Self::after(old(self).state(), command),
            Self::never_fails() ==> r is Ok,
    ;

    /// Finishes the drawing.
    fn close(self) -> (r: Result<Self::Output, Self::Error>)
        ensures
            r matches Ok(out) ==> Self::closes_to(self.state(), out),
            Self::never_fails() ==> r is Ok,
    ;
}

} // verus!
