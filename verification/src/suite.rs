use vstd::prelude::*;
use crate::text::{starts_with, str_equal, str_starts_with};

verus! {

#[verifier::external_type_specification]
#[verifier::external_body]
pub struct ExPathBuf(std::path::PathBuf);

/// Where a scene script and its expected and actual outputs live.
pub struct Paths {
    pub json: std::path::PathBuf,
    pub actual_image: std::path::PathBuf,
    pub actual_values: std::path::PathBuf,
    pub actual_lines: std::path::PathBuf,
    pub actual_svg: std::path::PathBuf,
    pub expected_values: std::path::PathBuf,
    pub expected_lines: std::path::PathBuf,
    pub expected_svg: std::path::PathBuf,
}

/// A difference between the expected and the actual outputs of a scene.
pub enum Error {
    NoExpectedFiles,
    CouldNotFind { file: String },
    UnexpectedFile { file: String },
    AabbMismatch { expected: String, actual: String },
    SvgMismatch { expected: String, actual: String },
    LineMismatch { expected: String, actual: String, message: String },
    CMismatch { expected: String, actual: String },
    NodesMismatch { expected: String, actual: String },
    FieldMismatch { expected: String, actual: String, message: String },
}

/// The two lines that name the files being compared.
pub open spec fn files_text(expected: Seq<char>, actual: Seq<char>) -> Seq<char> {
    "    expected file : "@ + expected + "\n"@ + "    actual file   : "@ + actual + "\n"@
}

/// The report of a difference, one bullet with its details.
pub open spec fn error_text(e: Error) -> Seq<char> {
    match e {
        Error::NoExpectedFiles => "  • No Expected files found\n"@,
        Error::CouldNotFind { file } => "  • Could not find file "@ + file@ + "\n"@,
        Error::SvgMismatch { expected, actual } => "  • svg files are not the same\n"@ + files_text(
            expected@,
            actual@,
        ),
        Error::AabbMismatch { expected, actual } => "  • bounding box files are not the same\n"@
            + files_text(expected@, actual@),
        Error::CMismatch { expected, actual } => "  • c files are not the same\n"@ + files_text(
            expected@,
            actual@,
        ),
        Error::NodesMismatch { expected, actual } => "  • nodes files are not the same\n"@
            + files_text(expected@, actual@),
        Error::UnexpectedFile { file } => "  • unexpected file "@ + file@ + "\n"@,
        Error::LineMismatch { expected, actual, message } => "  • line files are not the same ("@
            + message@ + ")\n"@ + files_text(expected@, actual@),
        Error::FieldMismatch { expected, actual, message } =>
            "  • field files are not the same ("@ + message@ + ")\n"@ + files_text(
            expected@,
            actual@,
        ),
    }
}

/// Appends the two lines that name the compared files.
fn push_files(out: &mut String, expected: &String, actual: &String)
    ensures
        final(out)@ == old(out)@ + files_text(expected@, actual@),
{
    out.append("    expected file : ");
    out.append(expected.as_str());
    out.append("\n");
    out.append("    actual file   : ");
    out.append(actual.as_str());
    out.append("\n");
    assert(out@ =~= old(out)@ + files_text(expected@, actual@));
}

impl Error {
    /// The report of this difference.
    pub fn message(&self) -> (r: String)
        ensures
            r@ == error_text(*self),
    {
        let mut out = String::new();
        match self {
            Error::NoExpectedFiles => {
                out.append("  • No Expected files found\n");
            },
            Error::CouldNotFind { file } => {
                out.append("  • Could not find file ");
                out.append(file.as_str());
                out.append("\n");
            },
            Error::SvgMismatch { expected, actual } => {
                out.append("  • svg files are not the same\n");
                push_files(&mut out, expected, actual);
            },
            Error::AabbMismatch { expected, actual } => {
                out.append("  • bounding box files are not the same\n");
                push_files(&mut out, expected, actual);
            },
            Error::CMismatch { expected, actual } => {
                out.append("  • c files are not the same\n");
                push_files(&mut out, expected, actual);
            },
            Error::NodesMismatch { expected, actual } => {
                out.append("  • nodes files are not the same\n");
                push_files(&mut out, expected, actual);
            },
            Error::UnexpectedFile { file } => {
                out.append("  • unexpected file ");
                out.append(file.as_str());
                out.append("\n");
            },
            Error::LineMismatch { expected, actual, message } => {
                out.append("  • line files are not the same (");
                out.append(message.as_str());
                out.append(")\n");
                push_files(&mut out, expected, actual);
            },
            Error::FieldMismatch { expected, actual, message } => {
                out.append("  • field files are not the same (");
                out.append(message.as_str());
                out.append(")\n");
                push_files(&mut out, expected, actual);
            },
        }
        assert(out@ =~= error_text(*self));
        out
    }
}

/// Kinds of output compared as plain text.
#[derive(PartialEq, Eq, Structural, Debug, Clone, Copy)]
pub enum TextKind {
    C,
    Nodes,
    Svg,
    Aabb,
}

/// How an expected output file is checked, chosen by its extension.
#[derive(PartialEq, Eq, Structural, Debug, Clone, Copy)]
pub enum FileCheck {
    /// Debugging output that is not compared (`png`, `perf`).
    Ignore,
    /// A sampled field, compared value by value (`values`).
    Field,
    /// A set of line segments, compared line by line (`lines`).
    Lines,
    /// Compared as text (`c`, `txt`, `svg`, `aabb`).
    Text(TextKind),
    /// No output has this extension.
    Unexpected,
}

/// The check for an expected file with extension `ext`.
pub open spec fn check_spec(ext: Seq<char>) -> FileCheck {
    if ext == "png"@ || ext == "perf"@ {
        FileCheck::Ignore
    } else if ext == "values"@ {
        FileCheck::Field
    } else if ext == "lines"@ {
        FileCheck::Lines
    } else if ext == "c"@ {
        FileCheck::Text(TextKind::C)
    } else if ext == "txt"@ {
        FileCheck::Text(TextKind::Nodes)
    } else if ext == "svg"@ {
        FileCheck::Text(TextKind::Svg)
    } else if ext == "aabb"@ {
        FileCheck::Text(TextKind::Aabb)
    } else {
        FileCheck::Unexpected
    }
}

/// How an expected file with extension `ext` is checked.
pub fn check_for(ext: &str) -> (r: FileCheck)
    ensures
        r == check_spec(ext@),
{
    if str_equal(ext, "png") || str_equal(ext, "perf") {
        FileCheck::Ignore
    } else if str_equal(ext, "values") {
        FileCheck::Field
    } else if str_equal(ext, "lines") {
        FileCheck::Lines
    } else if str_equal(ext, "c") {
        FileCheck::Text(TextKind::C)
    } else if str_equal(ext, "txt") {
        FileCheck::Text(TextKind::Nodes)
    } else if str_equal(ext, "svg") {
        FileCheck::Text(TextKind::Svg)
    } else if str_equal(ext, "aabb") {
        FileCheck::Text(TextKind::Aabb)
    } else {
        FileCheck::Unexpected
    }
}

/// The difference reported when a text output of kind `kind` differs from
/// what was expected.
pub fn text_mismatch(kind: TextKind, expected: String, actual: String) -> (r: Error)
    ensures
        r == match kind {
            TextKind::C => Error::CMismatch { expected, actual },
            TextKind::Nodes => Error::NodesMismatch { expected, actual },
            TextKind::Svg => Error::SvgMismatch { expected, actual },
            TextKind::Aabb => Error::AabbMismatch { expected, actual },
        },
{
    match kind {
        TextKind::C => Error::CMismatch { expected, actual },
        TextKind::Nodes => Error::NodesMismatch { expected, actual },
        TextKind::Svg => Error::SvgMismatch { expected, actual },
        TextKind::Aabb => Error::AabbMismatch { expected, actual },
    }
}

/// The outcome of a scene run: success when no difference was found.
pub fn outcome(errors: Vec<Error>) -> (r: Result<(), Vec<Error>>)
    ensures
        errors@.len() == 0 ==> r is Ok,
        errors@.len() > 0 ==> r == Err::<(), Vec<Error>>(errors),
{
    if errors.len() == 0 {
        Ok(())
    } else {
        Err(errors)
    }
}

/// What the comparison does with one file of the expected outputs.
#[derive(PartialEq, Eq, Structural, Debug, Clone, Copy)]
pub enum FileStep {
    /// Passed over: a hidden file (its name starts with `.`) or one
    /// without an extension.
    Skip,
    /// The run produced no file of that name.
    Missing,
    /// Compared as the extension says.
    Check(FileCheck),
}

/// The step for an expected file named `file_name` (when its name is text)
/// whose actual counterpart exists or not (`actual_exists`), with extension
/// `extension`.
pub open spec fn file_step_spec(
    file_name: Option<Seq<char>>,
    actual_exists: bool,
    extension: Option<Seq<char>>,
) -> FileStep {
    if file_name matches Some(n) && starts_with(n, "."@) {
        FileStep::Skip
    } else if !actual_exists {
        FileStep::Missing
    } else {
        match extension {
            None => FileStep::Skip,
            Some(e) => FileStep::Check(check_spec(e)),
        }
    }
}

/// Decides what to do with one expected file: hidden files are passed over
/// first, then a missing counterpart is reported, then the extension picks
/// the comparison.
pub fn file_step(file_name: Option<&str>, actual_exists: bool, extension: Option<&str>) -> (r: FileStep)
    ensures
        r == file_step_spec(
            match file_name {
                Some(n) => Some(n@),
                None => None,
            },
            actual_exists,
            match extension {
                Some(e) => Some(e@),
                None => None,
            },
        ),
{
    let hidden = match file_name {
        Some(n) => str_starts_with(n, "."),
        None => false,
    };
    if hidden {
        FileStep::Skip
    } else if !actual_exists {
        FileStep::Missing
    } else {
        match extension {
            None => FileStep::Skip,
            Some(e) => FileStep::Check(check_for(e)),
        }
    }
}

/// The difference, if any, that one expected file adds to the report: the
/// file was checked with `check` and the comparison gave `compared` (for
/// text, `Err` when the texts differ; for fields and lines, the message of
/// the first difference).
pub fn report_for(check: FileCheck, expected: String, actual: String, compared: Result<(), String>) -> (r:
    Option<Error>)
    ensures
        r == match check {
            FileCheck::Ignore => None,
            FileCheck::Field => match compared {
                Ok(()) => None,
                Err(message) => Some(Error::FieldMismatch { expected, actual, message }),
            },
            FileCheck::Lines => match compared {
                Ok(()) => None,
                Err(message) => Some(Error::LineMismatch { expected, actual, message }),
            },
            FileCheck::Text(kind) => match compared {
                Ok(()) => None,
                Err(_) => Some(
                    match kind {
                        TextKind::C => Error::CMismatch { expected, actual },
                        TextKind::Nodes => Error::NodesMismatch { expected, actual },
                        TextKind::Svg => Error::SvgMismatch { expected, actual },
                        TextKind::Aabb => Error::AabbMismatch { expected, actual },
                    },
                ),
            },
            FileCheck::Unexpected => Some(Error::UnexpectedFile { file: actual }),
        },
{
    match check {
        FileCheck::Ignore => None,
        FileCheck::Field => match compared {
            Ok(()) => None,
            Err(message) => Some(Error::FieldMismatch { expected, actual, message }),
        },
        FileCheck::Lines => match compared {
            Ok(()) => None,
            Err(message) => Some(Error::LineMismatch { expected, actual, message }),
        },
        FileCheck::Text(kind) => match compared {
            Ok(()) => None,
            Err(_) => Some(text_mismatch(kind, expected, actual)),
        },
        FileCheck::Unexpected => Some(Error::UnexpectedFile { file: actual }),
    }
}

/// Compares two texts: `Err` with an empty message when they differ.
pub fn compare_text(expected: &str, actual: &str) -> (r: Result<(), String>)
    ensures
        r is Ok <==> expected@ == actual@,
        r matches Err(m) ==> m@ == Seq::<char>::empty(),
{
    if str_equal(actual, expected) {
        Ok(())
    } else {
        Err(String::new())
    }
}

/// The answer when the expected outputs are missing altogether: the run
/// fails with `NoExpectedFiles` unless the expected directory exists.
pub fn check_expected_dump(exists: bool) -> (r: Result<(), Vec<Error>>)
    ensures
        exists <==> r is Ok,
        r matches Err(errors) ==> errors@ == seq![Error::NoExpectedFiles],
{
    if exists {
        Ok(())
    } else {
        let mut errors: Vec<Error> = Vec::new();
        errors.push(Error::NoExpectedFiles);
        Err(errors)
    }
}

} // verus!
