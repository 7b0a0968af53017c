use implicit::suite::{
    check_expected_dump, check_for, compare_text, file_step, outcome, report_for, text_mismatch, Error,
    FileCheck, FileStep,
    TextKind,
};

#[test]
fn messages() {
    assert_eq!(Error::NoExpectedFiles.message(), "  • No Expected files found\n");
    assert_eq!(
        Error::CouldNotFind { file: "a/b.svg".to_string() }.message(),
        "  • Could not find file a/b.svg\n"
    );
    assert_eq!(
        Error::UnexpectedFile { file: "x.foo".to_string() }.message(),
        "  • unexpected file x.foo\n"
    );
    assert_eq!(
        Error::SvgMismatch { expected: "e.svg".to_string(), actual: "a.svg".to_string() }.message(),
        "  • svg files are not the same\n    expected file : e.svg\n    actual file   : a.svg\n"
    );
    assert_eq!(
        Error::AabbMismatch { expected: "e".to_string(), actual: "a".to_string() }.message(),
        "  • bounding box files are not the same\n    expected file : e\n    actual file   : a\n"
    );
    assert_eq!(
        Error::LineMismatch {
            expected: "e".to_string(),
            actual: "a".to_string(),
            message: "Number of lines differ, 1 vs 2".to_string()
        }
        .message(),
        "  • line files are not the same (Number of lines differ, 1 vs 2)\n    expected file : e\n    actual file   : a\n"
    );
    assert_eq!(
        Error::FieldMismatch { expected: "e".to_string(), actual: "a".to_string(), message: "m".to_string() }
            .message(),
        "  • field files are not the same (m)\n    expected file : e\n    actual file   : a\n"
    );
}

#[test]
fn checks_by_extension() {
    assert_eq!(check_for("png"), FileCheck::Ignore);
    assert_eq!(check_for("perf"), FileCheck::Ignore);
    assert_eq!(check_for("values"), FileCheck::Field);
    assert_eq!(check_for("lines"), FileCheck::Lines);
    assert_eq!(check_for("c"), FileCheck::Text(TextKind::C));
    assert_eq!(check_for("txt"), FileCheck::Text(TextKind::Nodes));
    assert_eq!(check_for("svg"), FileCheck::Text(TextKind::Svg));
    assert_eq!(check_for("aabb"), FileCheck::Text(TextKind::Aabb));
    assert_eq!(check_for("svgz"), FileCheck::Unexpected);
    assert_eq!(check_for(""), FileCheck::Unexpected);
}

#[test]
fn mismatches_and_outcome() {
    let e = text_mismatch(TextKind::C, "x.c".to_string(), "y.c".to_string());
    assert_eq!(e.message(), "  • c files are not the same\n    expected file : x.c\n    actual file   : y.c\n");
    let n = text_mismatch(TextKind::Nodes, "x".to_string(), "y".to_string());
    assert_eq!(n.message(), "  • nodes files are not the same\n    expected file : x\n    actual file   : y\n");
    assert!(outcome(vec![]).is_ok());
    match outcome(vec![Error::NoExpectedFiles]) {
        Err(errors) => assert_eq!(errors.len(), 1),
        Ok(()) => panic!("expected a failure"),
    }
}

#[test]
fn steps_for_expected_files() {
    assert_eq!(file_step(Some(".DS_Store"), true, None), FileStep::Skip);
    assert_eq!(file_step(Some(".hidden.svg"), false, Some("svg")), FileStep::Skip);
    assert_eq!(file_step(Some("a.svg"), false, Some("svg")), FileStep::Missing);
    assert_eq!(file_step(None, false, Some("svg")), FileStep::Missing);
    assert_eq!(file_step(Some("Makefile"), true, None), FileStep::Skip);
    assert_eq!(file_step(Some("a.svg"), true, Some("svg")), FileStep::Check(FileCheck::Text(TextKind::Svg)));
    assert_eq!(file_step(Some("a.values"), true, Some("values")), FileStep::Check(FileCheck::Field));
    assert_eq!(file_step(Some("a.bin"), true, Some("bin")), FileStep::Check(FileCheck::Unexpected));
}

#[test]
fn reports_for_checked_files() {
    let s = |t: &str| t.to_string();
    assert!(report_for(FileCheck::Ignore, s("e"), s("a"), Err(s("x"))).is_none());
    assert!(report_for(FileCheck::Field, s("e"), s("a"), Ok(())).is_none());
    let m = report_for(FileCheck::Field, s("e.values"), s("a.values"), Err(s("size of field differs")))
        .unwrap()
        .message();
    assert_eq!(
        m,
        "  • field files are not the same (size of field differs)\n    expected file : e.values\n    actual file   : a.values\n"
    );
    let m = report_for(FileCheck::Lines, s("e"), s("a"), Err(s("n"))).unwrap().message();
    assert_eq!(m, "  • line files are not the same (n)\n    expected file : e\n    actual file   : a\n");
    let m = report_for(FileCheck::Text(TextKind::Aabb), s("e"), s("a"), compare_text("1 2", "1 3"))
        .unwrap()
        .message();
    assert_eq!(m, "  • bounding box files are not the same\n    expected file : e\n    actual file   : a\n");
    assert!(report_for(FileCheck::Text(TextKind::C), s("e"), s("a"), compare_text("int", "int")).is_none());
    let m = report_for(FileCheck::Unexpected, s("e.bin"), s("a.bin"), Ok(())).unwrap().message();
    assert_eq!(m, "  • unexpected file a.bin\n");
}

#[test]
fn missing_expected_outputs() {
    assert!(check_expected_dump(true).is_ok());
    let errors = check_expected_dump(false).unwrap_err();
    assert_eq!(errors.len(), 1);
    assert_eq!(errors[0].message(), "  • No Expected files found\n");
}
