use autograde::config::{Config, Test};
use autograde::diff::OpTag;
use autograde::unit::{resolve, InterpError, Unit, UnitError, Units};

fn unit(input: &[&str], expected: &str, rubric: u64) -> Unit {
    Unit {
        name: "".into(),
        input: input.iter().map(|s| s.to_string()).collect(),
        expected: expected.into(),
        rubric,
    }
}

fn config_with_tool(path: Option<&str>) -> Config {
    Config {
        test: Some(Test {
            tests_path: None,
            digital_path: path.map(|p| p.to_string()),
        }),
    }
}

#[test]
fn test_unit_run() {
    let test = unit(&["echo", "hello world"], "hello world\n", 100);
    let out = test.grade_run(&Ok(b"hello world\n".to_vec())).unwrap();
    assert_eq!(out.grade, 100);

    let test = unit(&["echo", "howdy y'all"], "hello world\n", 100);
    assert!(test.grade_run(&Ok(b"howdy y'all\n".to_vec())).is_err());
}

#[test]
fn exact_output_earns_full_rubric() {
    let u = unit(&["prog"], "a\nb\n", 7);
    assert_eq!(u.grade_output(b"a\nb\n").unwrap().grade, 7);
}

#[test]
fn one_differing_line_earns_nothing() {
    let u = unit(&["prog"], "a\nb\nc\n", 7);
    match u.grade_output(b"a\nX\nc\n") {
        Err(UnitError::IncorrectOutput(e)) => {
            assert_eq!(e.src, "a\nX\nc\n");
            assert_eq!(e.span_list.len(), 1);
            assert_eq!(e.span_list[0].kind, OpTag::Replace);
            assert_eq!(e.span_list[0].at, 1);
            assert_eq!(e.span_list[0].len, 1);
            assert_eq!(e.span_list[0].expected.as_deref(), Some("b\n"));
        }
        other => panic!("unexpected outcome {:?}", other),
    }
}

#[test]
fn missing_line_earns_nothing() {
    let u = unit(&["prog"], "a\nb\n", 7);
    assert!(matches!(u.grade_output(b"a\n"), Err(UnitError::IncorrectOutput(_))));
}

#[test]
fn extra_line_earns_nothing() {
    let u = unit(&["prog"], "a\n", 7);
    match u.grade_output(b"a\nb\n") {
        Err(UnitError::IncorrectOutput(e)) => {
            assert_eq!(e.span_list.len(), 1);
            assert_eq!(e.span_list[0].kind, OpTag::Insert);
            assert_eq!(e.span_list[0].at, 1);
            assert_eq!(e.span_list[0].len, 1);
            assert_eq!(e.span_list[0].expected, None);
        }
        other => panic!("unexpected outcome {:?}", other),
    }
}

#[test]
fn line_terminators_are_compared() {
    let u = unit(&["prog"], "a\n", 3);
    assert!(u.grade_output(b"a\r\n").is_err());
    assert!(u.grade_output(b"a").is_err());
}

#[test]
fn multibyte_output_is_decoded() {
    let u = unit(&["prog"], "caf\u{e9}\n", 4);
    assert_eq!(u.grade_output("caf\u{e9}\n".as_bytes()).unwrap().grade, 4);
}

#[test]
fn non_utf8_output_is_reported() {
    let u = unit(&["prog"], "a\n", 5);
    assert!(matches!(u.grade_output(&[0xff, 0xfe, b'\n']), Err(UnitError::NotUtf8)));
}

#[test]
fn spawn_failure_is_reported() {
    let u = unit(&["/no/such/program"], "a\n", 5);
    match u.grade_run(&Err("No such file or directory".to_string())) {
        Err(UnitError::SpawnFailure(reason)) => assert_eq!(reason, "No such file or directory"),
        other => panic!("unexpected outcome {:?}", other),
    }
}

#[test]
fn suite_with_one_mismatch() {
    let units = Units {
        tests: vec![
            unit(&["echo", "hello world"], "hello world\n", 100),
            unit(&["echo", "howdy"], "hello world\n", 50),
        ],
    };
    let runs = vec![Ok(b"hello world\n".to_vec()), Ok(b"howdy\n".to_vec())];
    let (grade, errors) = units.grade(&runs);
    assert_eq!(grade, 100);
    assert_eq!(errors.errors.len(), 1);
    assert!(matches!(errors.errors[0], UnitError::IncorrectOutput(_)));
}

#[test]
fn suite_all_matching() {
    let units = Units {
        tests: vec![
            unit(&["a"], "x\n", 10),
            unit(&["b"], "y\n", 20),
            unit(&["c"], "z\n", 30),
        ],
    };
    let runs = vec![Ok(b"x\n".to_vec()), Ok(b"y\n".to_vec()), Ok(b"z\n".to_vec())];
    let (grade, errors) = units.grade(&runs);
    assert_eq!(grade, 60);
    assert!(errors.errors.is_empty());
}

#[test]
fn suite_with_invalid_program_keeps_other_grades() {
    let units = Units {
        tests: vec![
            unit(&["a"], "x\n", 10),
            unit(&["/no/such/program"], "y\n", 20),
            unit(&["c"], "z\n", 30),
        ],
    };
    let runs = vec![
        Ok(b"x\n".to_vec()),
        Err("No such file or directory".to_string()),
        Ok(b"z\n".to_vec()),
    ];
    let (grade, errors) = units.grade(&runs);
    assert_eq!(grade, 40);
    assert_eq!(errors.errors.len(), 1);
    assert!(matches!(errors.errors[0], UnitError::SpawnFailure(_)));
}

#[test]
fn suite_with_non_utf8_unit_keeps_other_grades() {
    let units = Units {
        tests: vec![unit(&["a"], "x\n", 10), unit(&["b"], "y\n", 20)],
    };
    let runs = vec![Ok(vec![0xc3, 0x28]), Ok(b"y\n".to_vec())];
    let (grade, errors) = units.grade(&runs);
    assert_eq!(grade, 20);
    assert_eq!(errors.errors.len(), 1);
    assert!(matches!(errors.errors[0], UnitError::NotUtf8));
}

#[test]
fn empty_suite_grades_zero() {
    let units = Units { tests: vec![] };
    let (grade, errors) = units.grade(&vec![]);
    assert_eq!(grade, 0);
    assert!(errors.errors.is_empty());
    assert_eq!(units.total_rubric(), Some(0));
}

#[test]
fn total_rubric_sums_and_detects_overflow() {
    let units = Units {
        tests: vec![unit(&["a"], "", 10), unit(&["b"], "", 32)],
    };
    assert_eq!(units.total_rubric(), Some(42));
    let units = Units {
        tests: vec![unit(&["a"], "", u64::MAX), unit(&["b"], "", 1)],
    };
    assert_eq!(units.total_rubric(), None);
    let units = Units {
        tests: vec![unit(&["a"], "", u64::MAX - 1), unit(&["b"], "", 1)],
    };
    assert_eq!(units.total_rubric(), Some(u64::MAX));
}

#[test]
fn interp_replaces_project_placeholder() {
    let mut u = unit(&["./$project", "--name=$project-$project", "plain"], "", 1);
    let config = Config { test: None };
    assert_eq!(u.interp_input(&config, "lab1"), Ok(()));
    assert_eq!(u.input, vec!["./lab1", "--name=lab1-lab1", "plain"]);
}

#[test]
fn interp_replaces_tool_placeholder() {
    let mut u = unit(&["java", "-jar", "$digital", "$project.dig"], "", 1);
    let config = config_with_tool(Some("/opt/Digital.jar"));
    assert_eq!(u.interp_input(&config, "adder"), Ok(()));
    assert_eq!(u.input, vec!["java", "-jar", "/opt/Digital.jar", "adder.dig"]);
}

#[test]
fn interp_keeps_unknown_placeholders() {
    let mut u = unit(&["$home", "$proj", "$"], "", 1);
    let config = Config { test: None };
    assert_eq!(u.interp_input(&config, "x"), Ok(()));
    assert_eq!(u.input, vec!["$home", "$proj", "$"]);
}

#[test]
fn interp_without_tool_path_fails_unchanged() {
    let mut u = unit(&["java", "$digital", "$project"], "", 1);
    let config = config_with_tool(None);
    assert_eq!(u.interp_input(&config, "x"), Err(InterpError::MissingToolPath));
    assert_eq!(u.input, vec!["java", "$digital", "$project"]);
    let config = Config::default();
    assert_eq!(u.interp_input(&config, "x"), Err(InterpError::MissingToolPath));
}

#[test]
fn resolve_replaces_each_placeholder_once() {
    assert_eq!(resolve("$project$digital", "$digital", "T"), "$digitalT");
    assert_eq!(resolve("", "p", "t"), "");
    assert_eq!(resolve("\u{e9}$project\u{e9}", "p", "t"), "\u{e9}p\u{e9}");
}
