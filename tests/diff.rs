use autograde::config::{Config, Test};
use autograde::diff::{joined_lines, mismatch_spans, spans_from_ops, LineOp, OpTag};

#[test]
fn identical_texts_have_no_spans() {
    assert!(mismatch_spans("a\nb\nc\n", "a\nb\nc\n").is_empty());
    assert!(mismatch_spans("", "").is_empty());
}

#[test]
fn empty_actual_gives_deletions_of_every_line() {
    let spans = mismatch_spans("a\nb\nc\n", "");
    assert!(!spans.is_empty());
    assert!(spans.iter().all(|s| s.kind == OpTag::Delete && s.len == 0));
    let joined: String = spans.iter().map(|s| s.expected.clone().unwrap()).collect();
    assert_eq!(joined, "a\nb\nc\n");
}

#[test]
fn empty_expected_gives_one_insertion() {
    let spans = mismatch_spans("", "x\ny\n");
    assert_eq!(spans.len(), 1);
    assert_eq!(spans[0].kind, OpTag::Insert);
    assert_eq!(spans[0].at, 0);
    assert_eq!(spans[0].len, 2);
    assert_eq!(spans[0].expected, None);
}

#[test]
fn unterminated_last_line_differs() {
    let spans = mismatch_spans("a\nb\n", "a\nb");
    assert_eq!(spans.len(), 1);
    assert_eq!(spans[0].kind, OpTag::Replace);
    assert_eq!(spans[0].at, 1);
    assert_eq!(spans[0].expected.as_deref(), Some("b\n"));
}

#[test]
fn joined_lines_spells_out_a_range() {
    let lines = vec!["a\n".to_string(), "b\n".to_string(), "c".to_string()];
    assert_eq!(joined_lines(&lines, 1, 3), "b\nc");
    assert_eq!(joined_lines(&lines, 2, 2), "");
}

#[test]
fn spans_skip_equal_runs() {
    let old = vec!["a\n".to_string(), "b\n".to_string(), "c\n".to_string()];
    let ops = vec![
        LineOp { tag: OpTag::Equal, old_start: 0, old_end: 1, new_start: 0, new_end: 1 },
        LineOp { tag: OpTag::Delete, old_start: 1, old_end: 3, new_start: 1, new_end: 1 },
        LineOp { tag: OpTag::Insert, old_start: 3, old_end: 3, new_start: 1, new_end: 2 },
    ];
    let spans = spans_from_ops(&old, &ops);
    assert_eq!(spans.len(), 2);
    assert_eq!(spans[0].kind, OpTag::Delete);
    assert_eq!(spans[0].expected.as_deref(), Some("b\nc\n"));
    assert_eq!(spans[0].at, 1);
    assert_eq!(spans[0].len, 0);
    assert_eq!(spans[1].kind, OpTag::Insert);
    assert_eq!(spans[1].expected, None);
    assert_eq!(spans[1].len, 1);
}

#[test]
fn config_tool_path() {
    assert_eq!(Config::default().tool_path(), None);
    let c = Config {
        test: Some(Test { tests_path: None, digital_path: Some("/d.jar".to_string()) }),
    };
    assert_eq!(c.tool_path(), Some("/d.jar"));
    let t = Test::default();
    assert!(t.tests_path.is_none() && t.digital_path.is_none());
}
