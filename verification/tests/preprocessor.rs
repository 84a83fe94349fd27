use adoc::ast::{AttributeValue, Attributes};
use adoc::ast::SourceId;
use adoc::preprocessor::{
    check_under_base,
    apply_indent, apply_leveloffset, apply_lines_filter, apply_str_op, apply_tags_filter,
    eval_attr_test, include_refusal, parse_attr_test, parse_directive, parse_line_ranges,
    parse_one_line_range, parse_tag_marker, parse_tag_selector, source_lines, Directive,
    IncludeRefusal, LineRange, LineStep, PreprocessError, PreprocessedLine, Preprocessor, SafeMode,
};

/// Drives the preprocessor over a text with no includes, line by line.
fn run_text(p: &mut Preprocessor, source: &str) -> Result<Vec<PreprocessedLine>, PreprocessError> {
    let id = p.begin_run(source, "<input>");
    let mut output = Vec::new();
    for line in source_lines(source, id) {
        match p.process_line(&line.text, line.location, "<input>", &mut output)? {
            LineStep::Done => {}
            LineStep::Ifeval(ops) => {
                let active = p.emitting()
                    && match ops {
                        Some((l, op, r)) => apply_str_op(&l, op, &r),
                        None => false,
                    };
                p.push_condition(active);
            }
            LineStep::Include { .. } => panic!("no include in these inputs"),
        }
    }
    p.finish_run()?;
    Ok(output)
}

fn attrs_with(pairs: &[(&str, AttributeValue)]) -> Attributes {
    let mut a = Attributes::new();
    for (k, v) in pairs {
        a.insert((*k).to_string(), v.clone());
    }
    a
}

fn chars(s: &str) -> Vec<char> {
    s.chars().collect()
}

fn text(v: Vec<char>) -> String {
    v.into_iter().collect()
}

#[test]
fn directive_parsing_recognises_each_form() {
    assert!(matches!(
        parse_directive("include::file.adoc[]"),
        Some(Directive::Include { .. })
    ));
    assert!(matches!(
        parse_directive("ifdef::flag[]"),
        Some(Directive::Ifdef { content: None, .. })
    ));
    assert!(matches!(
        parse_directive("ifdef::flag[hello]"),
        Some(Directive::Ifdef {
            content: Some(_),
            ..
        })
    ));
    assert!(matches!(
        parse_directive("ifndef::flag[]"),
        Some(Directive::Ifndef { .. })
    ));
    assert!(matches!(
        parse_directive("ifeval::[1 == 1]"),
        Some(Directive::Ifeval { .. })
    ));
    assert!(matches!(parse_directive("endif::[]"), Some(Directive::Endif)));
    assert!(parse_directive("paragraph text").is_none());
}

#[test]
fn ifdef_anyof_and_allof() {
    let only_a = attrs_with(&[("a", AttributeValue::Bool(true))]);
    let a_and_b = attrs_with(&[
        ("a", AttributeValue::Bool(true)),
        ("b", AttributeValue::Bool(true)),
    ]);
    let any = parse_attr_test("a,b").unwrap();
    let all = parse_attr_test("a+b").unwrap();
    assert!(eval_attr_test(&any, &only_a));
    assert!(!eval_attr_test(&all, &only_a));
    assert!(eval_attr_test(&all, &a_and_b));
}

#[test]
fn line_range_resolves_negative_indices() {
    assert_eq!(parse_one_line_range("1..-1").unwrap().end, -1);
    let r = parse_one_line_range("3..5").unwrap();
    assert_eq!((r.start, r.end), (3, 5));
    let single = parse_one_line_range("7").unwrap();
    assert_eq!((single.start, single.end), (7, 7));
}

#[test]
fn tag_marker_recognises_common_comment_leaders() {
    assert_eq!(parse_tag_marker("// tag::foo[]", "tag::").as_deref(), Some("foo"));
    assert_eq!(parse_tag_marker("# tag::foo[]", "tag::").as_deref(), Some("foo"));
    assert_eq!(
        parse_tag_marker("<!-- tag::foo[] -->", "tag::").as_deref(),
        Some("foo")
    );
    // Adjacent alphanumeric prefix: not a marker.
    assert!(parse_tag_marker("subtag::foo[]", "tag::").is_none());
}

#[test]
fn directive_ifdef_inline_content_is_kept() {
    match parse_directive("ifdef::flag[on the fly]") {
        Some(Directive::Ifdef { content: Some(c), .. }) => assert_eq!(c, "on the fly"),
        other => panic!("unexpected {other:?}"),
    }
}

#[test]
fn directive_include_target_and_args() {
    match parse_directive("include::part.adoc[lines=2..3]") {
        Some(Directive::Include { target, args }) => {
            assert_eq!(target, "part.adoc");
            assert_eq!(args, "lines=2..3");
        }
        other => panic!("unexpected {other:?}"),
    }
}

#[test]
fn attr_test_anyof_false_when_nothing_set() {
    let none = Attributes::new();
    let any = parse_attr_test("a,b").unwrap();
    assert!(!eval_attr_test(&any, &none));
}

#[test]
fn line_ranges_parse_open_ended_and_lists() {
    let rs = parse_line_ranges(&chars("1..2;5..-1"));
    assert_eq!(rs.len(), 2);
    assert_eq!((rs[0].start, rs[0].end), (1, 2));
    assert_eq!(rs[1].start, 5);
    assert_eq!(rs[1].end, -1);
    // An empty bound is no range at all.
    assert_eq!(parse_line_ranges(&chars("1..2,5..")).len(), 1);
}

#[test]
fn lines_filter_keeps_selected_lines() {
    let src = chars("one\ntwo\nthree\nfour\n");
    let ranges = vec![LineRange { start: 2, end: 3 }];
    assert_eq!(text(apply_lines_filter(&src, &ranges)), "two\nthree\n");
}

#[test]
fn lines_filter_negative_end_runs_to_last_line() {
    let src = chars("one\ntwo\nthree\n");
    let ranges = vec![LineRange { start: 2, end: -1 }];
    assert_eq!(text(apply_lines_filter(&src, &ranges)), "two\nthree\n");
}

#[test]
fn tags_filter_selects_marked_region() {
    let src = chars("before\n// tag::a[]\ninside\n// end::a[]\nafter\n");
    let sel = parse_tag_selector(&chars("a"));
    assert_eq!(text(apply_tags_filter(&src, &sel)), "inside\n");
}

#[test]
fn tags_filter_negation_keeps_the_rest() {
    let src = chars("keep\n// tag::x[]\ndrop\n// end::x[]\nkeep2\n");
    let sel = parse_tag_selector(&chars("**;!x"));
    assert_eq!(text(apply_tags_filter(&src, &sel)), "keep\nkeep2\n");
}

#[test]
fn leveloffset_shifts_and_clamps() {
    let src = chars("== Title\ntext\n");
    assert_eq!(text(apply_leveloffset(&src, 1)), "=== Title\ntext\n");
    let deep = chars("====== Deep\n");
    assert_eq!(text(apply_leveloffset(&deep, 3)), "====== Deep\n");
}

#[test]
fn indent_reindents_to_target() {
    let src = chars("    a\n      b\n");
    assert_eq!(text(apply_indent(&src, 2)), "  a\n    b\n");
}

#[test]
fn block_conditional_skips_inactive_content() {
    let mut p = Preprocessor::new();
    let src = "before\nifdef::flag[]\nhidden\nendif::[]\nafter\n";
    let lines = run_text(&mut p, src).unwrap();
    let texts: Vec<_> = lines.iter().map(|l| l.text.as_str()).collect();
    assert_eq!(texts, vec!["before", "after", ""]);
}

#[test]
fn block_conditional_emits_when_attribute_set() {
    let mut p = Preprocessor::with_attributes(attrs_with(&[("flag", AttributeValue::Bool(true))]));
    let src = "before\nifdef::flag[]\nshown\nendif::[]\nafter\n";
    let lines = run_text(&mut p, src).unwrap();
    let texts: Vec<_> = lines.iter().map(|l| l.text.as_str()).collect();
    assert_eq!(texts, vec!["before", "shown", "after", ""]);
}

#[test]
fn inline_ifdef_emits_content_inline() {
    let mut p = Preprocessor::with_attributes(attrs_with(&[("flag", AttributeValue::Bool(true))]));
    let src = "ifdef::flag[on the fly]\n";
    let lines = run_text(&mut p, src).unwrap();
    assert_eq!(lines[0].text, "on the fly");
}

#[test]
fn nested_conditionals_propagate_inactive() {
    let mut p = Preprocessor::new();
    let src = "ifdef::outer[]\nifdef::inner[]\ninside\nendif::[]\nendif::[]\n";
    let lines = run_text(&mut p, src).unwrap();
    let texts: Vec<_> = lines.iter().map(|l| l.text.as_str()).collect();
    assert_eq!(texts, vec![""]);
}

#[test]
fn doc_attribute_entry_then_conditional() {
    let mut p = Preprocessor::new();
    let src = ":lang: en\nifdef::lang[]\nhello\nendif::[]\n";
    let lines = run_text(&mut p, src).unwrap();
    let texts: Vec<_> = lines.iter().map(|l| l.text.as_str()).collect();
    assert_eq!(texts, vec![":lang: en", "hello", ""]);
    assert_eq!(p.attributes.get("lang"), Some(&AttributeValue::String("en".into())));
}

#[test]
fn endif_without_matching_if_errors() {
    let mut p = Preprocessor::new();
    let err = run_text(&mut p, "endif::[]\n").unwrap_err();
    let d = err.as_diagnostic().expect("should be a span-carrying error");
    assert_eq!(d.code, "adoc::preprocess::stray_endif");
}

#[test]
fn unclosed_if_at_eof_errors() {
    let mut p = Preprocessor::new();
    let err = run_text(&mut p, "ifdef::x[]\n").unwrap_err();
    assert!(matches!(err, PreprocessError::Message(m) if m.contains("unclosed")));
}

#[test]
fn include_policy_refuses_by_mode_then_cycle_then_depth() {
    assert_eq!(include_refusal(SafeMode::Secure, false, false, 0, 64), Some(IncludeRefusal::SecureMode));
    assert_eq!(include_refusal(SafeMode::Safe, true, false, 0, 64), Some(IncludeRefusal::AbsolutePath));
    assert_eq!(include_refusal(SafeMode::Server, true, true, 0, 64), Some(IncludeRefusal::AbsolutePath));
    assert_eq!(include_refusal(SafeMode::Unsafe, true, false, 0, 64), None);
    assert_eq!(include_refusal(SafeMode::Unsafe, false, true, 0, 64), Some(IncludeRefusal::Cycle));
    assert_eq!(include_refusal(SafeMode::Safe, false, false, 64, 64), Some(IncludeRefusal::Depth));
    assert_eq!(include_refusal(SafeMode::Safe, false, false, 63, 64), None);
}

#[test]
fn ifeval_string_comparison_selects_content() {
    let mut p = Preprocessor::with_attributes(attrs_with(&[("lang", AttributeValue::String("en".into()))]));
    let src = "ifeval::[\"{lang}\" == \"en\"]\nenglish\nendif::[]\nifeval::[\"{lang}\" == \"fr\"]\nfrench\nendif::[]\n";
    let lines = run_text(&mut p, src).unwrap();
    let texts: Vec<_> = lines.iter().map(|l| l.text.as_str()).collect();
    assert_eq!(texts, vec!["english", ""]);
}

/// Runs one `include::` line of a file at `current` and returns the step.
fn include_line(mode: SafeMode, current: &str, line: &str) -> Result<LineStep, PreprocessError> {
    let mut p = Preprocessor::new().with_base_dir("base".to_string()).with_safe_mode(mode);
    let id = p.begin_run(line, current);
    let first = source_lines(line, id).into_iter().next().expect("one line");
    let mut output = Vec::new();
    let step = p.process_line(&first.text, first.location, current, &mut output)?;
    if let LineStep::Include { resolved, .. } = &step {
        p.admit_include(resolved, first.location)?;
    }
    Ok(step)
}

/// The diagnostic code of a refused include.
fn refusal_code(r: Result<LineStep, PreprocessError>) -> String {
    match r {
        Err(e) => e.as_diagnostic().expect("a span-carrying error").code.clone(),
        Ok(_) => panic!("the include should be refused"),
    }
}

#[test]
fn include_target_resolves_against_the_including_file() {
    match include_line(SafeMode::Safe, "main.adoc", "include::part.adoc[]") {
        Ok(LineStep::Include { resolved, .. }) => assert_eq!(resolved, "base/part.adoc"),
        _ => panic!("a plain include is allowed in safe mode"),
    }
    match include_line(SafeMode::Safe, "docs/main.adoc", "include::part.adoc[]") {
        Ok(LineStep::Include { resolved, .. }) => assert_eq!(resolved, "docs/part.adoc"),
        _ => panic!("a plain include is allowed in safe mode"),
    }
}

#[test]
fn include_is_refused_for_cycles_absolute_paths_and_secure_mode() {
    assert_eq!(
        refusal_code(include_line(SafeMode::Unsafe, "docs/part.adoc", "include::part.adoc[]")),
        "adoc::preprocess::include_cycle"
    );
    assert_eq!(
        refusal_code(include_line(SafeMode::Safe, "main.adoc", "include::/etc/part.adoc[]")),
        "adoc::preprocess::absolute_include"
    );
    assert_eq!(
        refusal_code(include_line(SafeMode::Secure, "main.adoc", "include::part.adoc[]")),
        "adoc::preprocess::secure_mode"
    );
}

#[test]
fn include_cycles_compare_paths_by_component() {
    let mut p = Preprocessor::new();
    p.begin_run("", "docs/./part.adoc");
    let err = p.admit_include("docs/part.adoc", adoc::ast::Location::synthetic()).unwrap_err();
    assert_eq!(err.as_diagnostic().unwrap().code, "adoc::preprocess::include_cycle");
    assert!(p.admit_include("docs/other.adoc", adoc::ast::Location::synthetic()).is_ok());
}

#[test]
fn include_past_the_depth_limit_is_refused() {
    let mut p = Preprocessor::new().with_base_dir("base".to_string());
    p.begin_run("", "main.adoc");
    let args = adoc::preprocessor::parse_include_args(&[]);
    let mut depth = 1;
    while p.admit_include("base/next.adoc", adoc::ast::Location::synthetic()).is_ok() {
        let name = format!("base/f{depth}.adoc");
        p.begin_inclusion(name, String::new(), &args);
        depth += 1;
        assert!(depth < 1000, "the depth limit never came");
    }
    let err = p.admit_include("base/next.adoc", adoc::ast::Location::synthetic()).unwrap_err();
    assert_eq!(err.as_diagnostic().unwrap().code, "adoc::preprocess::include_depth");
    assert_eq!(depth, 64);
}

#[test]
fn containment_is_decided_on_canonical_paths() {
    assert!(check_under_base("/srv/docs", "/srv/docs/a.adoc").is_ok());
    assert!(check_under_base("/srv/docs", "/srv/docs").is_ok());
    match check_under_base("/srv/docs", "/srv/docsx/a.adoc") {
        Err(PreprocessError::Message(m)) => {
            assert_eq!(m, "include path /srv/docsx/a.adoc escapes base_dir /srv/docs (safe mode)")
        }
        _ => panic!("an include outside the base directory is refused"),
    }
}

#[test]
fn source_lines_carry_line_numbers_and_byte_ranges() {
    let lines = source_lines("h\u{e9}llo\r\nb\n\ncd", SourceId(3));
    assert_eq!(lines.len(), 4);
    let spans: Vec<(u32, u32, u32, u32)> = lines
        .iter()
        .map(|l| (l.location.line, l.location.column, l.location.byte_start, l.location.byte_end))
        .collect();
    assert_eq!(spans, vec![(1, 1, 0, 6), (2, 1, 8, 9), (3, 1, 10, 10), (4, 1, 11, 13)]);
    assert_eq!(lines[0].text, "h\u{e9}llo");
    assert!(lines.iter().all(|l| l.location.source == SourceId(3)));
}
