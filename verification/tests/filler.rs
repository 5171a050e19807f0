//! Prompts, replies and the budget of model calls.
use cargo_hole::filler::{
    expected_type_hint, extract_expression, refill_feedback, strip_fences, AskStep, Expectations,
    FillStart, Filler, MAX_REPORTED_ERRORS,
};
use cargo_hole::hole::{Hole, HolePosition};
use cargo_hole::prober::ProbeOutcome;

fn hole(spec: &str) -> Hole {
    Hole {
        file: "/tmp/crate/src/lib.rs".to_string(),
        byte_start: 0,
        byte_end: 20,
        spec: spec.to_string(),
        fn_sig: "pub fn double(n: i64) -> i64".to_string(),
        fn_name: "double".to_string(),
        impl_ctx: None,
        line: 12,
        column: 5,
        macro_name: "todo".to_string(),
        position: HolePosition::Expression,
        pinned: false,
        unresolvable: None,
    }
}

#[test]
fn markers_are_stripped_from_a_reply() {
    let code = extract_expression("<<<HOLE>>> 40 + 2 <<<END>>>").unwrap();
    assert_eq!(code, "40 + 2");
}

#[test]
fn a_fenced_reply_is_accepted() {
    let code = extract_expression("```rust\n40 + 2\n```").unwrap();
    assert_eq!(code, "40 + 2");
}

#[test]
fn prose_without_markers_is_kept_verbatim() {
    let code = extract_expression("  42  ").unwrap();
    assert_eq!(code, "42");
}

#[test]
fn an_empty_reply_is_rejected() {
    assert!(extract_expression("   ").is_err());
    assert!(extract_expression("<<<HOLE>>>  <<<END>>>").is_err());
}

#[test]
fn a_known_type_is_carried_into_the_prompt() {
    let hint = expected_type_hint(Some(&ProbeOutcome::Known("Vec<String>".into())));
    assert_eq!(hint.as_deref(), Some("Vec<String>"));
}

#[test]
fn no_expectation_is_stated_rather_than_omitted() {
    // Silence would read as "no type was needed"; saying so explicitly
    // stops the model from assuming a type was verified.
    let hint = expected_type_hint(Some(&ProbeOutcome::NoExpectation));
    let hint = hint.expect("a hint line is emitted");
    assert!(hint.contains("none discovered"), "{hint}");
    assert!(hint.contains("infer it from the specification"), "{hint}");
}

#[test]
fn a_failed_probe_contributes_no_hint_at_all() {
    // A failure or a missing cargo must not become "unknown": that would
    // invite the model to guess a type nothing established.
    assert!(expected_type_hint(None).is_none());
    assert!(expected_type_hint(Some(&ProbeOutcome::ProbeFailed("boom".into()))).is_none());
    assert!(expected_type_hint(Some(&ProbeOutcome::Broken("no cargo".to_string()))).is_none());
}

#[test]
fn only_a_whole_fence_is_stripped() {
    assert_eq!(strip_fences("a ``` b"), "a ``` b");
    assert_eq!(strip_fences("```\n1\n```"), "1");
}

#[test]
fn the_prompt_holds_the_spec_and_the_type() {
    let filler = Filler::new("/tmp/crate".to_string());
    let known = ProbeOutcome::Known("i64".to_string());
    assert_eq!(
        filler.build_prompt(&hole("double the input"), Some(&known), Some("try harder")),
        "File: src/lib.rs\nLine: 12\nPosition: expression\nExpected type: i64\n\n\
         Specification:\ndouble the input\n\n\
         Implement just this one hole. Reply with one expression between <<<HOLE>>> and \
         <<<END>>>.\n\ntry harder"
    );
    let bare = filler.build_prompt(&hole("double the input"), None, None);
    assert!(!bare.contains("Expected type"), "{bare}");
}

#[test]
fn a_refill_quotes_a_bounded_number_of_errors() {
    let errors: Vec<String> = (0..MAX_REPORTED_ERRORS + 3)
        .map(|i| format!("E0308 number-{i}"))
        .collect();
    let text = refill_feedback(&errors);
    assert!(text.contains("number-0"));
    assert!(text.contains(&format!("number-{}", MAX_REPORTED_ERRORS - 1)));
    assert!(!text.contains(&format!("number-{MAX_REPORTED_ERRORS}\n")), "{text}");
}

#[test]
fn pinned_and_unresolvable_holes_are_refused() {
    let filler = Filler::new("/tmp/crate".to_string());
    let mut pinned = hole("x");
    pinned.pinned = true;
    let err = filler.fill_hole(&pinned).unwrap_err();
    assert_eq!(
        err,
        "/tmp/crate/src/lib.rs:12 is pinned, so it is never regenerated"
    );
    let mut lost = hole("x");
    lost.unresolvable = Some("no trustworthy byte range".to_string());
    let err = filler.fill_hole(&lost).unwrap_err();
    assert!(err.contains("no trustworthy byte range"), "{err}");
}

#[test]
fn asking_again_refuses_what_asking_refuses() {
    let filler = Filler::new("/tmp/crate".to_string());
    let errors = vec!["E0308 mismatched types".to_string()];
    let mut pinned = hole("x");
    pinned.pinned = true;
    assert_eq!(
        filler.refill_hole(&pinned, None, &errors).unwrap_err(),
        "/tmp/crate/src/lib.rs:12 is pinned, so it is never regenerated"
    );
    let mut known = Expectations::new();
    let h = hole("x");
    known.insert(&h, ProbeOutcome::Known("i64".to_string()));
    let (expected, feedback) = filler.refill_hole(&h, Some(&known), &errors).unwrap();
    assert!(matches!(expected, Some(ProbeOutcome::Known(t)) if t == "i64"));
    assert!(feedback.contains("E0308 mismatched types"), "{feedback}");
}

#[test]
fn a_hole_is_probed_unless_its_type_is_known_or_probing_is_off() {
    let h = hole("x");
    let filler = Filler::new("/tmp/crate".to_string());
    assert!(matches!(filler.fill_hole(&h), Ok(FillStart::Probe)));

    let mut known = Expectations::new();
    known.insert(&h, ProbeOutcome::Known("i64".to_string()));
    match filler.fill_hole_with(&h, Some(&known)) {
        Ok(FillStart::Ask { expected: Some(ProbeOutcome::Known(t)) }) => assert_eq!(t, "i64"),
        other => panic!("{other:?}"),
    }

    let quiet = Filler::without_probe("/tmp/crate".to_string());
    assert!(matches!(
        quiet.fill_hole(&h),
        Ok(FillStart::Ask { expected: None })
    ));
}

#[test]
fn a_probed_list_is_looked_up_by_place() {
    let filler = Filler::new("/tmp/crate".to_string());
    let first = hole("x");
    let mut second = hole("x");
    second.byte_start = 40;
    second.byte_end = 60;
    let holes = vec![first.clone(), second.clone()];
    let outcomes = vec![
        ProbeOutcome::Known("i64".to_string()),
        ProbeOutcome::Broken("no cargo".to_string()),
    ];
    let (known, warnings) = filler.probe_all(&holes, outcomes);
    assert!(matches!(known.get(&first), Some(ProbeOutcome::Known(t)) if t == "i64"));
    assert_eq!(warnings.len(), 1, "{warnings:?}");
    assert!(warnings[0].contains("no cargo"), "{warnings:?}");
}

#[test]
fn the_model_is_asked_a_bounded_number_of_times() {
    let filler = Filler::without_probe("/tmp/crate".to_string());
    let h = hole("x");
    let mut step = filler.ask(&h, 3, None);
    let mut calls = 0;
    let message = loop {
        match step {
            AskStep::Ask { attempt, feedback } => {
                calls += 1;
                assert_eq!(attempt, calls);
                assert_eq!(
                    feedback.is_some_and(|f| f.contains("timed out")),
                    attempt > 1,
                    "a failure is quoted to the next attempt"
                );
                step = filler.ask_again(&h, attempt, 3, Err("timed out".to_string()));
            }
            AskStep::GiveUp { message } => break message,
            AskStep::Answer { .. } => panic!("nothing was answered"),
        }
    };
    assert_eq!(calls, 3);
    assert_eq!(
        message,
        "could not fill /tmp/crate/src/lib.rs:12 after 3 attempt(s)"
    );
}

#[test]
fn an_unusable_reply_is_asked_for_again_with_the_reason() {
    let filler = Filler::without_probe("/tmp/crate".to_string());
    let h = hole("x");
    match filler.ask_again(&h, 1, 3, Ok("<<<HOLE>>><<<END>>>".to_string())) {
        AskStep::Ask { attempt: 2, feedback: Some(_) } => {}
        other => panic!("{other:?}"),
    }
    match filler.ask_again(&h, 2, 3, Ok("<<<HOLE>>>n * 2<<<END>>>".to_string())) {
        AskStep::Answer { code, attempts } => {
            assert_eq!(code, "n * 2");
            assert_eq!(attempts, 2);
        }
        other => panic!("{other:?}"),
    }
}
