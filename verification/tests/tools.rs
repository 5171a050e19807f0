//! Text, paths, scanning, splicing, and what the commands decide and say.
use cargo_hole::cargo_check::{
    cannot_run, cargo_binary, wait_step, CargoEnv, ChildState, ProberOptions, WaitStep,
};
use cargo_hole::cmdline::{
    assembled_text, build_dir, building_text, cargo_subcommand_argv, exit_with, filling_text,
    group_by_file, holes_of_file, link_note, needs_probe, no_holes_text, open_holes_warning,
    prober_options, probing_text, refuse_stranded, removed_text, running_text, select_holes, skipping_text,
    unelaborated_error, would_build_text, would_run_text, RunArgs, SyncStats,
};
use cargo_hole::fill::Blame;
use cargo_hole::fill_run::report_pre_existing;
use cargo_hole::gate::{Failure, Verdict};
use cargo_hole::hole::{Hole, HolePosition};
use cargo_hole::listing::skipped_file_text;
use cargo_hole::path::{
    components, ends_with, file_name, join, parent, precedes, same_path, sort_paths, strip_prefix,
    with_file_name,
};
use cargo_hole::patching::validate_span;
use cargo_hole::prober::{DEFAULT_LOCK_WAIT, DEFAULT_TIMEOUT};
use cargo_hole::render::{
    paint, render_list, ColorMode, Env, RenderOptions, Status, Style, DEFAULT_WIDTH,
};
use cargo_hole::scan::{
    raw_string_end, skip_block_comment, skip_char_or_lifetime, skip_line_comment, skip_normal_string,
};
use cargo_hole::splice::{splice_many, Edit};
use cargo_hole::util::{
    column_of, display_rel_path, line_of, macro_body_open, matching_close, truncate, Delim,
};
use cargo_hole::wrap::{char_width, text_width, wrap};

fn hole(file: &str, start: usize) -> Hole {
    Hole {
        file: file.to_string(),
        byte_start: start,
        byte_end: start + 10,
        spec: "x".to_string(),
        fn_sig: "fn f()".to_string(),
        fn_name: "f".to_string(),
        impl_ctx: None,
        line: 3,
        column: 5,
        macro_name: "todo".to_string(),
        position: HolePosition::Expression,
        pinned: false,
        unresolvable: None,
    }
}

// -- scanning ----------------------------------------------------------

#[test]
fn the_matching_close_skips_what_is_quoted_or_commented() {
    let close = |s: &str| matching_close(s.as_bytes(), 0);
    assert_eq!(close("(a)"), Some(2));
    assert_eq!(close("([{}])x"), Some(5));
    assert_eq!(close("(\")\")"), Some(4));
    assert_eq!(close("(r#\")\"\"#)"), Some(8));
    assert_eq!(close("(br\")\")"), Some(6));
    assert_eq!(close("(')')"), Some(4));
    assert_eq!(close("('\\'')"), Some(5));
    assert_eq!(close("('a)"), Some(3), "a lifetime is not a literal");
    assert_eq!(close("('é',')')"), Some(9), "a character may take several bytes");
    assert_eq!(close("('中',\"(\")"), Some(10));
    assert_eq!(close("('😀',')')"), Some(11));
    assert_eq!(close("('é)"), Some(4), "nor is one with such a character");
    assert_eq!(close("(// )\n)"), Some(6));
    assert_eq!(close("(/* ) /* ) */ ) */)"), Some(18));
    assert_eq!(close("(]"), None);
    assert_eq!(close("("), None);
    assert_eq!(close("x"), None);
    assert_eq!(close("(\")"), None);
}

#[test]
fn scanning_from_beyond_the_end_finds_nothing() {
    let src = b"r\"x\" /* y */";
    for start in [src.len(), src.len() + 1, usize::MAX - 1, usize::MAX] {
        assert_eq!(skip_line_comment(src, start), start);
        assert_eq!(skip_block_comment(src, start), None);
        assert_eq!(skip_normal_string(src, start, b'"'), None);
        assert_eq!(raw_string_end(src, start), None);
        assert_eq!(skip_char_or_lifetime(src, start), None);
    }
    assert_eq!(skip_block_comment(src, src.len() - 1), None);
    assert_eq!(raw_string_end(src, 0), Some(4));
    assert_eq!(skip_block_comment(src, 5), Some(12));
    assert_eq!(skip_line_comment(b"// a\nb", 0), 4);
    assert_eq!(skip_normal_string(b"\"a\\\"b\"c", 0, b'"'), Some(6));
    assert_eq!(skip_char_or_lifetime("'é'".as_bytes(), 0), Some(4));
    assert_eq!(skip_char_or_lifetime(b"'\xc3'", 0), Some(3), "half a character");
}

#[test]
fn a_macro_body_is_found_after_its_path() {
    assert_eq!(macro_body_open(b"todo!(x)", 0), Some(5));
    assert_eq!(macro_body_open(b"std::todo! (x)", 0), Some(11));
    assert_eq!(macro_body_open(b"todo ! [x]", 0), Some(7));
    assert_eq!(macro_body_open(b"todo", 0), None);
}

#[test]
fn delimiters_come_in_pairs() {
    assert_eq!(Delim::from_open_byte(b'('), Some(Delim::paren()));
    assert_eq!(Delim::from_open_byte(b'['), Some(Delim::bracket()));
    assert_eq!(Delim::from_open_byte(b'{'), Some(Delim::brace()));
    assert_eq!(Delim::from_open_byte(b')'), None);
    assert_eq!(Delim::brace().close, b'}');
}

#[test]
fn literals_and_comments_end_where_rust_says() {
    assert_eq!(skip_block_comment(b"/* /* */ */x", 0), Some(11));
    assert_eq!(skip_block_comment(b"/* /* */", 0), None);
    assert_eq!(raw_string_end(b"r##\"a\"#\"##x", 0), Some(10));
    assert_eq!(raw_string_end(b"radius", 0), None);
    assert_eq!(skip_char_or_lifetime(b"'\\n'x", 0), Some(4));
    assert_eq!(skip_char_or_lifetime(b"'\\''x", 0), Some(4));
}

// -- positions ---------------------------------------------------------

#[test]
fn lines_and_columns_count_from_one() {
    let src = "ab\n中c\n";
    assert_eq!((line_of(src, 0), column_of(src, 0)), (1, 1));
    assert_eq!((line_of(src, 3), column_of(src, 3)), (2, 1));
    assert_eq!(
        (line_of(src, 6), column_of(src, 6)),
        (2, 2),
        "a column counts characters"
    );
    assert_eq!(line_of(src, 100), 3);
}

#[test]
fn truncation_cuts_between_characters() {
    assert_eq!(truncate("short", 5), "short");
    assert_eq!(truncate("longer text", 5), "longe…");
    assert_eq!(truncate("ab中文", 4), "ab…");
}

#[test]
fn paths_are_shown_relative_to_the_root() {
    assert_eq!(display_rel_path("/c", "/c/src/lib.rs"), "src/lib.rs");
    assert_eq!(display_rel_path("/c", "/c"), ".");
    assert_eq!(display_rel_path("/c", "/d/lib.rs"), "/d/lib.rs");
}

// -- paths -------------------------------------------------------------

#[test]
fn paths_are_compared_by_component() {
    assert_eq!(components("/a//b/./c/"), vec!["/", "a", "b", "c"]);
    assert!(same_path("/a/b/", "/a//./b"));
    assert!(!same_path("a/b", "/a/b"));
    assert!(ends_with("/a/b/c.rs", "b/c.rs"));
    assert!(!ends_with("/a/bb/c.rs", "b/c.rs"));
    assert_eq!(strip_prefix("/a/b/c", "/a"), Some("b/c".to_string()));
    assert_eq!(strip_prefix("/ab/c", "/a"), None);
    assert_eq!(join("/a", "b"), "/a/b");
    assert_eq!(join("/a", "/b"), "/b");
    assert_eq!(file_name("/a/b.rs"), Some("b.rs".to_string()));
    assert_eq!(file_name("/a/.."), None);
    assert_eq!(parent("/a/b.rs"), "/a");
    assert_eq!(with_file_name("/a/b.rs", "c.rs"), "/a/c.rs");
}

#[test]
fn paths_are_ordered_by_component() {
    assert!(precedes("/a/b", "/a-b"), "a component ends before a longer one");
    assert!(!precedes("/a", "/a"));
    let sorted = sort_paths(&vec![
        "/c/z.rs".to_string(),
        "/c/a/b.rs".to_string(),
        "/c/a.rs".to_string(),
    ]);
    assert_eq!(sorted, vec!["/c/a/b.rs", "/c/a.rs", "/c/z.rs"]);
}

// -- splicing ----------------------------------------------------------

#[test]
fn edits_are_spliced_left_to_right_in_any_order() {
    let src = "one two three";
    let first = Edit { byte_start: 0, byte_end: 3, replacement: "1" };
    let last = Edit { byte_start: 8, byte_end: 13, replacement: "3333333" };
    let (text, anchors) = splice_many(src, &[first, last]).unwrap();
    assert_eq!(text, "1 two 3333333");
    assert_eq!(anchors, vec![0, 6]);
    let (text, anchors) = splice_many(src, &[last, first]).unwrap();
    assert_eq!(text, "1 two 3333333");
    assert_eq!(anchors, vec![6, 0], "one anchor per edit, in the order given");
    assert_eq!(splice_many(src, &[]).unwrap().0, src);
}

#[test]
fn duplicate_ranges_are_refused_even_empty_ones() {
    let x = Edit { byte_start: 1, byte_end: 1, replacement: "x" };
    let y = Edit { byte_start: 1, byte_end: 1, replacement: "y" };
    assert_eq!(
        splice_many("ab", &[x, y]).unwrap_err(),
        "edits at bytes 1..1 and 1..1 overlap, so they cannot be spliced together"
    );
    let whole = Edit { byte_start: 0, byte_end: 2, replacement: "z" };
    assert!(splice_many("ab", &[whole, whole]).is_err());
    let after = Edit { byte_start: 1, byte_end: 2, replacement: "Y" };
    let (text, anchors) = splice_many("ab", &[after, x]).unwrap();
    assert_eq!(text, "axY", "an empty range beside another is no duplicate");
    assert_eq!(anchors, vec![2, 1]);
}

#[test]
fn edits_that_cannot_be_made_are_refused() {
    let edit = |byte_start: usize, byte_end: usize| Edit { byte_start, byte_end, replacement: "x" };
    assert!(splice_many("abc", &[edit(0, 2), edit(1, 3)]).is_err(), "overlap");
    assert!(splice_many("abc", &[edit(0, 4)]).is_err(), "past the end");
    assert!(splice_many("abc", &[edit(2, 1)]).is_err(), "backwards");
    assert!(splice_many("中", &[edit(1, 3)]).is_err(), "inside a character");
    assert!(splice_many("abc", &[edit(0, 1), edit(1, 2)]).is_ok(), "touching is fine");
}

#[test]
fn a_span_that_is_no_hole_is_quoted() {
    let err = validate_span("fn f() { \"a\tb\" }", &hole("/c/lib.rs", 3)).unwrap_err();
    assert!(err.contains("no longer starts"), "{err}");
    assert!(err.contains("\\\""), "the text found is quoted: {err}");
}

// -- wrapping and painting ---------------------------------------------

#[test]
fn wrapping_fills_each_line_with_whole_words() {
    let text = "the quick brown fox  jumps over the lazy dog";
    assert_eq!(wrap(text, 10), vec!["the quick", "brown fox", "jumps over", "the lazy", "dog"]);
    for width in 5..30 {
        let lines = wrap(text, width);
        assert_eq!(
            lines.join(" "),
            text.split_whitespace().collect::<Vec<&str>>().join(" "),
            "{width}: words stay whole and in order"
        );
        for pair in lines.windows(2) {
            let next = pair[1].split(' ').next().unwrap_or_default();
            assert!(text_width(&pair[0]) + 1 + text_width(next) > width, "{width}: {pair:?}");
        }
    }
    assert_eq!(wrap("ab 中文字x", 5), vec!["ab", "中文", "字x"], "a long word breaks late");
}

#[test]
fn wrapping_keeps_every_word_and_fits_the_width() {
    let text = "one two 中文字 averyveryverylongword";
    for width in 2..20 {
        let lines = wrap(text, width);
        for line in &lines {
            assert!(text_width(line) <= width, "{width}: {line:?}");
        }
        let packed: String = lines.concat().split_whitespace().collect();
        let plain: String = text.split_whitespace().collect();
        assert_eq!(packed, plain, "{width}");
    }
    assert_eq!(char_width('\u{200b}'), 0);
    assert_eq!(char_width('🦀'), 2);
}

#[test]
fn paint_wraps_the_text_in_one_style() {
    assert_eq!(paint("open", Style::Cyan, false), "open");
    assert_eq!(paint("open", Style::Cyan, true), "\x1b[36mopen\x1b[0m");
}

#[test]
fn every_hole_counts_once_for_each_thing_it_is() {
    let mut both = hole("/c/src/lib.rs", 0);
    both.pinned = true;
    both.unresolvable = Some("lost".to_string());
    let open = hole("/c/src/lib.rs", 20);
    let opts = RenderOptions::resolve(false, ColorMode::Never, &Env::default(), 60);
    assert_eq!(opts.wrap_width, DEFAULT_WIDTH);
    let out = render_list(&vec![both.clone(), open], "/c", &opts);
    assert!(
        out.contains("summary: 1 open, 1 pinned, 1 unresolvable\n"),
        "{out}"
    );
    assert_eq!(Status::of(&both).plain_word(), "UNRESOLVABLE");
}

// -- commands ----------------------------------------------------------

#[test]
fn the_subcommand_name_is_dropped() {
    let argv = |words: &[&str]| {
        cargo_subcommand_argv(words.iter().map(|w| w.to_string()).collect::<Vec<String>>())
    };
    assert_eq!(argv(&["cargo-hole", "hole", "list"]), vec!["cargo-hole", "list"]);
    assert_eq!(argv(&["cargo-hole", "list", "hole"]), vec!["cargo-hole", "list", "hole"]);
    assert_eq!(argv(&["cargo-hole"]), vec!["cargo-hole"]);
}

fn run_args(before: &[&str], after: &[&str]) -> RunArgs {
    RunArgs {
        before_separator: before.iter().map(|w| w.to_string()).collect(),
        after_separator: after.iter().map(|w| w.to_string()).collect(),
    }
}

#[test]
fn arguments_are_split_at_the_separator() {
    let (cargo, program) = run_args(&["--release", "--", "a"], &["b"]).split();
    assert_eq!(cargo, vec!["--release"]);
    assert_eq!(program, vec!["a", "b"]);
    assert_eq!(
        run_args(&["--release"], &["--help"]).forwarded(),
        vec!["--release", "--", "--help"]
    );
    assert_eq!(run_args(&["--bin", "app"], &[]).forwarded(), vec!["--bin", "app"]);
}

#[test]
fn holes_are_chosen_by_exact_file_name() {
    let holes = vec![hole("/c/src/lib.rs", 0), hole("/c/src/mylib.rs", 0)];
    let chosen = select_holes(&holes, Some("lib.rs"));
    assert_eq!(chosen.len(), 1);
    assert_eq!(chosen[0].file, "/c/src/lib.rs");
    assert!(select_holes(&holes, Some("src/lib.rs")).is_empty());
    assert_eq!(select_holes(&holes, None).len(), 2);
}

#[test]
fn only_what_will_be_filled_is_probed() {
    let mut pinned = hole("/c/a.rs", 0);
    pinned.pinned = true;
    let mut lost = hole("/c/a.rs", 0);
    lost.unresolvable = Some("lost".to_string());
    let holes = vec![pinned, hole("/c/b.rs", 0), lost, hole("/c/b.rs", 40), hole("/c/a.rs", 7)];
    let probed = needs_probe(&holes);
    assert_eq!(probed.len(), 3);
    assert_eq!(
        probing_text(false, &probed).as_deref(),
        Some("probing 3 hole(s) in 2 file(s) for expected types")
    );
    assert_eq!(probing_text(true, &probed), None);
    assert_eq!(probing_text(false, &vec![hole("/c/a.rs", 0)]), None);
}

#[test]
fn the_holes_of_a_file_come_from_top_to_bottom() {
    let holes = vec![hole("/c/b.rs", 40), hole("/c/a.rs", 0), hole("/c/b.rs", 7)];
    let groups = group_by_file(&holes);
    assert_eq!(groups.len(), 2);
    let group = groups.iter().find(|g| g.file == "/c/b.rs").expect("a group");
    let starts: Vec<usize> = holes_of_file(&holes, &group.members)
        .iter()
        .map(|h| h.byte_start)
        .collect();
    assert_eq!(starts, vec![7, 40]);
}

#[test]
fn listed_holes_fail_the_command_only_when_asked() {
    assert_eq!(
        unelaborated_error(true, 2).as_deref(),
        Some("2 unelaborated hole(s) present and --fail-on-unelaborated was given")
    );
    assert_eq!(unelaborated_error(true, 0), None);
    assert_eq!(unelaborated_error(false, 2), None);
}

#[test]
fn fill_says_what_it_does() {
    assert_eq!(no_holes_text("/c"), "no holes found in .");
    assert_eq!(
        filling_text(2, "/c", "cli:codex (its own model)"),
        "filling 2 hole(s) in . using cli:codex (its own model)"
    );
    assert_eq!(
        skipping_text(&hole("/c/a.rs", 0), "no reply"),
        "warning: skipping /c/a.rs:3: no reply"
    );
}

#[test]
fn a_file_that_cannot_be_listed_is_named() {
    assert_eq!(
        skipped_file_text("/c", "/c/src/a.rs", "error: failed to parse /c/src/a.rs"),
        "warning: skipping src/a.rs: error: failed to parse /c/src/a.rs"
    );
}

#[test]
fn a_destructive_build_dir_is_refused() {
    assert_eq!(build_dir("/w/c", None).as_deref(), Ok("/w/c/.cargo-hole/build"));
    assert_eq!(build_dir("/w/c", Some("/tmp/b")).as_deref(), Ok("/tmp/b"));
    let err = build_dir("/w/c", Some("/w")).unwrap_err();
    assert!(err.contains("contains the crate root"), "{err}");
    assert!(build_dir("/w/c", Some("/w/c")).is_err());
}

#[test]
fn an_unfilled_crate_builds_but_says_the_holes_are_open() {
    let stats = SyncStats { copied: 4, reused: 0, artifacts: 0, linked: 0, holes_left: 2 };
    assert_eq!(
        open_holes_warning(&stats).as_deref(),
        Some(
            "warning: 2 hole(s) are still unelaborated in the build tree; run `cargo hole fill` \
             first"
        )
    );
    let partly = SyncStats { artifacts: 1, linked: 1, ..stats };
    assert_eq!(
        open_holes_warning(&partly).as_deref(),
        Some(
            "warning: 2 hole(s) are still unelaborated in the build tree; those holes are still \
             `todo!()`, so this build does not exercise them"
        )
    );
    assert_eq!(open_holes_warning(&SyncStats { holes_left: 0, ..stats }), None);
}

#[test]
fn build_and_run_say_what_they_do() {
    let stats = SyncStats { copied: 4, reused: 0, artifacts: 2, linked: 2, holes_left: 0 };
    let dir = "/tmp/demo/.cargo-hole/build";
    assert_eq!(
        assembled_text("/tmp/demo", dir, &stats),
        "assembled .cargo-hole/build at /tmp/demo/.cargo-hole/build (4 file(s) copied, 0 reused, \
         2 artifact(s) overlaid)"
    );
    assert_eq!(removed_text("/tmp/demo", dir), "removed .cargo-hole/build");
    assert_eq!(
        link_note("/tmp/demo", &stats, false).as_deref(),
        Some(
            "note: 2 artifact(s) are linked into .cargo-hole/patch, so edits to the paths rustc \
             reports are edits to the generated code"
        )
    );
    assert_eq!(link_note("/tmp/demo", &stats, true), None);
    assert_eq!(building_text("/tmp/demo", dir), "\nbuilding .cargo-hole/build with cargo");
    assert_eq!(running_text("/tmp/demo", dir), "\nrunning .cargo-hole/build with cargo");
    let args = vec!["--release".to_string(), "--bin".to_string()];
    assert_eq!(
        would_build_text("cargo", &args, dir),
        "\nwould run `cargo build --release --bin` in /tmp/demo/.cargo-hole/build"
    );
    assert_eq!(
        would_run_text("cargo", &args, "/tmp/demo"),
        "\nwould run `cargo run --release --bin` from /tmp/demo"
    );
}

#[test]
fn the_programs_exit_status_reaches_the_caller() {
    assert_eq!(exit_with(true, Some(0)), None);
    assert_eq!(exit_with(false, Some(3)), Some(3));
    assert_eq!(exit_with(false, None), Some(1), "killed by a signal");
}

#[test]
fn the_environment_and_the_flag_reach_the_options() {
    let env = CargoEnv {
        cargo: Some("/opt/cargo".to_string()),
        offline: true,
        target_dir: Some("/t".to_string()),
        cargo_home: None,
    };
    let options = prober_options(&env, 7);
    assert_eq!(options.timeout, 7);
    assert_eq!(options.cargo, "/opt/cargo");
    assert!(options.offline);
    assert_eq!(options.lock_wait, DEFAULT_LOCK_WAIT);
    assert_eq!(ProberOptions::from_env(&env).timeout, DEFAULT_TIMEOUT);
    assert_eq!(cargo_binary(&None), "cargo");
}

#[test]
fn a_child_is_killed_only_past_its_deadline() {
    assert!(matches!(wait_step("cargo", ChildState::Running, false), WaitStep::Sleep));
    assert!(matches!(wait_step("cargo", ChildState::Running, true), WaitStep::KillAndCollect));
    assert!(matches!(
        wait_step("cargo", ChildState::Exited(Some(0)), true),
        WaitStep::Collect { code: Some(0) }
    ));
    assert!(matches!(
        wait_step("cargo", ChildState::WaitFailed("gone".to_string()), false),
        WaitStep::KillAndFail { .. }
    ));
    assert!(cannot_run("cargo", "gone").contains("cannot run"));
}

#[test]
fn blame_is_collected_by_key() {
    let mut other = hole("/c/b.rs", 0);
    other.spec = "y".to_string();
    let failure = |hole: Option<Hole>, message: &str| Failure {
        hole,
        file: "/c/a.rs".to_string(),
        message: message.to_string(),
        code: None,
    };
    let verdict = Verdict::Rejected {
        failures: vec![
            failure(Some(hole("/c/a.rs", 0)), "one"),
            failure(None, "old"),
            failure(Some(other.clone()), "two"),
            failure(Some(hole("/c/a.rs", 0)), "three"),
        ],
    };
    let blame = Blame::of(&verdict);
    assert_eq!(blame.entries.len(), 2);
    assert_eq!(
        blame.errors(&hole("/c/a.rs", 9).hash_key()),
        Some(&vec!["one".to_string(), "three".to_string()])
    );
    assert_eq!(blame.errors("nothing"), None);
    assert_eq!(
        report_pre_existing(&verdict),
        vec![
            "warning: /c/a.rs: old is not a generated answer, so it was already broken; fix it \
             and re-run"
                .to_string()
        ]
    );
}

#[test]
fn generated_code_that_no_build_reads_is_refused() {
    let build = "/c/.cargo-hole/build";
    let refuse = |files: &[&str]| {
        let files: Vec<String> = files.iter().map(|f| f.to_string()).collect();
        refuse_stranded("/c", build, &files)
    };
    assert_eq!(
        refuse(&["/c/.cargo-hole/ledger.jsonl", "/c/.cargo-hole/src/lib.rs"]),
        Err(
            ".cargo-hole/src/lib.rs is generated code that no build reads; move it below \
             .cargo-hole/patch or delete it"
                .to_string()
        )
    );
    assert_eq!(
        refuse(&[
            "/c/.cargo-hole/ledger.jsonl",
            "/c/.cargo-hole/patch/src/lib.rs",
            "/c/.cargo-hole/build/src/lib.rs",
        ]),
        Ok(())
    );
    assert!(refuse_stranded("/c", "/c/.cargo-hole/mine", &vec!["/c/.cargo-hole/mine/a.rs".to_string()]).is_ok());
    assert_eq!(refuse(&[]), Ok(()));
}
