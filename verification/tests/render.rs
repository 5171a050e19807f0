//! The layouts of `list`, colour, width and wrapping.
use cargo_hole::hole::{Hole, HolePosition};
use cargo_hole::render::{
    color_enabled, render_list, render_width, text_width, wrap, ColorMode, Env, RenderOptions,
    DEFAULT_WIDTH, MAX_WIDTH, MIN_WIDTH,
};


/// A hole with everything at a sensible default.
fn hole(spec: &str) -> Hole {
    Hole {
        file: "/tmp/crate/src/lib.rs".to_string(),
        byte_start: 0,
        byte_end: 20,
        spec: spec.to_string(),
        fn_sig: "pub fn double(n: i64) -> i64".to_string(),
        fn_name: "double".to_string(),
        impl_ctx: None,
        line: 12,
        column: 5,
        macro_name: "todo".to_string(),
        position: HolePosition::Expression,
        pinned: false,
        unresolvable: None,
    }
}

fn opts(pretty: bool) -> RenderOptions {
    RenderOptions {
        pretty,
        color: false,
        wrap_width: 100,
        spec_width: 60,
    }
}

fn render(holes: &[Hole], pretty: bool) -> String {
    render_list(&holes.to_vec(), "/tmp/crate", &opts(pretty))
}

#[test]
fn no_holes_is_reported_in_the_same_words_in_both_layouts() {
    let expected = "no holes found in .\n";
    assert_eq!(render(&[], false), expected);
    assert_eq!(render(&[], true), expected);
}

// The plain layout is what scripts parse. It is allowed to gain colour, but
// not to change shape.
#[test]
fn the_plain_layout_keeps_its_exact_shape() {
    let out = render(&[hole("double the input")], false);
    assert_eq!(
        out,
        "1 hole(s) in /tmp/crate\n\
         \n\
         [ 1] src/lib.rs:12  open  (todo, expression)\n\
         \x20    fn:   pub fn double(n: i64) -> i64\n\
         \x20    spec: double the input\n\
         \n\
         summary: 1 open, 0 pinned, 0 unresolvable\n"
    );
}

#[test]
fn the_plain_layout_still_mentions_an_unresolvable_reason() {
    let mut h = hole("double the input");
    h.unresolvable = Some("no trustworthy byte range".to_string());
    let out = render(&[h], false);
    assert!(out.contains("UNRESOLVABLE"));
    assert!(out.contains("     why:  no trustworthy byte range\n"));
}

#[test]
fn pretty_groups_holes_under_their_file() {
    let mut a = hole("first spec");
    a.line = 12;
    let mut b = hole("second spec");
    b.line = 40;
    let mut c = hole("third spec");
    c.line = 7;
    c.file = "/tmp/crate/src/util.rs".to_string();

    let out = render(&[a, b, c], true);
    let lib = out.find("src/lib.rs").expect("the first file is named");
    let util = out.find("src/util.rs").expect("the second file is named");
    assert!(lib < util, "files appear in the order given");
    assert_eq!(
        out.matches("src/lib.rs").count(),
        1,
        "the path is stated once per file, not once per hole"
    );
    assert_eq!(out.matches("src/util.rs").count(), 1);
}

#[test]
fn pretty_does_not_repeat_a_path_for_each_hole() {
    let mut holes: Vec<Hole> = (1..=5)
        .map(|i| {
            let mut h = hole("a spec");
            h.line = i * 3;
            h
        })
        .collect();
    holes.sort_by_key(|h| h.line);
    let out = render(&holes, true);
    assert_eq!(out.matches("src/lib.rs").count(), 1);
}

#[test]
fn pretty_names_a_pinned_hole_and_an_unresolvable_one_differently() {
    let mut pinned = hole("hand written");
    pinned.pinned = true;
    let mut broken = hole("cannot locate");
    broken.unresolvable = Some("no trustworthy byte range".to_string());

    let out = render(&[pinned, broken], true);
    assert!(out.contains("pinned"));
    assert!(out.contains("unresolvable"));
    assert!(out.contains("no trustworthy byte range"));
    assert!(out.contains("1 pinned hole(s)"), "the caveat is repeated");
}

// The two flags are set by independent checks, so a hole can carry both. The
// plain layout's `if/else if` shows only one of them; the block layout must
// not quietly drop the other.
#[test]
fn pretty_reports_a_hole_that_is_both_pinned_and_unresolvable() {
    let mut both = hole("hand written but unlocatable");
    both.pinned = true;
    both.unresolvable = Some("no trustworthy byte range".to_string());

    let out = render(&[both], true);
    assert!(
        out.contains("pinned+unresolved"),
        "both facts belong in the status column, got:\n{out}"
    );
    assert!(out.contains("no trustworthy byte range"));
}

#[test]
fn pretty_wraps_a_long_spec_instead_of_truncating_it() {
    let long = "scale to fit within 1024px on the longest side, keep the aspect ratio, \
                never upscale, and round to whole pixels";
    let out = render(&[hole(long)], true);
    assert!(
        out.contains("round to whole pixels"),
        "the default layout truncates, but the block layout is for reading"
    );
    assert!(!out.contains('…'), "nothing should be elided");
}

#[test]
fn pretty_indents_wrapped_spec_lines_under_the_first() {
    // Narrow enough that this spec cannot fit on one line, so there is a
    // continuation to check.
    let narrow = RenderOptions {
        pretty: true,
        color: false,
        wrap_width: 60,
        spec_width: 60,
    };
    let long = "scale to fit within 1024px on the longest side, keep the aspect ratio, \
                never upscale, and round to whole pixels";
    let out = render_list(&vec![hole(long)], "/tmp/crate", &narrow);

    let spec_line = out
        .lines()
        .find(|l| l.contains("spec  scale to fit"))
        .unwrap_or_else(|| panic!("no spec line in:\n{out}"));
    let text_column = spec_line.find("scale").expect("the spec starts somewhere");

    // Every following line that carries more spec text must begin in that
    // same column, which is what makes a wrapped block readable.
    let continuations: Vec<&str> = out
        .lines()
        .skip_while(|l| !std::ptr::eq(*l, spec_line))
        .skip(1)
        .filter(|l| !l.trim().is_empty())
        .collect();
    assert!(
        !continuations.is_empty(),
        "the spec should have wrapped at this width:\n{out}"
    );
    for line in continuations {
        let start = line.len() - line.trim_start().len();
        assert_eq!(
            start, text_column,
            "continuation {line:?} does not align with the spec text:\n{out}"
        );
    }
}

#[test]
fn pretty_respects_the_wrap_width() {
    let long = "one two three four five six seven eight nine ten eleven twelve thirteen";
    let narrow = RenderOptions {
        pretty: true,
        color: false,
        wrap_width: 40,
        spec_width: 60,
    };
    let out = render_list(&vec![hole(long)], "/tmp/crate", &narrow);
    for line in out.lines() {
        assert!(
            text_width(line) <= 40,
            "line is {} cells wide: {line:?}",
            text_width(line)
        );
    }
}

#[test]
fn pretty_keeps_a_word_too_long_for_the_line_from_overflowing_it() {
    let narrow = RenderOptions {
        pretty: true,
        color: false,
        wrap_width: 40,
        spec_width: 60,
    };
    // A path with no spaces has no word boundary to wrap at.
    let long = "a/very/long/path/that/cannot/be/broken/on/whitespace/at/all";
    let out = render_list(&vec![hole(long)], "/tmp/crate", &narrow);
    for line in out.lines() {
        assert!(
            text_width(line) <= 40,
            "line overflows: {line:?} ({} cells)",
            text_width(line)
        );
    }
}

#[test]
fn pretty_aligns_a_multi_byte_spec_by_display_width() {
    // CJK characters occupy two cells, so a column width counted in `char`s
    // would leave every line below them misaligned.
    let mut wide = hole("把图片缩放到最长边不超过 1024 像素，保持宽高比");
    wide.fn_sig = "pub fn resize(img: &Image) -> Image".to_string();
    let out = render(&[wide], true);
    for line in out.lines() {
        assert!(
            text_width(line) <= 100,
            "line is {} cells wide: {line:?}",
            text_width(line)
        );
    }
}

#[test]
fn a_cjk_character_counts_as_two_cells() {
    assert_eq!(text_width("a"), 1);
    assert_eq!(text_width("中"), 2);
    assert_eq!(text_width("中a"), 3);
    // Zero-width formatting characters must not consume a column.
    assert_eq!(text_width("a\u{0301}"), 1);
}

#[test]
fn pretty_shows_the_impl_header_for_a_method() {
    let mut method = hole("bump the counter");
    method.impl_ctx = Some("impl Counter".to_string());
    let out = render(&[method], true);
    assert!(
        out.contains("impl Counter"),
        "the receiver type matters:\n{out}"
    );
}

#[test]
fn pretty_notes_a_hole_hidden_in_a_macro_body() {
    let mut hidden = hole("double each element");
    hidden.position = HolePosition::MacroBody;
    let out = render(&[hidden], true);
    assert!(
        out.contains("inside a `todo!` body"),
        "a macro-body hole explains odd probe results, so it is worth saying:\n{out}"
    );
}

#[test]
fn pretty_stays_quiet_about_the_ordinary_position() {
    let out = render(&[hole("double the input")], true);
    assert!(
        !out.contains("note"),
        "the common case should not spend a line on itself:\n{out}"
    );
}

#[test]
fn pretty_agrees_with_the_count_for_a_single_hole() {
    let out = render(&[hole("double the input")], true);
    assert!(out.contains("1 hole:"), "not `1 hole(s)`, got:\n{out}");
}

#[test]
fn pretty_leads_with_the_crate_name() {
    let out = render(&[hole("double the input")], true);
    let first = out.lines().next().expect("a header line");
    assert!(first.starts_with("crate — "), "got: {first:?}");
}

#[test]
fn color_is_off_when_never_and_on_when_always() {
    let tty = Env {
        is_tty: true,
        ..Env::default()
    };
    assert!(!color_enabled(ColorMode::Never, &tty));
    assert!(color_enabled(ColorMode::Always, &tty));

    // `always` wins over a pipe, which is the point of asking for it.
    let piped = Env::default();
    assert!(color_enabled(ColorMode::Always, &piped));
    assert!(!color_enabled(ColorMode::Auto, &piped));
}

#[test]
fn auto_color_needs_a_terminal_and_no_opt_out() {
    let plain_tty = Env {
        is_tty: true,
        ..Env::default()
    };
    assert!(color_enabled(ColorMode::Auto, &plain_tty));

    let opted_out = Env {
        is_tty: true,
        no_color: Some("1".to_string()),
        ..Env::default()
    };
    assert!(
        !color_enabled(ColorMode::Auto, &opted_out),
        "NO_COLOR is a request, and Auto has not been told otherwise"
    );

    let dumb = Env {
        is_tty: true,
        term: Some("dumb".to_string()),
        ..Env::default()
    };
    assert!(!color_enabled(ColorMode::Auto, &dumb));
}

// An explicit flag is a stronger signal than an environment default.
#[test]
fn an_explicit_always_overrides_no_color() {
    let opted_out = Env {
        is_tty: true,
        no_color: Some("1".to_string()),
        ..Env::default()
    };
    assert!(color_enabled(ColorMode::Always, &opted_out));
}

#[test]
fn color_adds_escapes_without_changing_the_text() {
    let colored = render_list(
        &vec![hole("double the input")],
        "/tmp/crate",
        &RenderOptions {
            pretty: true,
            color: true,
            wrap_width: 100,
            spec_width: 60,
        },
    );
    assert!(colored.contains("\x1b["), "colour should escape");
    assert!(colored.contains("double the input"));
    assert!(colored.contains("open"));
}

/// `text` without escape sequences and without spaces at the ends of lines.
fn stripped(text: &str) -> String {
    let mut out = String::new();
    let mut chars = text.chars();
    while let Some(c) = chars.next() {
        if c == '\x1b' {
            for d in chars.by_ref() {
                if d.is_ascii_alphabetic() {
                    break;
                }
            }
        } else {
            out.push(c);
        }
    }
    out.split('\n')
        .map(|line| line.trim_end_matches(' '))
        .collect::<Vec<&str>>()
        .join("\n")
}

#[test]
fn colour_is_never_load_bearing() {
    let mut pinned = hole("keep the aspect ratio and never upscale, whatever the input is");
    pinned.pinned = true;
    pinned.impl_ctx = Some("Image".to_string());
    let mut lost = hole("x");
    lost.file = "/tmp/crate/src/other.rs".to_string();
    lost.unresolvable = Some("no trustworthy byte range".to_string());
    let holes = vec![hole("double the input"), pinned, lost];
    for pretty in [false, true] {
        for wrap_width in [40, 100] {
            let with = |color: bool| {
                render_list(
                    &holes,
                    "/tmp/crate",
                    &RenderOptions { pretty, color, wrap_width, spec_width: 60 },
                )
            };
            let (a, b) = (with(true), with(false));
            assert_eq!(pretty, a != b);
            assert_eq!(stripped(&a), stripped(&b));
            assert!(a.ends_with('\n') && b.ends_with('\n'));
        }
    }
}

#[test]
fn the_plain_layout_is_never_colored() {
    // It is the format scripts read; the function cannot even see the
    // option, so this is a guard against someone wiring it up later.
    let out = render(&[hole("double the input")], false);
    assert!(!out.contains('\x1b'));
}

#[test]
fn width_comes_from_columns_when_it_is_sane() {
    let env = |c: &str| Env {
        columns: Some(c.to_string()),
        ..Env::default()
    };
    assert_eq!(render_width(&env("120")), 120);
    assert_eq!(render_width(&env(" 120 ")), 120, "trimmed");
    assert_eq!(render_width(&env("not a number")), DEFAULT_WIDTH);
    assert_eq!(
        render_width(&env("0")),
        DEFAULT_WIDTH,
        "zero is not a width"
    );
    // Clamped, so a stale COLUMNS cannot produce unreadable output.
    assert_eq!(render_width(&env("5")), MIN_WIDTH);
    assert_eq!(render_width(&env("10000")), MAX_WIDTH);
    assert_eq!(render_width(&Env::default()), DEFAULT_WIDTH);
}

#[test]
fn wrap_returns_one_empty_line_for_empty_text() {
    // So the caller emits a label rather than nothing at all.
    assert_eq!(wrap("", 20), vec![String::new()]);
    assert_eq!(wrap("   ", 20), vec![String::new()]);
}

#[test]
fn wrap_keeps_short_text_on_one_line() {
    assert_eq!(wrap("hello world", 40), vec!["hello world".to_string()]);
}

#[test]
fn wrap_breaks_at_whitespace_and_drops_the_space() {
    let lines = wrap("one two three four", 8);
    assert_eq!(
        lines,
        vec![
            "one two".to_string(),
            "three".to_string(),
            "four".to_string()
        ]
    );
}

#[test]
fn a_hole_in_item_position_does_not_print_a_blank_signature_line() {
    let mut item = hole("add a helper");
    item.fn_sig = String::new();
    item.position = HolePosition::Item;
    let out = render(&[item], true);
    assert!(out.contains("add a helper"));
    assert!(
        !out.lines().any(|l| !l.is_empty() && l.trim().is_empty()),
        "no line should be only padding:\n{out}"
    );
}
