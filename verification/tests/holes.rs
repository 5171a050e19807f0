//! Probing and gating holes that are read out of real source text, over a disk
//! and a compiler that live in memory.
use std::collections::BTreeMap;

use cargo_hole::blame::{
    assign_diagnostics, attributable_diagnostics, decide, interpret, Isolation,
};
use cargo_hole::cargo_check::{cannot_run, CargoEnv, Output, ProberOptions};
use cargo_hole::diagnostics::parse_diagnostics;
use cargo_hole::fill_run::FillRun;
use cargo_hole::fill_steps::{files_to_fill, FillAction, FillEvent, FillTask, Filling};
use cargo_hole::finder::{
    are_events_placed, parse_source, Event, MacroCall, Signature, Token,
};
use cargo_hole::gate::{
    describe, restore_all, Failure, GateAction, GateEvent, Patch, Verdict, Verifier, NEAR_MISS,
};
use cargo_hole::hole::{Hole, HolePosition};
use cargo_hole::leftovers::{RestoreAction, RestoreEvent, Restoring};
use cargo_hole::locking::{LockOpen, LockStep, LockTry, ProbeLock};
use cargo_hole::patching::{
    backup_path, patched_source, patched_source_many, split_batchable, validate_span, LOCK_NAME,
    UNIT,
};
use cargo_hole::probe::{
    BatchAction, BatchStage, DiskStep, ProbeAction, ProbeEvent, ProbeRun, Prober, RestoreGuard,
};
use cargo_hole::prober::{
    attributable_e0308, concrete_type, expected_type_from, mentions_unit_value, same_file,
    CheckRun, Diagnostic, PathTable, ProbeOutcome, Span, ATTRIBUTION_WINDOW, LOCAL_WINDOW,
};
use cargo_hole::storage::Storage;
use cargo_hole::walk::{restore_leftovers, DirEntry, EntryKind, FileWalk, Wanted};

use proc_macro2::{Delimiter, TokenStream, TokenTree};
use quote::ToTokens;
use syn::spanned::Spanned;
use syn::visit::Visit;

/// The events of one file, in the order they are met.
#[derive(Default)]
struct EventVisitor {
    events: Vec<Event>,
}

/// What the visitor meets in a parsed file.
fn events_of(file: &syn::File) -> Vec<Event> {
    let mut visitor = EventVisitor::default();
    visitor.visit_file(file);
    visitor.events
}

fn segments(attrs: &[syn::Attribute]) -> Vec<Vec<String>> {
    attrs
        .iter()
        .map(|a| a.path().segments.iter().map(|s| s.ident.to_string()).collect())
        .collect()
}

fn text_of<T: ToTokens>(node: &T) -> String {
    node.to_token_stream().to_string()
}

fn tokens_of(stream: TokenStream) -> Vec<Token> {
    stream
        .into_iter()
        .map(|tree| match tree {
            TokenTree::Ident(ident) => Token::Ident {
                name: ident.to_string(),
                start: ident.span().byte_range().start,
            },
            TokenTree::Punct(punct) => Token::Punct(punct.as_char()),
            TokenTree::Literal(literal) => Token::Literal(literal.to_string()),
            TokenTree::Group(group) => Token::Group {
                paren: group.delimiter() == Delimiter::Parenthesis,
                end: group.span_close().byte_range().end,
                stream: tokens_of(group.stream()),
            },
        })
        .collect()
}

fn signature_of(sig: &syn::Signature) -> Signature {
    let span = sig.span().byte_range();
    Signature {
        span_start: span.start,
        span_end: span.end,
        constness: sig.constness.is_some(),
        asyncness: sig.asyncness.is_some(),
        unsafety: sig.unsafety.is_some(),
        name: sig.ident.to_string(),
        params: sig.generics.params.iter().map(text_of).collect(),
        inputs: sig.inputs.iter().map(text_of).collect(),
        output: match &sig.output {
            syn::ReturnType::Default => None,
            syn::ReturnType::Type(_, ty) => Some(text_of(ty)),
        },
        where_clause: sig.generics.where_clause.as_ref().map(text_of),
    }
}

impl EventVisitor {
    fn enter_fn(&mut self, sig: &syn::Signature, attrs: &[syn::Attribute]) {
        self.events.push(Event::EnterFn {
            sig: signature_of(sig),
            attrs: segments(attrs),
        });
    }
}

impl<'ast> Visit<'ast> for EventVisitor {
    fn visit_item_fn(&mut self, node: &'ast syn::ItemFn) {
        self.enter_fn(&node.sig, &node.attrs);
        syn::visit::visit_item_fn(self, node);
        self.events.push(Event::LeaveFn);
    }

    fn visit_impl_item_fn(&mut self, node: &'ast syn::ImplItemFn) {
        self.enter_fn(&node.sig, &node.attrs);
        syn::visit::visit_impl_item_fn(self, node);
        self.events.push(Event::LeaveFn);
    }

    fn visit_trait_item_fn(&mut self, node: &'ast syn::TraitItemFn) {
        self.enter_fn(&node.sig, &node.attrs);
        syn::visit::visit_trait_item_fn(self, node);
        self.events.push(Event::LeaveFn);
    }

    fn visit_item_impl(&mut self, node: &'ast syn::ItemImpl) {
        self.events.push(Event::EnterImpl {
            self_ty: text_of(&node.self_ty),
            attrs: segments(&node.attrs),
        });
        syn::visit::visit_item_impl(self, node);
        self.events.push(Event::LeaveImpl);
    }

    fn visit_item_trait(&mut self, node: &'ast syn::ItemTrait) {
        self.events.push(Event::EnterTrait {
            name: node.ident.to_string(),
            attrs: segments(&node.attrs),
        });
        syn::visit::visit_item_trait(self, node);
        self.events.push(Event::LeaveImpl);
    }

    fn visit_macro(&mut self, node: &'ast syn::Macro) {
        let span = node.span().byte_range();
        self.events.push(Event::Macro(MacroCall {
            name: node
                .path
                .segments
                .last()
                .map(|s| s.ident.to_string())
                .unwrap_or_default(),
            paren: matches!(node.delimiter, syn::MacroDelimiter::Paren(_)),
            tokens: tokens_of(node.tokens.clone()),
            span_start: span.start,
            span_end: span.end,
            path_start: node.path.span().byte_range().start,
        }));
    }

    fn visit_stmt_macro(&mut self, node: &'ast syn::StmtMacro) {
        self.events.push(Event::EnterPosition(HolePosition::Statement));
        self.events.push(Event::EnterAttrs(segments(&node.attrs)));
        syn::visit::visit_stmt_macro(self, node);
        self.events.push(Event::LeaveAttrs);
        self.events.push(Event::LeavePosition);
    }

    fn visit_expr_macro(&mut self, node: &'ast syn::ExprMacro) {
        self.events.push(Event::EnterPosition(HolePosition::Expression));
        self.events.push(Event::EnterAttrs(segments(&node.attrs)));
        syn::visit::visit_expr_macro(self, node);
        self.events.push(Event::LeaveAttrs);
        self.events.push(Event::LeavePosition);
    }

    fn visit_item_macro(&mut self, node: &'ast syn::ItemMacro) {
        self.events.push(Event::EnterPosition(HolePosition::Item));
        self.events.push(Event::EnterAttrs(segments(&node.attrs)));
        syn::visit::visit_item_macro(self, node);
        self.events.push(Event::LeaveAttrs);
        self.events.push(Event::LeavePosition);
    }

    fn visit_impl_item_macro(&mut self, node: &'ast syn::ImplItemMacro) {
        self.events.push(Event::EnterAttrs(segments(&node.attrs)));
        syn::visit::visit_impl_item_macro(self, node);
        self.events.push(Event::LeaveAttrs);
    }

    fn visit_trait_item_macro(&mut self, node: &'ast syn::TraitItemMacro) {
        self.events.push(Event::EnterAttrs(segments(&node.attrs)));
        syn::visit::visit_trait_item_macro(self, node);
        self.events.push(Event::LeaveAttrs);
    }
}

/// The holes in a source text.
fn holes_in(path: &str, src: &str) -> Vec<Hole> {
    let file = parse_source(path, src).expect("parses");
    let events = events_of(&file);
    assert!(are_events_placed(src, &events));
    Hole::list_holes_one_file(path, src, &events)
}

/// Nothing was looked up.
fn no_table() -> PathTable {
    PathTable { entries: vec![] }
}

/// A source file with holes in it.
struct Src {
    dir: String,
    path: String,
    src: String,
}

impl Src {
    fn new(tag: &str, src: &str) -> Src {
        let dir = format!("/tmp/cargo-hole-src-{tag}");
        let path = format!("{dir}/src/lib.rs");
        Src {
            dir,
            path,
            src: src.to_string(),
        }
    }

    fn holes(&self) -> Vec<Hole> {
        holes_in(&self.path, &self.src)
    }

    fn hole(&self, spec: &str) -> Hole {
        self.holes()
            .into_iter()
            .find(|h| h.spec == spec)
            .unwrap_or_else(|| panic!("no hole with spec {spec:?}"))
    }

    fn root(&self) -> &str {
        &self.dir
    }

    /// An `E0308` at `start..end`, in this fixture's file.
    fn e0308(&self, start: usize, end: usize, label: &str) -> Diagnostic {
        Diagnostic {
            code: Some("E0308".into()),
            level: "error".into(),
            message: "mismatched types".into(),
            spans: vec![Span {
                file_name: self.path.clone(),
                byte_start: start,
                byte_end: end,
                is_primary: true,
                label: Some(label.into()),
            }],
        }
    }
}

fn run_with(diags: Vec<Diagnostic>) -> CheckRun {
    CheckRun {
        diagnostics: diags,
        stderr: String::new(),
    }
}

/// No environment variable is set.
fn no_env() -> CargoEnv {
    CargoEnv {
        cargo: None,
        offline: false,
        target_dir: None,
        cargo_home: None,
    }
}

/// A crate whose files live in memory, with a compiler that knows just enough
/// to type the functions in these tests.
struct TempCrate {
    dir: String,
    files: BTreeMap<String, Vec<u8>>,
    checks: usize,
    /// What cargo fails with, if it cannot run.
    broken: Option<String>,
}

impl TempCrate {
    fn new(tag: &str, lib_rs: &str) -> TempCrate {
        let mut tc = TempCrate {
            dir: format!("/tmp/cargo-hole-crate-{tag}"),
            files: BTreeMap::new(),
            checks: 0,
            broken: None,
        };
        tc.write("src/lib.rs", lib_rs);
        tc
    }

    fn write(&mut self, name: &str, text: &str) {
        let path = self.path(name);
        self.files.insert(path, text.as_bytes().to_vec());
    }

    fn path(&self, name: &str) -> String {
        format!("{}/{name}", self.dir)
    }

    fn lib(&self) -> String {
        self.path("src/lib.rs")
    }

    fn text(&self, path: &str) -> String {
        String::from_utf8(self.files[path].clone()).expect("text")
    }

    fn holes(&self) -> Vec<Hole> {
        holes_in(&self.lib(), &self.text(&self.lib()))
    }

    /// The holes of every file, in crate order.
    fn all_holes(&self) -> Vec<Hole> {
        let per_file: Vec<Vec<Hole>> = self
            .files
            .keys()
            .map(|path| holes_in(path, &self.text(path)))
            .collect();
        Hole::list_holes(&per_file)
    }

    fn hole(&self) -> Hole {
        let mut holes = self.holes();
        assert_eq!(holes.len(), 1, "these fixtures carry exactly one hole");
        holes.remove(0)
    }

    fn has_backups(&self) -> bool {
        self.files.keys().any(|p| p.ends_with(".cargo-hole.bak"))
    }

    fn apply(&mut self, steps: Vec<DiskStep>) {
        apply_steps(&mut self.files, steps);
    }

    fn check(&mut self) -> Result<CheckRun, String> {
        self.checks += 1;
        if let Some(why) = &self.broken {
            return Err(why.clone());
        }
        let mut diagnostics = Vec::new();
        for path in self.files.keys().filter(|p| p.ends_with(".rs")) {
            let shown = path.strip_prefix(&format!("{}/", self.dir)).expect("below the root");
            compile(shown, &self.text(path), &mut diagnostics);
        }
        Ok(run_with(diagnostics))
    }

    fn prober(&self) -> Prober {
        let options =
            ProberOptions::for_tests(&no_env(), self.path("target"), "/tmp/cargo-home".into());
        Prober::new(&self.dir, options)
    }

    /// Probe one hole.
    fn probe(&mut self, hole: &Hole) -> ProbeOutcome {
        let prober = self.prober();
        let mut guard: Option<RestoreGuard> = None;
        let (mut stage, mut action) = prober.probe(hole);
        loop {
            let event = match action {
                ProbeAction::Lock => ProbeEvent::Locked,
                ProbeAction::Read => ProbeEvent::ReadText(self.text(&hole.file)),
                ProbeAction::TestWritable => ProbeEvent::Writable,
                ProbeAction::Patch(text) => {
                    let fresh = RestoreGuard::new(&hole.file, self.files[&hole.file].clone());
                    self.apply(fresh.patch_steps(&text));
                    guard = Some(fresh);
                    ProbeEvent::Patched
                }
                ProbeAction::Check => match self.check() {
                    Ok(run) => ProbeEvent::Checked(run),
                    Err(why) => ProbeEvent::CheckFailed(why),
                },
                ProbeAction::Restore => {
                    let steps = guard.as_mut().expect("a patched file").restore();
                    self.apply(steps);
                    ProbeEvent::Restored
                }
                ProbeAction::Report(outcome) => return outcome,
            };
            (stage, action) = prober.probe_step(&no_table(), hole, stage, event);
        }
    }

    /// Probe holes together, then one by one where that settled nothing.
    fn probe_all(&mut self, holes: &Vec<Hole>) -> Vec<ProbeOutcome> {
        let prober = self.prober();
        let mut run = ProbeRun::probe_all(holes);
        let batches = std::mem::take(&mut run.batches);
        for group in &batches {
            let mut guard: Option<RestoreGuard> = None;
            let mut stage = BatchStage::Reading;
            let mut event = ProbeEvent::ReadText(self.text(&group.file));
            let settled = loop {
                let (next, action) = prober.batch_step(&no_table(), holes, group, stage, event);
                stage = next;
                event = match action {
                    BatchAction::Read => ProbeEvent::ReadText(self.text(&group.file)),
                    BatchAction::TestWritable => ProbeEvent::Writable,
                    BatchAction::Patch(text) => {
                        let fresh =
                            RestoreGuard::new(&group.file, self.files[&group.file].clone());
                        self.apply(fresh.patch_steps(&text));
                        guard = Some(fresh);
                        ProbeEvent::Patched
                    }
                    BatchAction::Check => match self.check() {
                        Ok(run) => ProbeEvent::Checked(run),
                        Err(why) => ProbeEvent::CheckFailed(why),
                    },
                    BatchAction::Restore => {
                        let steps = guard.as_mut().expect("a patched file").restore();
                        self.apply(steps);
                        ProbeEvent::Restored
                    }
                    BatchAction::Settle(settled) => break settled,
                };
            };
            run.record(group, settled);
        }
        while let Some(i) = run.next_open() {
            let outcome = self.probe(&holes[i]);
            run.settle(i, outcome);
        }
        run.finish()
    }

    /// The patch a `fill` would hand the compile gate for these answers to `lib.rs`.
    fn patch(&self, answers: &[Option<&str>]) -> Patch {
        let holes = self.holes();
        assert_eq!(holes.len(), answers.len(), "one answer per hole");
        let pairs: Vec<(&Hole, Option<&str>)> =
            holes.iter().zip(answers).map(|(h, a)| (h, *a)).collect();
        Patch::splice(self.lib(), &self.text(&self.lib()), &pairs).expect("splice the answers")
    }

    /// Put patches through the compile gate.
    fn verify(&mut self, patches: Vec<Patch>) -> Verdict {
        let verifier = Verifier::new(&self.dir);
        let mut guards: Vec<RestoreGuard> = Vec::new();
        let (mut stage, mut action) = verifier.verify(&patches);
        loop {
            let event = match action {
                GateAction::Lock => GateEvent::Locked,
                GateAction::Patch(i) => match self.files.get(&patches[i].file) {
                    Some(bytes) => {
                        let guard = RestoreGuard::new(&patches[i].file, bytes.clone());
                        self.apply(guard.patch_steps(&patches[i].checked));
                        guards.push(guard);
                        GateEvent::Patched
                    }
                    None => GateEvent::PatchFailed(format!("cannot read {}", patches[i].file)),
                },
                GateAction::Check => match self.check() {
                    Ok(run) => GateEvent::Checked(run),
                    Err(why) => GateEvent::CheckFailed(why),
                },
                GateAction::Restore(n) => {
                    let mut results = Vec::new();
                    for guard in guards.iter_mut().take(n) {
                        let steps = guard.restore();
                        apply_steps(&mut self.files, steps);
                        results.push(Ok(()));
                    }
                    restore_all(&results)
                }
                GateAction::Report(decision) => return decision,
            };
            (stage, action) = verifier.step(&no_table(), &patches, stage, event);
        }
    }
}

fn apply_steps(files: &mut BTreeMap<String, Vec<u8>>, steps: Vec<DiskStep>) {
    for step in steps {
        match step {
            DiskStep::Write { path, bytes } => {
                files.insert(path, bytes);
            }
            DiskStep::Remove { path } => {
                files.remove(&path);
            }
        }
    }
}

/// The errors in one file: the functions of these tests have bodies of a few
/// shapes, and each line is typed on its own.
fn compile(shown: &str, text: &str, out: &mut Vec<Diagnostic>) {
    let mut returns = String::new();
    let mut at = 0;
    for line in text.split_inclusive('\n') {
        let body = line.trim();
        let start = at + line.len() - line.trim_start().len();
        at += line.len();
        if let Some(rest) = body.strip_prefix("pub fn ") {
            returns = match rest.split_once(" -> ") {
                Some((_, ty)) => ty.trim_end_matches('{').trim().to_string(),
                None => "()".to_string(),
            };
            if body.contains("!!!") {
                out.push(error(shown, start, start + 2, "", "expected expression", ""));
            }
            continue;
        }
        if let Some(cond) = body.find("if () {") {
            let p = start + cond + 3;
            let label = "expected `bool`, found `()`";
            out.push(error(shown, p, p + 2, "E0308", "mismatched types", label));
        } else if body == "() + 1" {
            let message = "cannot add `{integer}` to `()`";
            out.push(error(shown, start, start + 2, "E0277", message, message));
        } else if body == "vec![()]" {
            let element = returns.trim_start_matches("Vec<").trim_end_matches('>');
            let label = format!("expected `{element}`, found `()`");
            let p = start + 5;
            out.push(error(shown, p, p + 2, "E0308", "mismatched types", &label));
        } else if body == "missing_ident" {
            let message = "cannot find value `missing_ident`";
            out.push(error(shown, start, start + body.len(), "E0425", message, message));
        } else if let Some(found) = mismatch(&returns, body) {
            let expected = if returns.len() == 1 {
                format!("type parameter `{returns}`")
            } else {
                format!("`{returns}`")
            };
            let label = format!("expected {expected}, found {found}");
            let end = start + body.len();
            out.push(error(shown, start, end, "E0308", "mismatched types", &label));
        }
    }
}

/// What a tail expression is instead of the type it should have.
fn mismatch(returns: &str, body: &str) -> Option<&'static str> {
    if body == "()" && returns != "()" {
        return Some("`()`");
    }
    if body.starts_with('"') && returns != "&str" {
        return Some("`&str`");
    }
    if body.chars().next().is_some_and(|c| c.is_ascii_digit()) && returns == "bool" {
        return Some("integer");
    }
    None
}

fn error(
    file: &str,
    start: usize,
    end: usize,
    code: &str,
    message: &str,
    label: &str,
) -> Diagnostic {
    Diagnostic {
        code: if code.is_empty() { None } else { Some(code.to_string()) },
        level: "error".to_string(),
        message: message.to_string(),
        spans: vec![Span {
            file_name: file.to_string(),
            byte_start: start,
            byte_end: end,
            is_primary: true,
            label: if label.is_empty() { None } else { Some(label.to_string()) },
        }],
    }
}

    // -- reading the expectation out of text -------------------------------

    #[test]
    fn expected_type_is_read_from_the_label() {
        assert_eq!(
            expected_type_from("expected `i64`, found `()`").as_deref(),
            Some("i64")
        );
        assert_eq!(
            expected_type_from("expected `Vec<String>`, found `()`").as_deref(),
            Some("Vec<String>")
        );
        assert_eq!(
            expected_type_from("expected `&str`, found `()`").as_deref(),
            Some("&str")
        );
    }

    #[test]
    fn expected_type_handles_the_generic_parameter_shape() {
        // The type is inside the backticks; the prose prefix is not part of it.
        assert_eq!(
            expected_type_from("expected type parameter `T`, found `()`").as_deref(),
            Some("T")
        );
    }

    #[test]
    fn expected_type_survives_no_found_clause() {
        assert_eq!(expected_type_from("expected `u32`").as_deref(), Some("u32"));
    }

    #[test]
    fn expected_type_is_none_without_an_expectation() {
        assert!(expected_type_from("cannot find value `x`").is_none());
        assert!(expected_type_from("mismatched types").is_none());
    }

    #[test]
    fn unit_value_is_detected() {
        assert!(mentions_unit_value("expected `i64`, found `()`"));
        assert!(mentions_unit_value("expected `X`, found ()"));
        assert!(!mentions_unit_value("expected `i64`, found `u32`"));
        assert!(!mentions_unit_value("mismatched types"));
        assert!(!mentions_unit_value(""));
    }

    // -- concreteness ------------------------------------------------------

    #[test]
    fn concrete_types_are_accepted() {
        for t in [
            "i64",
            "String",
            "Vec<String>",
            "Option<u32>",
            "&str",
            "(i32, bool)",
            "Result<u8, Error>",
            "Box<dyn std::fmt::Debug>",
            "*const u8",
            "f64",
        ] {
            assert_eq!(concrete_type(t).as_deref(), Ok(t), "{t} should be concrete");
        }
    }

    #[test]
    fn non_concrete_types_are_refused_with_a_reason() {
        for (t, needle) in [
            ("_", "unresolved"),
            ("{integer}", "inference variable"),
            ("{float}", "inference variable"),
            ("T", "generic type parameter"),
            ("impl Iterator<Item = u8>", "opaque"),
        ] {
            let err = concrete_type(t).unwrap_err();
            assert!(err.contains(needle), "{t}: {err}");
        }
        assert!(concrete_type("  ").is_err());
    }

    #[test]
    fn concrete_type_trims_noise() {
        assert_eq!(concrete_type("  `i64`  ").as_deref(), Ok("i64"));
    }

    // -- diagnostic parsing ------------------------------------------------

    const E0308_LINE: &str = r#"{"reason":"compiler-message","package_id":"x 0.1.0","message":{"rendered":"error[E0308]: mismatched types\n","code":{"code":"E0308","explanation":null},"level":"error","message":"mismatched types","spans":[{"file_name":"src/lib.rs","byte_start":100,"byte_end":102,"line_start":5,"line_end":5,"column_start":9,"column_end":11,"is_primary":true,"text":[{"text":"    ();","highlight_start":5,"highlight_end":7}],"label":"expected `i64`, found `()`","suggested_replacement":null}]}}"#;

    #[test]
    fn parses_a_compiler_message() {
        let diags = parse_diagnostics(E0308_LINE.as_bytes());
        assert_eq!(diags.len(), 1);
        assert_eq!(diags[0].code.as_deref(), Some("E0308"));
        assert_eq!(diags[0].level, "error");
        assert!(diags[0].is_error());
        assert_eq!(diags[0].spans.len(), 1);
        assert_eq!(diags[0].spans[0].file_name, "src/lib.rs");
        assert_eq!(diags[0].spans[0].byte_start, 100);
        assert!(diags[0].spans[0].is_primary);
        assert_eq!(
            diags[0].spans[0].label.as_deref(),
            Some("expected `i64`, found `()`")
        );
    }

    #[test]
    fn skips_non_diagnostic_reasons() {
        let input = r#"{"reason":"build-script-executed","package_id":"x"}
{"reason":"compiler-artifact","package_id":"x"}
{"reason":"build-finished","success":true}"#;
        assert!(parse_diagnostics(input.as_bytes()).is_empty());
    }

    #[test]
    fn skips_lines_that_are_not_json() {
        let input = "Compiling app v0.1.0\nwarning: unused\ndone\n";
        assert!(parse_diagnostics(input.as_bytes()).is_empty());
    }

    #[test]
    fn tolerates_missing_optional_fields() {
        // A diagnostic with no code and no spans must not fail parsing.
        let line = r#"{"reason":"compiler-message","message":{"level":"warning","message":"unused variable"}}"#;
        let diags = parse_diagnostics(line.as_bytes());
        assert_eq!(diags.len(), 1);
        assert!(diags[0].code.is_none());
        assert!(diags[0].spans.is_empty());
    }

    #[test]
    fn ignores_unknown_extra_keys() {
        let line = r#"{"reason":"compiler-message","future_key":{"a":1},"message":{"level":"error","message":"boom","code":{"code":"E0001","explanation":"why"},"spans":[],"also_new":true}}"#;
        let diags = parse_diagnostics(line.as_bytes());
        assert_eq!(diags.len(), 1);
        assert_eq!(diags[0].code.as_deref(), Some("E0001"));
    }

    #[test]
    fn a_field_that_is_there_twice_spoils_the_message() {
        let count = |line: &str| parse_diagnostics(line.as_bytes()).len();
        assert_eq!(count(r#"{"reason":"compiler-message","message":{"level":"error"}}"#), 1);
        assert_eq!(
            count(r#"{"reason":"x","reason":"compiler-message","message":{"level":"error"}}"#),
            0
        );
        assert_eq!(
            count(r#"{"reason":"compiler-message","message":{"level":"note","level":"error"}}"#),
            0
        );
        assert_eq!(
            count(r#"{"reason":"compiler-message","message":{"code":{"code":"a","code":"b"}}}"#),
            0
        );
        assert_eq!(
            count(
                r#"{"reason":"compiler-message","message":{"spans":[{"label":"a","label":null}]}}"#
            ),
            0
        );
        assert_eq!(
            count(r#"{"reason":"compiler-message","message":{"level":"e","\u006cevel":"f"}}"#),
            0,
            "however its name is spelled"
        );
        assert_eq!(
            count(r#"{"x":1,"reason":"compiler-message","x":1e999,"message":{"y":1,"y":2}}"#),
            1,
            "what nobody reads may be there twice, and be anything"
        );
    }

    #[test]
    fn a_record_may_be_given_by_place() {
        let line = r#"{"reason":"compiler-message","message":["boom","error",["E1"],[["a.rs",1,2,true,null]]]}"#;
        let diags = parse_diagnostics(line.as_bytes());
        assert_eq!(diags.len(), 1);
        assert_eq!(diags[0].message, "boom");
        assert_eq!(diags[0].level, "error");
        assert_eq!(diags[0].code.as_deref(), Some("E1"));
        assert_eq!(diags[0].spans[0].file_name, "a.rs");
        assert_eq!((diags[0].spans[0].byte_start, diags[0].spans[0].byte_end), (1, 2));
        assert!(diags[0].spans[0].is_primary);
        assert_eq!(diags[0].spans[0].label, None);
        let short = r#"{"reason":"compiler-message","message":["boom"]}"#;
        assert_eq!(parse_diagnostics(short.as_bytes())[0].level, "");
        let long = r#"{"reason":"compiler-message","message":["boom","error",null,[],1]}"#;
        assert!(parse_diagnostics(long.as_bytes()).is_empty());
    }

    #[test]
    fn a_field_of_another_type_spoils_the_message() {
        let count = |line: &str| parse_diagnostics(line.as_bytes()).len();
        assert_eq!(count(r#"{"reason":"compiler-message","message":null}"#), 0);
        assert_eq!(count(r#"{"reason":"compiler-message"}"#), 0);
        assert_eq!(count(r#"{"reason":1,"message":{}}"#), 0);
        assert_eq!(count(r#"{"reason":"compiler-message","message":{}}"#), 1);
        assert_eq!(count(r#" { "reason" : "compiler-message" , "message" : { } } "#), 1);
        assert_eq!(count(r#"{"reason":"compiler-message","message":{"level":null}}"#), 0);
        assert_eq!(count(r#"{"reason":"compiler-message","message":{"spans":null}}"#), 0);
        assert_eq!(count(r#"{"reason":"compiler-message","message":{"code":null}}"#), 1);
        assert_eq!(count(r#"{"reason":"compiler-message","message":{"spans":[{"byte_start":-1}]}}"#), 0);
        assert_eq!(count(r#"{"reason":"compiler-message","message":{"spans":[{"is_primary":1}]}}"#), 0);
        assert_eq!(count(r#"{"reason":"compiler-message","message":{}} x"#), 0);
        assert_eq!(count(r#"{"reason":"compiler-message","message":{}"#), 0);
    }

    #[test]
    fn parses_several_messages_from_one_stream() {
        let input = format!("{E0308_LINE}\n{E0308_LINE}\n");
        assert_eq!(parse_diagnostics(input.as_bytes()).len(), 2);
    }

    // -- attribution -------------------------------------------------------

    #[test]
    fn same_file_matches_relative_and_absolute() {
        let root = "/crate";
        let file = "/crate/src/lib.rs";
        assert!(same_file(&no_table(), root, "src/lib.rs", file));
        assert!(same_file(&no_table(), root, "/crate/src/lib.rs", file));
        assert!(!same_file(&no_table(), root, "src/other.rs", file));
        assert!(!same_file(&no_table(), root, "", file));
    }

    #[test]
    fn two_paths_that_lead_nowhere_are_not_one_file() {
        let (a, b) = ("/nope/a.rs", "/nope/b.rs");
        assert!(!same_file(&no_table(), "/crate", a, b));
        assert!(same_file(&no_table(), "/crate", a, a));
        let led = |path: &str, to: &str| (path.to_string(), Some(to.to_string()));
        let table = PathTable {
            entries: vec![led(a, "/real/x.rs"), led(b, "/real/x.rs")],
        };
        assert!(same_file(&table, "/crate", a, b), "two names for one file");
        let table = PathTable {
            entries: vec![led(a, "/real/x.rs"), (b.to_string(), None)],
        };
        assert!(!same_file(&table, "/crate", a, b));
    }

    #[test]
    fn attribution_accepts_a_diagnostic_on_the_hole() {
        let s = Src::new("onhole", "pub fn f() -> i64 {\n    todo!(\"spec: x\")\n}\n");
        let hole = s.hole("x");
        let d = s.e0308(
            hole.byte_start,
            hole.byte_start + 2,
            "expected `i64`, found `()`",
        );
        let got = attributable_e0308(&d, &hole, &no_table(), s.root()).expect("should attribute");
        assert_eq!(got.as_deref(), Some("i64"));
    }

    #[test]
    fn attribution_accepts_a_later_use_within_the_window() {
        // The `let b = todo!(); b` shape: rustc reports at the later use.
        let s = Src::new(
            "later",
            "pub fn f() -> u32 {\n    let b = todo!(\"spec: x\");\n    b\n}\n",
        );
        let hole = s.hole("x");
        let d = s.e0308(
            hole.byte_start + 30,
            hole.byte_start + 31,
            "expected `u32`, found `()`",
        );
        let got = attributable_e0308(&d, &hole, &no_table(), s.root()).expect("should attribute");
        assert_eq!(got.as_deref(), Some("u32"));
    }

    #[test]
    fn attribution_rejects_a_use_beyond_the_window() {
        let s = Src::new("far", "pub fn f() -> u32 {\n    todo!(\"spec: x\")\n}\n");
        let hole = s.hole("x");
        let d = s.e0308(
            hole.byte_start + ATTRIBUTION_WINDOW + 1,
            hole.byte_start + ATTRIBUTION_WINDOW + 2,
            "expected `u32`, found `()`",
        );
        assert!(attributable_e0308(&d, &hole, &no_table(), s.root()).is_err());
    }

    #[test]
    fn attribution_rejects_an_unrelated_type_error() {
        // Same file, nearby, but not about our `()`: must not be attributed.
        let s = Src::new(
            "unrelated",
            "pub fn f() -> u32 {\n    todo!(\"spec: x\")\n}\n",
        );
        let hole = s.hole("x");
        let d = s.e0308(
            hole.byte_start + 5,
            hole.byte_start + 6,
            "expected `u32`, found `bool`",
        );
        assert!(attributable_e0308(&d, &hole, &no_table(), s.root()).is_err());
    }

    #[test]
    fn attribution_rejects_a_different_error_code() {
        let s = Src::new("code", "pub fn f() -> u32 {\n    todo!(\"spec: x\")\n}\n");
        let hole = s.hole("x");
        let mut d = s.e0308(
            hole.byte_start,
            hole.byte_start + 2,
            "expected `u32`, found `()`",
        );
        d.code = Some("E0277".into());
        assert!(attributable_e0308(&d, &hole, &no_table(), s.root()).is_err());
    }

    #[test]
    fn attribution_rejects_a_diagnostic_in_another_file() {
        let s = Src::new(
            "otherfile",
            "pub fn f() -> u32 {\n    todo!(\"spec: x\")\n}\n",
        );
        let hole = s.hole("x");
        let mut d = s.e0308(
            hole.byte_start,
            hole.byte_start + 2,
            "expected `u32`, found `()`",
        );
        d.spans[0].file_name = "src/other.rs".into();
        assert!(attributable_e0308(&d, &hole, &no_table(), s.root()).is_err());
    }

    // -- interpret ---------------------------------------------------------

    #[test]
    fn interpret_reports_a_known_type() {
        let s = Src::new("known", "pub fn f() -> i64 {\n    todo!(\"spec: x\")\n}\n");
        let hole = s.hole("x");
        let run = run_with(vec![s.e0308(
            hole.byte_start,
            hole.byte_start + 2,
            "expected `i64`, found `()`",
        )]);
        assert!(matches!(
            interpret(&hole, &no_table(), s.root(), &run),
            ProbeOutcome::Known(t) if t == "i64"
        ));
    }

    #[test]
    fn interpret_prefers_a_known_answer_over_unrelated_errors() {
        let s = Src::new("prefer", "pub fn f() -> i64 {\n    todo!(\"spec: x\")\n}\n");
        let hole = s.hole("x");
        let mut other = s.e0308(5, 9, "cannot find value `z`");
        other.code = Some("E0425".into());
        let run = run_with(vec![
            other,
            s.e0308(
                hole.byte_start,
                hole.byte_start + 2,
                "expected `i64`, found `()`",
            ),
        ]);
        assert!(matches!(
            interpret(&hole, &no_table(), s.root(), &run),
            ProbeOutcome::Known(t) if t == "i64"
        ));
    }

    #[test]
    fn interpret_reports_no_expectation_for_a_statement_without_compiling() {
        let s = Src::new("stmt", "pub fn f() {\n    todo!(\"spec: x\");\n}\n");
        let hole = s.hole("x");
        assert_eq!(hole.position, HolePosition::Statement);
        // Deliberately pass a run that would otherwise read as a failure:
        // statement position is decided before the compiler is consulted.
        let run = run_with(vec![s.e0308(0, 2, "expected `i64`, found `()`")]);
        assert!(matches!(
            interpret(&hole, &no_table(), s.root(), &run),
            ProbeOutcome::NoExpectation
        ));
    }

    #[test]
    fn interpret_reports_no_expectation_when_the_crate_compiles_silently() {
        // `let _x = todo!();` left unused: nothing constrains it, and that is an
        // ordinary situation rather than a failure of this module.
        let s = Src::new(
            "silent",
            "pub fn f() {\n    let _x = todo!(\"spec: x\");\n}\n",
        );
        let hole = s.hole("x");
        assert_eq!(hole.position, HolePosition::Expression);
        assert!(matches!(
            interpret(&hole, &no_table(), s.root(), &run_with(vec![])),
            ProbeOutcome::NoExpectation
        ));
    }

    #[test]
    fn interpret_reports_no_expectation_for_a_generic_type() {
        let s = Src::new(
            "generic",
            "pub fn first<T>(v: &[T]) -> T {\n    todo!(\"spec: x\")\n}\n",
        );
        let hole = s.hole("x");
        let run = run_with(vec![s.e0308(
            hole.byte_start,
            hole.byte_start + 2,
            "expected type parameter `T`, found `()`",
        )]);
        assert!(matches!(
            interpret(&hole, &no_table(), s.root(), &run),
            ProbeOutcome::NoExpectation
        ));
    }

    #[test]
    fn interpret_reports_a_failure_when_the_patch_itself_does_not_compile() {
        // `todo!() + 1` becomes `() + 1`: a real error at the hole, so the probe
        // must blame the position rather than the user's crate.
        let s = Src::new(
            "operator",
            "pub fn f() -> u32 {\n    todo!(\"spec: x\") + 1\n}\n",
        );
        let hole = s.hole("x");
        let mut d = s.e0308(
            hole.byte_start,
            hole.byte_start + 2,
            "cannot add `{integer}` to `()`",
        );
        d.code = Some("E0277".into());
        d.message = "cannot add `{integer}` to `()`".into();
        let run = run_with(vec![d]);

        match interpret(&hole, &no_table(), s.root(), &run) {
            ProbeOutcome::ProbeFailed(msg) => {
                assert!(msg.contains("fell back"), "{msg}");
                assert!(msg.contains("E0277"), "{msg}");
            }
            other => panic!("expected ProbeFailed, got {other:?}"),
        }
    }

    #[test]
    fn interpret_distinguishes_a_pre_existing_breakage_from_our_patch() {
        let s = Src::new(
            "preexisting",
            "pub fn f() -> u32 {\n    todo!(\"spec: x\")\n}\n",
        );
        let hole = s.hole("x");
        // An error far from the hole: the crate was already broken.
        let mut d = s.e0308(9000, 9001, "cannot find value `z`");
        d.code = Some("E0425".into());
        d.message = "cannot find value `z`".into();
        let run = run_with(vec![d]);

        match interpret(&hole, &no_table(), s.root(), &run) {
            ProbeOutcome::ProbeFailed(msg) => {
                assert!(msg.contains("does not compile"), "{msg}");
                assert!(msg.contains("not at the hole"), "{msg}");
                assert!(msg.contains("Fix these first"), "{msg}");
            }
            other => panic!("expected ProbeFailed, got {other:?}"),
        }
    }

    #[test]
    fn interpret_ignores_warnings_when_deciding() {
        let s = Src::new(
            "warnings",
            "pub fn f() {\n    let _x = todo!(\"spec: x\");\n}\n",
        );
        let hole = s.hole("x");
        let warn = Diagnostic {
            code: None,
            level: "warning".into(),
            message: "unused variable".into(),
            spans: vec![],
        };
        assert!(matches!(
            interpret(&hole, &no_table(), s.root(), &run_with(vec![warn])),
            ProbeOutcome::NoExpectation
        ));
    }

    #[test]
    fn error_summary_names_the_code_and_the_message() {
        let run = run_with(vec![Diagnostic {
            code: Some("E0308".into()),
            level: "error".into(),
            message: "mismatched types".into(),
            spans: vec![],
        }]);
        let s = run.error_summary();
        assert!(s.contains("E0308"), "{s}");
        assert!(s.contains("mismatched types"), "{s}");
    }

    // -- patching ----------------------------------------------------------

    #[test]
    fn patch_replaces_exactly_the_hole() {
        let s = Src::new("patch", "pub fn f() -> i64 {\n    todo!(\"spec: x\")\n}\n");
        let out = patched_source(&s.src, &s.hole("x")).unwrap();
        assert_eq!(out, "pub fn f() -> i64 {\n    ()\n}\n");
    }

    #[test]
    fn patch_preserves_every_other_byte() {
        let s = Src::new(
            "preserve",
            "pub fn f() {\n    let _x = todo!(\"spec: x\");\n}\n",
        );
        let hole = s.hole("x");
        let out = patched_source(&s.src, &hole).unwrap();
        assert_eq!(out, "pub fn f() {\n    let _x = ();\n}\n");
        // Exactly the hole's bytes were replaced, nothing more.
        assert_eq!(
            s.src.len() - (hole.byte_end - hole.byte_start) + UNIT.len(),
            out.len()
        );
    }

    #[test]
    fn patch_refuses_a_span_that_no_longer_holds_a_hole() {
        let s = Src::new("moved", "pub fn f() -> i64 {\n    todo!(\"spec: x\")\n}\n");
        // Simulate the file having been edited since the holes were listed.
        let shifted = format!("// a new leading comment\n{}", s.src);
        let err = patched_source(&shifted, &s.hole("x")).unwrap_err();
        assert!(err.contains("no longer starts"), "{err}");
        assert!(err.contains("changed since"), "{err}");
    }

    #[test]
    fn patch_refuses_a_span_past_the_end_of_the_file() {
        let s = Src::new("short", "pub fn f() -> i64 {\n    todo!(\"spec: x\")\n}\n");
        let err = patched_source("short", &s.hole("x")).unwrap_err();
        assert!(err.contains("past the end"), "{err}");
    }

    #[test]
    fn validate_span_accepts_a_freshly_extracted_hole() {
        let s = Src::new("fresh", "pub fn f() -> i64 {\n    todo!(\"spec: x\")\n}\n");
        assert!(validate_span(&s.src, &s.hole("x")).is_ok());
    }

    #[test]
    fn validate_span_accepts_unimplemented_holes() {
        let s = Src::new(
            "unimpl",
            "pub fn f() -> i64 {\n    unimplemented!(\"spec: x\")\n}\n",
        );
        let hole = s.hole("x");
        assert_eq!(hole.macro_name, "unimplemented");
        assert!(validate_span(&s.src, &hole).is_ok());
    }

    // -- multi-hole patching -----------------------------------------------

    #[test]
    fn many_patches_replace_every_hole() {
        let s = Src::new(
            "many-patch",
            "pub fn a() -> i64 {\n    todo!(\"spec: one\")\n}\n\n\
             pub fn b() -> bool {\n    todo!(\"spec: two\")\n}\n",
        );
        let holes = s.holes();
        assert_eq!(holes.len(), 2);
        let refs: Vec<&Hole> = holes.iter().collect();

        let (out, _) = patched_source_many(&s.src, &refs).unwrap();
        assert_eq!(
            out,
            "pub fn a() -> i64 {\n    ()\n}\n\npub fn b() -> bool {\n    ()\n}\n"
        );
        assert!(!out.contains("todo!"));
    }

    #[test]
    fn many_patches_do_not_care_about_input_order() {
        let s = Src::new(
            "many-order",
            "pub fn a() -> i64 {\n    todo!(\"spec: one\")\n}\n\n\
             pub fn b() -> bool {\n    todo!(\"spec: two\")\n}\n",
        );
        let holes = s.holes();
        let forward: Vec<&Hole> = holes.iter().collect();
        let backward: Vec<&Hole> = holes.iter().rev().collect();
        assert_eq!(
            patched_source_many(&s.src, &forward).unwrap().0,
            patched_source_many(&s.src, &backward).unwrap().0,
            "splicing left to right must not depend on the caller's order"
        );
    }

    #[test]
    fn many_patches_reject_a_single_spot() {
        // A batch of one is allowed; it is just a single replace.
        let s = Src::new(
            "one-patch",
            "pub fn a() -> i64 {\n    todo!(\"spec: one\")\n}\n",
        );
        let holes = s.holes();
        let refs: Vec<&Hole> = holes.iter().collect();
        assert_eq!(
            patched_source_many(&s.src, &refs).unwrap().0,
            "pub fn a() -> i64 {\n    ()\n}\n"
        );
    }

    #[test]
    fn many_patches_reject_an_empty_list() {
        let s = Src::new("empty-patch", "pub fn a() -> i64 {\n    ()\n}\n");
        assert_eq!(patched_source_many(&s.src, &vec![]).unwrap().0, s.src);
    }

    #[test]
    fn many_patches_reject_overlapping_spans() {
        let s = Src::new(
            "overlap",
            "pub fn a() -> i64 {\n    todo!(\"spec: one\")\n}\n",
        );
        let hole = s.hole("one");
        // Two entries for the same span. A caller that got here has a bug, and
        // splicing both would corrupt the file.
        let refs = vec![&hole, &hole];
        let err = patched_source_many(&s.src, &refs).unwrap_err();
        assert!(err.contains("overlap"), "{err}");
    }

    #[test]
    fn many_patches_reject_a_stale_span() {
        let s = Src::new(
            "stale",
            "pub fn a() -> i64 {\n    todo!(\"spec: one\")\n}\n",
        );
        let shifted = format!("// shifted\n{}", s.src);
        let holes = s.holes();
        let refs: Vec<&Hole> = holes.iter().collect();
        let err = patched_source_many(&shifted, &refs).unwrap_err();
        assert!(err.contains("no longer starts"), "{err}");
    }

    // -- shared with single-hole patching ----------------------------------

    #[test]
    fn one_and_many_patching_agree_on_a_single_hole() {
        let s = Src::new(
            "agree",
            "pub fn a() -> i64 {\n    todo!(\"spec: one\")\n}\n",
        );
        let hole = s.hole("one");
        assert_eq!(
            patched_source(&s.src, &hole).unwrap(),
            patched_source_many(&s.src, &vec![&hole]).unwrap().0
        );
    }

    // -- splitting for the batch -------------------------------------------

    #[test]
    fn statements_and_unresolvable_holes_are_never_batched() {
        let s = Src::new(
            "split",
            "pub fn a() -> i64 {\n    todo!(\"spec: expr\")\n}\n\n\
             pub fn b() {\n    todo!(\"spec: stmt\");\n}\n",
        );
        let mut holes = s.holes();
        // Mark the expression hole unresolvable; it must be excluded too.
        if let Some(h) = holes.iter_mut().find(|h| h.spec == "expr") {
            h.unresolvable = Some("test".into());
        }

        let (by_file, impossible) = split_batchable(&holes);
        assert!(by_file.is_empty(), "nothing here is safely batchable");
        assert_eq!(impossible.len(), 2);

        // The statement reads as no-expectation; the unresolvable one as a
        // failure, since its span was never validated.
        let stmt = holes.iter().position(|h| h.spec == "stmt").unwrap();
        assert!(matches!(
            impossible.iter().find(|(i, _)| *i == stmt).map(|(_, o)| o),
            Some(ProbeOutcome::NoExpectation)
        ));
    }

    #[test]
    fn batchable_holes_keep_their_original_index() {
        let s = Src::new(
            "index",
            "pub fn a() -> i64 {\n    todo!(\"spec: one\")\n}\n\n\
             pub fn b() -> bool {\n    todo!(\"spec: two\")\n}\n",
        );
        let holes = s.holes();
        let (by_file, impossible) = split_batchable(&holes);
        assert!(impossible.is_empty());
        let indexed: Vec<usize> = by_file.iter().flat_map(|g| g.members.clone()).collect();
        assert_eq!(indexed, vec![0, 1], "verdicts must map back to input order");
    }

    // -- batch interpretation ----------------------------------------------

    #[test]
    fn batched_run_declines_a_hole_it_cannot_settle() {
        // Errors exist, none attributable to this hole, and the run was batched:
        // another patched hole may have caused this. Must return None (decline)
        // rather than blame the crate.
        let s = Src::new(
            "decline",
            "pub fn f() -> u32 {\n    todo!(\"spec: x\")\n}\n",
        );
        let hole = s.hole("x");
        let mut d = s.e0308(9000, 9001, "cannot find value `z`");
        d.code = Some("E0425".into());
        let run = run_with(vec![d]);

        let blame = attributable_diagnostics(&hole, &no_table(), s.root(), &run);
        assert!(blame.is_empty(), "the far error is not ours");

        assert!(
            decide(&hole, &no_table(), s.root(), &run, &blame, Isolation::Batched).is_none(),
            "a batched run must not blame the crate for a neighbour's error"
        );
        // The same run in isolation is decidable: the only patch was ours.
        assert!(matches!(
            decide(&hole, &no_table(), s.root(), &run, &blame, Isolation::Single),
            Some(ProbeOutcome::ProbeFailed(_))
        ));
    }

    #[test]
    fn batched_run_settles_a_hole_when_nothing_failed() {
        // No errors at all means every patch compiled, so nothing can have
        // suppressed this hole's diagnostic: the batch can answer directly and
        // needs no fallback. This is what makes the common case cheap.
        let s = Src::new(
            "settled",
            "pub fn f() {\n    let _x = todo!(\"spec: x\");\n}\n",
        );
        let hole = s.hole("x");
        assert!(matches!(
            decide(&hole, &no_table(), s.root(), &run_with(vec![]), &vec![], Isolation::Batched),
            Some(ProbeOutcome::NoExpectation)
        ));
    }

    #[test]
    fn batched_run_settles_an_attributable_answer_despite_other_errors() {
        // Another hole's error elsewhere does not invalidate direct evidence
        // about this hole, batched or not.
        let s = Src::new(
            "batched-known",
            "pub fn f() -> i64 {\n    todo!(\"spec: x\")\n}\n",
        );
        let hole = s.hole("x");
        let mut other = s.e0308(9000, 9001, "cannot find value `z`");
        other.code = Some("E0425".into());
        let run = run_with(vec![
            other,
            s.e0308(
                hole.byte_start,
                hole.byte_start + 2,
                "expected `i64`, found `()`",
            ),
        ]);
        let blame = attributable_diagnostics(&hole, &no_table(), s.root(), &run);
        assert_eq!(blame.len(), 1, "only our own diagnostic is ours");
        assert!(matches!(
            decide(&hole, &no_table(), s.root(), &run, &blame, Isolation::Batched),
            Some(ProbeOutcome::Known(t)) if t == "i64"
        ));
    }

    #[test]
    fn batched_run_settles_an_unusable_answer() {
        // `expected ... `T`` is an answer of sorts, and is decided without
        // reference to the rest of the run, so the batch can commit to it.
        let s = Src::new(
            "batched-generic",
            "pub fn first<T>(v: &[T]) -> T {\n    todo!(\"spec: x\")\n}\n",
        );
        let hole = s.hole("x");
        let run = run_with(vec![s.e0308(
            hole.byte_start,
            hole.byte_start + 2,
            "expected type parameter `T`, found `()`",
        )]);
        let blame = attributable_diagnostics(&hole, &no_table(), s.root(), &run);
        assert!(matches!(
            decide(&hole, &no_table(), s.root(), &run, &blame, Isolation::Batched),
            Some(ProbeOutcome::NoExpectation)
        ));
    }

    #[test]
    fn single_interpretation_never_declines() {
        // `interpret` is the Single-mode wrapper and must always produce an
        // answer; a None there would be an internal bug, not a user situation.
        let s = Src::new(
            "single-never",
            "pub fn f() -> u32 {\n    todo!(\"spec: x\")\n}\n",
        );
        let hole = s.hole("x");
        let mut d = s.e0308(9000, 9001, "cannot find value `z`");
        d.code = Some("E0425".into());
        assert!(matches!(
            interpret(&hole, &no_table(), s.root(), &run_with(vec![d])),
            ProbeOutcome::ProbeFailed(_)
        ));
    }

    // -- diagnostic assignment ---------------------------------------------

    #[test]
    fn assignment_gives_each_hole_its_own_diagnostic() {
        // The bug this exists to prevent: three holes close together with a
        // window wider than the gaps between them. A per-hole rule would let all
        // three claim the first diagnostic and report `i64` three times.
        let s = Src::new(
            "assign",
            "pub fn a() -> i64 {\n    todo!(\"spec: one\")\n}\n\n\
             pub fn b() -> bool {\n    todo!(\"spec: two\")\n}\n\n\
             pub fn c() -> String {\n    todo!(\"spec: three\")\n}\n",
        );
        let holes = s.holes();
        assert_eq!(holes.len(), 3);
        // The holes really are within one attribution window of each other.
        assert!(
            holes[2].byte_start - holes[0].byte_start < ATTRIBUTION_WINDOW,
            "the fixture must reproduce the overlapping-window situation"
        );

        let refs: Vec<&Hole> = holes.iter().collect();
        let (_, anchors) = patched_source_many(&s.src, &refs).unwrap();

        // rustc reports spans against the *patched* text, so the fixture must
        // too: build each diagnostic at its hole's patched offset, exactly as a
        // real batched run would.
        let at = |i: usize, ty: &str| {
            s.e0308(
                anchors[i],
                anchors[i] + 2,
                &format!("expected `{ty}`, found `()`"),
            )
        };
        let run = run_with(vec![at(0, "i64"), at(1, "bool"), at(2, "String")]);

        let blame = assign_diagnostics(&refs, &anchors, &no_table(), s.root(), &run);
        assert_eq!(blame.len(), 3);
        for (i, b) in blame.iter().enumerate() {
            assert_eq!(b.len(), 1, "hole {i} must claim exactly one diagnostic");
        }

        // And each hole now resolves to its own type.
        let types: Vec<Option<String>> = holes
            .iter()
            .zip(&blame)
            .map(|(h, b)| decide(h, &no_table(), s.root(), &run, b, Isolation::Batched))
            .map(|o| o.and_then(|o| o.type_text().map(str::to_string)))
            .collect();
        assert_eq!(
            types,
            vec![
                Some("i64".to_string()),
                Some("bool".to_string()),
                Some("String".to_string())
            ]
        );
    }

    #[test]
    fn assignment_prefers_the_closest_hole() {
        // rustc reports `let b = todo!(); b` at the later use, which may be
        // nearer the next hole than its own. Distance decides, so the true
        // owner -- at distance 0 from where rustc pointed -- still wins.
        let s = Src::new(
            "assign-close",
            "pub fn a() -> i64 {\n    let v = todo!(\"spec: one\");\n    v\n}\n\n\
             pub fn b() -> bool {\n    todo!(\"spec: two\")\n}\n",
        );
        let holes = s.holes();
        let refs: Vec<&Hole> = holes.iter().collect();

        // One diagnostic, sitting on hole b's span. Hole a is merely nearby.
        let run = run_with(vec![s.e0308(
            holes[1].byte_start,
            holes[1].byte_start + 2,
            "expected `bool`, found `()`",
        )]);

        let (_, anchors) = patched_source_many(&s.src, &refs).unwrap();
        let blame = assign_diagnostics(&refs, &anchors, &no_table(), s.root(), &run);
        assert!(blame[0].is_empty(), "hole a must not steal hole b's error");
        assert_eq!(blame[1].len(), 1);

        let types: Vec<Option<String>> = holes
            .iter()
            .zip(&blame)
            .map(|(h, b)| decide(h, &no_table(), s.root(), &run, b, Isolation::Batched))
            .map(|o| o.and_then(|o| o.type_text().map(str::to_string)))
            .collect();
        assert_eq!(types[1], Some("bool".to_string()));
        // Hole a is undecided by the batch (a non-zero error count, nothing
        // attributed), so it declines and gets re-probed.
        assert_eq!(types[0], None);
    }

    #[test]
    fn assignment_ignores_diagnostics_about_other_types() {
        // An unrelated E0308 mentions its own found type, not `()`, so it is
        // never up for assignment.
        let s = Src::new(
            "assign-unrelated",
            "pub fn a() -> i64 {\n    todo!(\"spec: one\")\n}\n",
        );
        let holes = s.holes();
        let refs: Vec<&Hole> = holes.iter().collect();
        let run = run_with(vec![s.e0308(
            holes[0].byte_start,
            holes[0].byte_start + 2,
            "expected `i64`, found `bool`",
        )]);
        let (_, anchors) = patched_source_many(&s.src, &refs).unwrap();
        let blame = assign_diagnostics(&refs, &anchors, &no_table(), s.root(), &run);
        assert!(blame[0].is_empty());
    }

    #[test]
    fn assignment_handles_more_holes_than_diagnostics() {
        // Two holes, one diagnostic: one gets it, the other must not.
        let s = Src::new(
            "assign-fewer",
            "pub fn a() -> i64 {\n    todo!(\"spec: one\")\n}\n\n\
             pub fn b() -> bool {\n    todo!(\"spec: two\")\n}\n",
        );
        let holes = s.holes();
        let refs: Vec<&Hole> = holes.iter().collect();
        let run = run_with(vec![s.e0308(
            holes[1].byte_start,
            holes[1].byte_start + 2,
            "expected `bool`, found `()`",
        )]);
        let (_, anchors) = patched_source_many(&s.src, &refs).unwrap();
        let blame = assign_diagnostics(&refs, &anchors, &no_table(), s.root(), &run);
        assert!(blame[0].is_empty());
        assert_eq!(blame[1].len(), 1);
    }

    #[test]
    fn assignment_is_deterministic() {
        // Same inputs, same assignment: no dependence on hash order.
        let s = Src::new(
            "assign-det",
            "pub fn a() -> i64 {\n    todo!(\"spec: one\")\n}\n\n\
             pub fn b() -> bool {\n    todo!(\"spec: two\")\n}\n",
        );
        let holes = s.holes();
        let refs: Vec<&Hole> = holes.iter().collect();
        let run = run_with(vec![
            s.e0308(
                holes[0].byte_start,
                holes[0].byte_start + 2,
                "expected `i64`, found `()`",
            ),
            s.e0308(
                holes[1].byte_start,
                holes[1].byte_start + 2,
                "expected `bool`, found `()`",
            ),
        ]);
        for _ in 0..5 {
            let (_, anchors) = patched_source_many(&s.src, &refs).unwrap();
            let blame = assign_diagnostics(&refs, &anchors, &no_table(), s.root(), &run);
            assert_eq!(blame[0].len(), 1);
            assert_eq!(blame[1].len(), 1);
        }
    }

// -- restore guard -----------------------------------------------------

const FILE: &str = "/scratch/lib.rs";

/// A disk that holds one patched file.
fn patched_file() -> (BTreeMap<String, Vec<u8>>, RestoreGuard) {
    let mut disk = BTreeMap::new();
    disk.insert(FILE.to_string(), b"original\n".to_vec());
    let guard = RestoreGuard::new(FILE, b"original\n".to_vec());
    apply_steps(&mut disk, guard.patch_steps("patched\n"));
    (disk, guard)
}

#[test]
fn guard_restores_the_original_bytes() {
    let (mut disk, mut guard) = patched_file();
    assert_eq!(disk[FILE], b"patched\n".to_vec());
    apply_steps(&mut disk, guard.restore());
    assert_eq!(disk[FILE], b"original\n".to_vec());
    assert!(
        !disk.contains_key(&backup_path(FILE)),
        "the backup must be cleaned up"
    );
    assert!(guard.restore().is_empty(), "there is nothing left to put back");
}

#[test]
fn guard_keep_leaves_the_patch_in_place() {
    let (mut disk, mut guard) = patched_file();
    apply_steps(&mut disk, guard.keep());
    apply_steps(&mut disk, guard.restore());
    assert_eq!(disk[FILE], b"patched\n".to_vec());
    assert!(!disk.contains_key(&backup_path(FILE)));
}

#[test]
fn guard_keeps_the_backup_on_disk_while_armed() {
    let (disk, guard) = patched_file();
    // While armed, the backup is the crash-recovery record.
    assert!(guard.armed);
    assert_eq!(disk[&backup_path(FILE)], b"original\n".to_vec());
}

#[test]
fn the_backup_is_written_before_the_patch() {
    let guard = RestoreGuard::new(FILE, b"original\n".to_vec());
    let steps = guard.patch_steps("patched\n");
    assert_eq!(steps.len(), 2);
    assert!(
        matches!(&steps[0], DiskStep::Write { path, bytes } if *path == backup_path(FILE) && bytes == b"original\n")
    );
    assert!(
        matches!(&steps[1], DiskStep::Write { path, bytes } if path == FILE && bytes == b"patched\n")
    );
}

#[test]
fn backup_path_appends_the_suffix_beside_the_file() {
    assert_eq!(backup_path("/a/b/lib.rs"), "/a/b/lib.rs.cargo-hole.bak");
}

fn entry(path: &str, kind: EntryKind) -> DirEntry {
    DirEntry {
        name: path.rsplit('/').next().unwrap_or_default().to_string(),
        path: path.to_string(),
        kind,
    }
}

/// Walk a tree given as directories and what they hold.
fn walk(wanted: Wanted, root: &str, tree: &[(&str, &[(&str, EntryKind)])]) -> Vec<String> {
    let mut walk = FileWalk::new(wanted, root);
    while let Some((dir, depth)) = walk.next() {
        if let Some((_, entries)) = tree.iter().find(|(d, _)| *d == dir) {
            let listed: Vec<DirEntry> = entries.iter().map(|(p, k)| entry(p, *k)).collect();
            walk.visit(depth, &listed);
        }
    }
    walk.finish()
}

#[test]
fn restore_leftovers_recovers_a_simulated_hard_kill() {
    let mut disk: BTreeMap<String, Vec<u8>> = BTreeMap::new();
    let file = "/leftover/src/lib.rs";
    disk.insert(file.to_string(), b"PATCHED\n".to_vec());
    // A backup with no live guard is exactly what a SIGKILL leaves behind.
    disk.insert(backup_path(file), b"ORIGINAL\n".to_vec());

    let backups = vec![backup_path(file)];
    let restored = restore_leftovers(&backups);
    assert_eq!(restored.len(), 1);
    for (backup, target) in restored {
        let bytes = disk.remove(&backup).expect("the backup");
        disk.insert(target, bytes);
    }
    assert_eq!(disk[file], b"ORIGINAL\n".to_vec());
    assert!(!disk.contains_key(&backup_path(file)));
}

#[test]
fn restore_leftovers_finds_backups_in_nested_directories() {
    let backup = "/nested/src/deep/deeper/lib.rs.cargo-hole.bak";
    let found = walk(
        Wanted::Backups,
        "/nested",
        &[
            ("/nested", &[("/nested/src", EntryKind::Directory)]),
            ("/nested/src", &[("/nested/src/deep", EntryKind::Directory)]),
            ("/nested/src/deep", &[("/nested/src/deep/deeper", EntryKind::Directory)]),
            (
                "/nested/src/deep/deeper",
                &[
                    ("/nested/src/deep/deeper/lib.rs", EntryKind::File),
                    (backup, EntryKind::File),
                ],
            ),
        ],
    );
    assert_eq!(found, vec![backup.to_string()]);
    let restored = restore_leftovers(&found);
    assert_eq!(restored[0].1, "/nested/src/deep/deeper/lib.rs");
}

#[test]
fn restore_leftovers_skips_target_and_dotdirs() {
    let found = walk(
        Wanted::Backups,
        "/skip",
        &[
            (
                "/skip",
                &[
                    ("/skip/target", EntryKind::Directory),
                    ("/skip/.git", EntryKind::Directory),
                ],
            ),
            ("/skip/target", &[("/skip/target/a.rs.cargo-hole.bak", EntryKind::File)]),
            ("/skip/.git", &[("/skip/.git/b.rs.cargo-hole.bak", EntryKind::File)]),
        ],
    );
    assert!(restore_leftovers(&found).is_empty());
}

#[test]
fn restoring_twice_restores_once() {
    let root = "/twice";
    let mut disk: BTreeMap<String, Vec<u8>> = BTreeMap::new();
    for (path, bytes) in [
        ("/twice/src/b.rs", "patched b"),
        ("/twice/src/b.rs.cargo-hole.bak", "original b"),
        ("/twice/a.rs", "patched a"),
        ("/twice/a.rs.cargo-hole.bak", "original a"),
        ("/twice/c.rs", "left alone"),
        ("/twice/target/d.rs.cargo-hole.bak", "build output"),
    ] {
        disk.insert(path.to_string(), bytes.as_bytes().to_vec());
    }
    let found = |disk: &BTreeMap<String, Vec<u8>>| {
        let listed = |dir: &str, subs: &[&str]| {
            let mut entries: Vec<DirEntry> =
                subs.iter().map(|s| entry(s, EntryKind::Directory)).collect();
            for path in disk.keys() {
                if path.rsplit_once('/').map(|(d, _)| d) == Some(dir) {
                    entries.push(entry(path, EntryKind::File));
                }
            }
            entries
        };
        let mut walk = FileWalk::new(Wanted::Backups, root);
        while let Some((dir, depth)) = walk.next() {
            let subs: &[&str] = if dir == root {
                &["/twice/src", "/twice/target"]
            } else {
                &[]
            };
            walk.visit(depth, &listed(&dir, subs));
        }
        walk.finish()
    };
    let restore = |disk: &mut BTreeMap<String, Vec<u8>>| {
        let mut backups = found(disk);
        backups.push("/twice/gone.rs.cargo-hole.bak".to_string());
        let (mut restoring, mut action) = Restoring::begin(&backups);
        loop {
            let event = match action {
                RestoreAction::Read { backup } => match disk.get(&backup) {
                    Some(bytes) => RestoreEvent::Contents(bytes.clone()),
                    None => RestoreEvent::Unreadable,
                },
                RestoreAction::Restore { backup, target, bytes } => {
                    disk.insert(target, bytes);
                    disk.remove(&backup);
                    RestoreEvent::Restored
                }
                RestoreAction::Done { restored } => return restored,
                RestoreAction::Fail { message } => panic!("{message}"),
            };
            action = restoring.step(event);
        }
    };
    assert_eq!(
        restore(&mut disk),
        vec!["/twice/a.rs".to_string(), "/twice/src/b.rs".to_string()],
        "in path order"
    );
    assert_eq!(disk["/twice/a.rs"], b"original a".to_vec());
    assert_eq!(disk["/twice/src/b.rs"], b"original b".to_vec());
    assert_eq!(disk["/twice/c.rs"], b"left alone".to_vec());
    assert_eq!(disk.len(), 4, "only the backup in `target` is still there");
    let before = disk.clone();
    assert!(restore(&mut disk).is_empty());
    assert_eq!(disk, before);
}

#[test]
fn a_file_that_cannot_be_restored_ends_the_restore() {
    let backups = vec![backup_path("/c/a.rs"), backup_path("/c/b.rs")];
    let (mut restoring, first) = Restoring::begin(&backups);
    assert!(matches!(first, RestoreAction::Read { backup } if backup == backups[0]));
    match restoring.step(RestoreEvent::Contents(b"a".to_vec())) {
        RestoreAction::Restore { backup, target, bytes } => {
            assert_eq!(backup, backups[0]);
            assert_eq!(target, "/c/a.rs");
            assert_eq!(bytes, b"a".to_vec());
        }
        other => panic!("{other:?}"),
    }
    match restoring.step(RestoreEvent::WriteFailed("read-only".to_string())) {
        RestoreAction::Fail { message } => assert_eq!(message, "cannot restore /c/a.rs: read-only"),
        other => panic!("{other:?}"),
    }
    assert!(matches!(
        restoring.step(RestoreEvent::Restored),
        RestoreAction::Done { restored } if restored.is_empty()
    ));
}

#[test]
fn restore_leftovers_reports_nothing_when_clean() {
    let found = walk(Wanted::Backups, "/clean", &[("/clean", &[])]);
    assert!(restore_leftovers(&found).is_empty());
}

#[test]
fn every_source_at_most_so_deep_is_found_once() {
    let mut walk = FileWalk::new(Wanted::RustFiles, "/deep");
    let mut levels = 0;
    while let Some((dir, depth)) = walk.next() {
        assert!(depth <= 32);
        levels += 1;
        walk.visit(
            depth,
            &vec![
                entry(&format!("{dir}/d"), EntryKind::Directory),
                entry(&format!("{dir}/target"), EntryKind::Directory),
                entry(&format!("{dir}/a.rs"), EntryKind::File),
                entry(&format!("{dir}/.b.rs"), EntryKind::File),
                entry(&format!("{dir}/c.rs"), EntryKind::Other),
            ],
        );
    }
    assert_eq!(levels, 33, "the root and 32 levels below it");
    let found = walk.finish();
    assert_eq!(found.len(), 33);
    assert!(found.iter().all(|f| f.ends_with("/a.rs")));
    let mut once = found.clone();
    once.dedup();
    assert_eq!(once, found);
}

#[test]
fn rust_files_come_out_in_path_order() {
    let found = walk(
        Wanted::RustFiles,
        "/c",
        &[
            (
                "/c",
                &[
                    ("/c/src", EntryKind::Directory),
                    ("/c/target", EntryKind::Directory),
                    ("/c/build.rs", EntryKind::File),
                    ("/c/README.md", EntryKind::File),
                ],
            ),
            ("/c/src", &[("/c/src/z.rs", EntryKind::File), ("/c/src/a.rs", EntryKind::File)]),
            ("/c/target", &[("/c/target/x.rs", EntryKind::File)]),
        ],
    );
    assert_eq!(found, vec!["/c/build.rs", "/c/src/a.rs", "/c/src/z.rs"]);
}

// -- locking -----------------------------------------------------------

#[test]
fn lock_is_exclusive_within_a_process() {
    let dir = "/scratch/lock";
    assert!(matches!(ProbeLock::acquire(dir, LockOpen::Opened), LockStep::Try));
    let first = match ProbeLock::after_try(dir, 1, LockTry::Taken, false) {
        LockStep::Done(lock) => lock,
        other => panic!("{other:?}"),
    };
    assert!(first.is_held());
    // A second acquisition while the first is alive must wait, then fail.
    assert!(matches!(
        ProbeLock::after_try(dir, 1, LockTry::WouldBlock, false),
        LockStep::TryAgain
    ));
    assert!(
        matches!(
            ProbeLock::after_try(dir, 1, LockTry::WouldBlock, true),
            LockStep::Fail(_)
        ),
        "the lock must not be shared"
    );
    // Once released it can be taken again.
    assert!(matches!(
        ProbeLock::after_try(dir, 1, LockTry::Taken, true),
        LockStep::Done(_)
    ));
}

#[test]
fn lock_file_lives_in_the_root_and_is_named_as_documented() {
    let dir = "/scratch/lockname";
    let lock = match ProbeLock::after_try(dir, 1, LockTry::Taken, false) {
        LockStep::Done(lock) => lock,
        other => panic!("{other:?}"),
    };
    assert_eq!(lock.path(), format!("{dir}/{LOCK_NAME}"));
    assert_eq!(lock.path(), "/scratch/lockname/.cargo-hole.probe.lock");
    assert_eq!(ProbeLock::path_for(dir), lock.path());
}

#[test]
fn a_read_only_root_goes_without_a_lock() {
    match ProbeLock::acquire("/ro", LockOpen::ReadOnly) {
        LockStep::Done(lock) => assert!(!lock.is_held()),
        other => panic!("{other:?}"),
    }
    assert!(matches!(
        ProbeLock::acquire("/ro", LockOpen::Failed("disk full".to_string())),
        LockStep::Fail(_)
    ));
}

// -- options -----------------------------------------------------------

#[test]
fn check_command_carries_message_format_and_quiet() {
    let args = ProberOptions::defaults(&no_env()).check_arguments();
    assert!(args.contains(&"check".to_string()), "{args:?}");
    assert!(
        args.contains(&"--message-format=json".to_string()),
        "{args:?}"
    );
    assert!(args.contains(&"--quiet".to_string()), "{args:?}");
}

#[test]
fn check_command_adds_offline_and_target_dir_when_asked() {
    let opts = ProberOptions {
        offline: true,
        target_dir: Some("/tmp/t".to_string()),
        ..ProberOptions::defaults(&no_env())
    };
    let args = opts.check_arguments();
    assert!(args.contains(&"--offline".to_string()), "{args:?}");
    assert!(args.contains(&"--target-dir".to_string()), "{args:?}");
    assert!(args.contains(&"/tmp/t".to_string()), "{args:?}");
}

#[test]
fn without_a_cargo_home_override_the_child_inherits_ours() {
    assert!(
        ProberOptions::defaults(&no_env()).cargo_home.is_none(),
        "unset means inherit, not override"
    );
}

#[test]
fn a_check_that_cannot_be_read_says_why() {
    let tc = TempCrate::new("output", "pub fn f() {}\n");
    let prober = tc.prober();
    let mut out = Output {
        stdout: Vec::new(),
        stderr: b"  error: no such package \n".to_vec(),
        code: Some(101),
        timed_out: false,
    };
    assert_eq!(
        prober.check(&out).unwrap_err(),
        "`cargo check` exited with status 101 and produced no diagnostics: error: no such package"
    );
    out.timed_out = true;
    let err = prober.check(&out).unwrap_err();
    assert!(err.contains("did not finish within"), "{err}");

    out.timed_out = false;
    out.stdout = E0308_LINE.as_bytes().to_vec();
    let run = prober.check(&out).expect("diagnostics to interpret");
    assert_eq!(run.error_count(), 1);
    assert!(!run.is_clean());
    assert_eq!(run.stderr, "  error: no such package \n");
}

#[test]
fn output_that_is_not_utf8_is_still_read() {
    let tc = TempCrate::new("lossy", "pub fn f() {}\n");
    let out = Output {
        stdout: Vec::new(),
        stderr: vec![b'a', 0xff, b'b'],
        code: Some(0),
        timed_out: false,
    };
    assert_eq!(tc.prober().check(&out).unwrap().stderr, "a\u{FFFD}b");
}

#[test]
fn outcome_labels_are_stable() {
    assert_eq!(ProbeOutcome::Known("i64".into()).label(), "known");
    assert_eq!(ProbeOutcome::NoExpectation.label(), "no-expectation");
    assert_eq!(
        ProbeOutcome::ProbeFailed("x".into()).label(),
        "probe-failed"
    );
    assert_eq!(ProbeOutcome::Broken("x".to_string()).label(), "broken");
    assert_eq!(ProbeOutcome::Known("i64".into()).type_text(), Some("i64"));
    assert_eq!(ProbeOutcome::NoExpectation.type_text(), None);
}

// -- probing -----------------------------------------------------------

#[test]
fn probes_a_concrete_return_type() {
    let mut tc = TempCrate::new(
        "concrete",
        "pub fn f() -> i64 {\n    todo!(\"spec: reply\")\n}\n",
    );
    let outcome = tc.probe(&tc.hole());
    assert!(
        matches!(&outcome, ProbeOutcome::Known(t) if t == "i64"),
        "{outcome:?}"
    );
}

#[test]
fn probes_a_std_generic_type() {
    let mut tc = TempCrate::new(
        "vec",
        "pub fn f() -> Vec<String> {\n    todo!(\"spec: reply\")\n}\n",
    );
    let outcome = tc.probe(&tc.hole());
    assert!(
        matches!(&outcome, ProbeOutcome::Known(t) if t == "Vec<String>"),
        "{outcome:?}"
    );
}

#[test]
fn probes_an_option_type() {
    let mut tc = TempCrate::new(
        "option",
        "pub fn f() -> Option<u32> {\n    todo!(\"spec: reply\")\n}\n",
    );
    let outcome = tc.probe(&tc.hole());
    assert!(
        matches!(&outcome, ProbeOutcome::Known(t) if t == "Option<u32>"),
        "{outcome:?}"
    );
}

#[test]
fn probes_a_reference_type() {
    let mut tc = TempCrate::new(
        "ref",
        "pub fn f<'a>(s: &'a str) -> &'a str {\n    let _ = s;\n    todo!(\"spec: reply\")\n}\n",
    );
    let outcome = tc.probe(&tc.hole());
    assert!(
        matches!(&outcome, ProbeOutcome::Known(t) if t.contains('&') && t.contains("str")),
        "{outcome:?}"
    );
}

#[test]
fn probes_an_if_condition_as_bool() {
    let mut tc = TempCrate::new(
        "cond",
        "pub fn f() -> u32 {\n    if todo!(\"spec: reply\") {\n        1\n    } else {\n        0\n    }\n}\n",
    );
    let outcome = tc.probe(&tc.hole());
    assert!(
        matches!(&outcome, ProbeOutcome::Known(t) if t == "bool"),
        "{outcome:?}"
    );
}

#[test]
fn probes_a_hole_inside_a_macro_body() {
    let mut tc = TempCrate::new(
        "macbody",
        "pub fn f() -> Vec<u32> {\n    vec![todo!(\"spec: reply\")]\n}\n",
    );
    let hole = tc.hole();
    assert_eq!(hole.position, HolePosition::MacroBody);
    let outcome = tc.probe(&hole);
    assert!(
        matches!(&outcome, ProbeOutcome::Known(t) if t == "u32"),
        "{outcome:?}"
    );
}

#[test]
fn a_statement_hole_needs_no_compiler_at_all() {
    let mut tc = TempCrate::new("stmt", "pub fn f() {\n    todo!(\"spec: reply\");\n}\n");
    let hole = tc.hole();
    assert_eq!(hole.position, HolePosition::Statement);
    // Point the prober at a cargo that cannot possibly run: statement
    // position is decided without touching the compiler.
    tc.broken = Some("cannot run `definitely-not-cargo`".to_string());
    assert!(matches!(tc.probe(&hole), ProbeOutcome::NoExpectation));
}

#[test]
fn an_unconstrained_let_reports_no_expectation() {
    let mut tc = TempCrate::new(
        "unconstrained",
        "pub fn f() {\n    let _x = todo!(\"spec: reply\");\n}\n",
    );
    let outcome = tc.probe(&tc.hole());
    assert!(
        matches!(outcome, ProbeOutcome::NoExpectation),
        "{outcome:?}"
    );
}

#[test]
fn a_generic_return_reports_no_expectation() {
    let mut tc = TempCrate::new(
        "generic",
        "pub fn first<T>(v: &[T]) -> T {\n    let _ = v;\n    todo!(\"spec: reply\")\n}\n",
    );
    let outcome = tc.probe(&tc.hole());
    assert!(
        matches!(outcome, ProbeOutcome::NoExpectation),
        "{outcome:?}"
    );
}

#[test]
fn an_operator_position_never_yields_a_guessed_type() {
    let mut tc = TempCrate::new(
        "operator",
        "pub fn f() -> u32 {\n    todo!(\"spec: reply\") + 1\n}\n",
    );
    match tc.probe(&tc.hole()) {
        // The expected outcome: `()` cannot be added, so rustc emits E0369
        // (or E0277) and the probe reports that it could not get an answer.
        ProbeOutcome::ProbeFailed(msg) => {
            assert!(msg.contains("fell back"), "{msg}");
            assert!(
                msg.contains("E0369") || msg.contains("E0277"),
                "the summary should name the real error: {msg}"
            );
        }
        // Tolerated if rustc answers with E0308 instead. What must never
        // happen is a guessed type.
        ProbeOutcome::NoExpectation => {}
        other => panic!("expected a failure or no-expectation, got {other:?}"),
    }
}

#[test]
fn probing_leaves_the_file_byte_identical() {
    let mut tc = TempCrate::new(
        "identical",
        "pub fn f() -> i64 {\n    todo!(\"spec: reply\")\n}\n",
    );
    let before = tc.text(&tc.lib());
    let _ = tc.probe(&tc.hole());
    assert_eq!(tc.text(&tc.lib()), before);
    assert!(!tc.has_backups(), "no backup may remain");
}

#[test]
fn probing_several_holes_leaves_no_trace() {
    let mut tc = TempCrate::new(
        "many",
        "pub fn a() -> i64 {\n    todo!(\"spec: one\")\n}\n\n\
         pub fn b() -> bool {\n    todo!(\"spec: two\")\n}\n",
    );
    let before = tc.text(&tc.lib());

    let mut types = Vec::new();
    for hole in tc.holes() {
        types.push(tc.probe(&hole).type_text().map(str::to_string));
    }
    assert_eq!(
        types,
        vec![Some("i64".to_string()), Some("bool".to_string())]
    );
    assert_eq!(tc.text(&tc.lib()), before);
    assert!(!tc.has_backups());
}

#[test]
fn an_unrelated_error_elsewhere_does_not_block_a_known_answer() {
    // A crate with a hole *and* a pre-existing error. rustc still reports
    // the E0308 for our hole, and that is direct evidence, so the probe
    // answers rather than refusing. Refusing would make the tool useless on
    // exactly the crates that tend to have holes.
    let mut tc = TempCrate::new(
        "unrelated",
        "pub fn f() -> i64 {\n    todo!(\"spec: reply\")\n}\n\n\
         pub fn g() -> u8 {\n    \"not a number\"\n}\n",
    );
    let outcome = tc.probe(&tc.hole());
    assert!(
        matches!(&outcome, ProbeOutcome::Known(t) if t == "i64"),
        "{outcome:?}"
    );
    assert!(!tc.has_backups());
}

#[test]
fn a_crate_that_fails_away_from_the_hole_reports_a_failure() {
    // The hole is a `let _ = ()` that constrains nothing, so no error is
    // attributable to it; the only error is far away. That is the
    // "already broken" branch rather than the "position fell back" one.
    // The padding keeps the bad name outside the blame window, so this also
    // proves the window is what separates the two messages.
    let mut tc = TempCrate::new(
        "broken",
        "pub fn f() {\n    let _ = todo!(\"spec: reply\");\n}\n\n\
         // padding padding padding padding padding padding padding padding\n\
         // padding padding padding padding padding padding padding padding\n\
         // padding padding padding padding padding padding padding padding\n\
         pub fn g() -> u32 {\n    missing_ident\n}\n",
    );
    let hole = tc.hole();
    let src = tc.text(&tc.lib());
    let far = src
        .rfind("missing_ident")
        .expect("fixture has the bad name");
    assert!(
        far.saturating_sub(hole.byte_end) > LOCAL_WINDOW,
        "the fixture must place the unrelated error outside the blame window"
    );

    match tc.probe(&hole) {
        ProbeOutcome::ProbeFailed(msg) => assert!(msg.contains("does not compile"), "{msg}"),
        other => panic!("expected ProbeFailed, got {other:?}"),
    }
    assert!(!tc.has_backups());
}

#[test]
fn a_missing_cargo_is_reported_as_broken() {
    let mut tc = TempCrate::new(
        "nocargo",
        "pub fn f() -> i64 {\n    todo!(\"spec: reply\")\n}\n",
    );
    tc.broken = Some(cannot_run(
        "definitely-not-a-real-cargo-binary",
        "No such file or directory",
    ));
    match tc.probe(&tc.hole()) {
        ProbeOutcome::Broken(e) => {
            assert!(e.contains("cannot run"), "{e}");
        }
        other => panic!("expected Broken, got {other:?}"),
    }
    // Even a probe that never ran must leave the file untouched.
    assert!(!tc.has_backups());
}

#[test]
fn probing_restores_the_file_even_when_cargo_fails() {
    let mut tc = TempCrate::new(
        "restore-on-fail",
        "pub fn f() {\n    let _ = todo!(\"spec: reply\");\n}\n\n\
         pub fn g() -> u32 {\n    missing_ident\n}\n",
    );
    let before = tc.text(&tc.lib());
    let outcome = tc.probe(&tc.hole());
    assert!(
        matches!(outcome, ProbeOutcome::ProbeFailed(_)),
        "this fixture must genuinely fail: {outcome:?}"
    );
    assert_eq!(tc.text(&tc.lib()), before);
    assert!(!tc.has_backups());
}

#[test]
fn probing_twice_in_a_row_gives_the_same_answer() {
    // The patch is restored before the diagnostics are read, so a second
    // probe must see the same original file and answer identically.
    let mut tc = TempCrate::new(
        "twice",
        "pub fn f() -> u32 {\n    todo!(\"spec: reply\")\n}\n",
    );
    let first = tc.probe(&tc.hole()).type_text().map(str::to_string);
    let second = tc.probe(&tc.hole()).type_text().map(str::to_string);
    assert_eq!(first, Some("u32".to_string()));
    assert_eq!(first, second);
}

// -- batch probing -----------------------------------------------------

#[test]
fn batch_probing_answers_every_hole() {
    // The core claim: patching all the holes at once still yields each
    // hole's own type, because every E0308 carries its own span.
    let mut tc = TempCrate::new(
        "batch-all",
        "pub fn a() -> i64 {\n    todo!(\"spec: one\")\n}\n\n\
         pub fn b() -> bool {\n    todo!(\"spec: two\")\n}\n\n\
         pub fn c() -> String {\n    todo!(\"spec: three\")\n}\n\n\
         pub fn d() -> Vec<u8> {\n    todo!(\"spec: four\")\n}\n",
    );
    let before = tc.text(&tc.lib());
    let holes = tc.holes();
    assert_eq!(holes.len(), 4);

    let outcomes = tc.probe_all(&holes);
    assert_eq!(outcomes.len(), 4, "one decision per hole, in input order");
    let types: Vec<Option<&str>> = outcomes.iter().map(|o| o.type_text()).collect();
    assert_eq!(
        types,
        vec![Some("i64"), Some("bool"), Some("String"), Some("Vec<u8>")],
        "{outcomes:?}"
    );

    assert_eq!(tc.text(&tc.lib()), before, "file restored");
    assert!(!tc.has_backups());
}

#[test]
fn batch_probing_handles_holes_across_several_files() {
    let mut tc = TempCrate::new("batch-files", "pub fn unused() {}\n");
    tc.write("src/lib.rs", "pub mod one;\npub mod two;\n");
    tc.write(
        "src/one.rs",
        "pub fn a() -> i64 {\n    todo!(\"spec: one\")\n}\n",
    );
    tc.write(
        "src/two.rs",
        "pub fn b() -> bool {\n    todo!(\"spec: two\")\n}\n",
    );
    let before = tc.files.clone();

    let holes = tc.all_holes();
    assert_eq!(holes.len(), 2);
    let outcomes = tc.probe_all(&holes);

    let mut types: Vec<Option<&str>> = outcomes.iter().map(|o| o.type_text()).collect();
    types.sort();
    assert_eq!(types, vec![Some("bool"), Some("i64")], "{outcomes:?}");

    // Every file must come out of a multi-file batch untouched.
    assert_eq!(tc.files, before);
}

#[test]
fn batch_probing_mixes_known_and_unknown_holes() {
    // A batch where some holes answer and others are unconstrained. The
    // run's errors are the four attributable ones plus nothing else, so
    // every hole is decidable without a fallback.
    let mut tc = TempCrate::new(
        "batch-mixed",
        "pub fn a() -> i64 {\n    todo!(\"spec: one\")\n}\n\n\
         pub fn b() {\n    let _x = todo!(\"spec: two\");\n}\n\n\
         pub fn c() -> bool {\n    todo!(\"spec: three\")\n}\n",
    );
    let holes = tc.holes();
    let outcomes = tc.probe_all(&holes);

    assert!(
        matches!(&outcomes[0], ProbeOutcome::Known(t) if t == "i64"),
        "{outcomes:?}"
    );
    assert!(
        matches!(&outcomes[1], ProbeOutcome::NoExpectation),
        "{outcomes:?}"
    );
    assert!(
        matches!(&outcomes[2], ProbeOutcome::Known(t) if t == "bool"),
        "{outcomes:?}"
    );
}

#[test]
fn batch_probing_skips_statements_without_a_compiler() {
    let mut tc = TempCrate::new(
        "batch-stmt",
        "pub fn a() {\n    todo!(\"spec: one\");\n}\n\n\
         pub fn b() -> i64 {\n    todo!(\"spec: two\")\n}\n",
    );
    let holes = tc.holes();
    assert_eq!(holes[0].position, HolePosition::Statement);

    let outcomes = tc.probe_all(&holes);
    assert!(
        matches!(&outcomes[0], ProbeOutcome::NoExpectation),
        "{outcomes:?}"
    );
    assert!(
        matches!(&outcomes[1], ProbeOutcome::Known(t) if t == "i64"),
        "{outcomes:?}"
    );
}

#[test]
fn batch_probing_falls_back_when_a_neighbour_breaks_the_crate() {
    // This is the case the decline exists for. `operator` makes `() + 1`,
    // a hard error; in a batch it could plausibly disturb `clean`'s
    // inference. Whatever the batch decides, the final answer for `clean`
    // must still be the right type, because undecided holes are re-probed
    // one at a time.
    let mut tc = TempCrate::new(
        "batch-fallback",
        "pub fn clean() -> i64 {\n    todo!(\"spec: one\")\n}\n\n\
         pub fn operator() -> u32 {\n    todo!(\"spec: two\") + 1\n}\n",
    );
    let holes = tc.holes();
    let outcomes = tc.probe_all(&holes);

    assert!(
        matches!(&outcomes[0], ProbeOutcome::Known(t) if t == "i64"),
        "the healthy hole must still be answered: {outcomes:?}"
    );
    // The operator hole is either sniffed out via the fallback or, if rustc
    // answered for it directly, reported as a type. Never a guess.
    match &outcomes[1] {
        ProbeOutcome::ProbeFailed(msg) => assert!(msg.contains("fell back"), "{msg}"),
        ProbeOutcome::Known(_) | ProbeOutcome::NoExpectation => {}
        other => panic!("unexpected outcome for the operator hole: {other:?}"),
    }
}

#[test]
fn batch_probing_a_single_hole_still_answers() {
    // The batch path is skipped for one hole; the result must be identical.
    let mut tc = TempCrate::new(
        "batch-one",
        "pub fn a() -> i64 {\n    todo!(\"spec: one\")\n}\n",
    );
    let outcomes = tc.probe_all(&tc.holes());
    assert_eq!(outcomes.len(), 1);
    assert!(
        matches!(&outcomes[0], ProbeOutcome::Known(t) if t == "i64"),
        "{outcomes:?}"
    );
}

#[test]
fn batch_probing_an_empty_list_is_harmless() {
    let mut tc = TempCrate::new("batch-empty", "pub fn a() {}\n");
    assert!(tc.probe_all(&vec![]).is_empty());
}

/// Eight holes in one file, each in its own function so they are
/// independent and all of them answer.
const EIGHT_HOLES: &str = "pub fn a() -> i64 {\n    todo!(\"spec: a\")\n}\n\n\
     pub fn b() -> bool {\n    todo!(\"spec: b\")\n}\n\n\
     pub fn c() -> String {\n    todo!(\"spec: c\")\n}\n\n\
     pub fn d() -> Vec<u8> {\n    todo!(\"spec: d\")\n}\n\n\
     pub fn e() -> u32 {\n    todo!(\"spec: e\")\n}\n\n\
     pub fn f() -> Option<i32> {\n    todo!(\"spec: f\")\n}\n\n\
     pub fn g() -> f64 {\n    todo!(\"spec: g\")\n}\n\n\
     pub fn h() -> i128 {\n    todo!(\"spec: h\")\n}\n";

#[test]
fn batching_costs_one_check_for_the_whole_file() {
    // The claim the batch exists to make. Eight holes, one file, and one
    // compiler run -- not eight.
    let mut tc = TempCrate::new("count-batch", EIGHT_HOLES);
    let holes = tc.holes();
    assert_eq!(holes.len(), 8);
    let outcomes = tc.probe_all(&holes);
    assert!(
        outcomes.iter().all(|o| matches!(o, ProbeOutcome::Known(_))),
        "every hole should answer directly, so no fallback runs: {outcomes:?}"
    );
    assert_eq!(
        tc.checks, 1,
        "eight holes in one file must cost exactly one cargo check"
    );
}

#[test]
fn probing_hole_by_hole_costs_one_check_each() {
    let mut tc = TempCrate::new("count-serial", EIGHT_HOLES);
    let holes = tc.holes();
    assert_eq!(holes.len(), 8);
    for hole in &holes {
        assert!(
            matches!(tc.probe(hole), ProbeOutcome::Known(_)),
            "each hole answers on its own too"
        );
    }
    assert_eq!(
        tc.checks, 8,
        "one check per hole is the cost the batch removes"
    );
}

#[test]
fn batch_probing_costs_one_check_per_file() {
    // Two files, two holes each: the batch pays per file, not per hole.
    let mut tc = TempCrate::new("count-files", "pub mod one;\npub mod two;\n");
    tc.write(
        "src/one.rs",
        "pub fn a() -> i64 {\n    todo!(\"spec: a\")\n}\n\n\
         pub fn b() -> bool {\n    todo!(\"spec: b\")\n}\n",
    );
    tc.write(
        "src/two.rs",
        "pub fn c() -> String {\n    todo!(\"spec: c\")\n}\n\n\
         pub fn d() -> Vec<u8> {\n    todo!(\"spec: d\")\n}\n",
    );
    let holes = tc.all_holes();
    assert_eq!(holes.len(), 4);
    let outcomes = tc.probe_all(&holes);
    assert!(
        outcomes.iter().all(|o| matches!(o, ProbeOutcome::Known(_))),
        "{outcomes:?}"
    );
    assert_eq!(
        tc.checks, 2,
        "two files must cost two checks, however many holes they hold"
    );
}

#[test]
fn batch_probing_costs_nothing_for_statements() {
    let mut tc = TempCrate::new(
        "count-stmt",
        "pub fn a() {\n    todo!(\"spec: a\");\n}\n\n\
         pub fn b() {\n    todo!(\"spec: b\");\n}\n",
    );
    let holes = tc.holes();
    assert_eq!(holes.len(), 2);
    let outcomes = tc.probe_all(&holes);
    assert!(
        outcomes
            .iter()
            .all(|o| matches!(o, ProbeOutcome::NoExpectation)),
        "{outcomes:?}"
    );
    assert_eq!(tc.checks, 0, "a statement needs no type at all");
}

#[test]
fn a_declined_hole_costs_one_extra_check() {
    // A batch that has to decline re-probes each undecided hole on its own.
    // `operator` makes `() + 1`, which is a hard error, so the batch declines it
    // and pays one more check -- while still answering `clean` correctly.
    let mut tc = TempCrate::new(
        "count-fallback",
        "pub fn clean() -> i64 {\n    todo!(\"spec: clean\")\n}\n\n\
         pub fn operator() -> u32 {\n    todo!(\"spec: operator\") + 1\n}\n",
    );
    let holes = tc.holes();
    assert_eq!(holes.len(), 2);
    let outcomes = tc.probe_all(&holes);
    assert!(
        matches!(&outcomes[0], ProbeOutcome::Known(t) if t == "i64"),
        "{outcomes:?}"
    );
    assert_eq!(tc.checks, 2, "one batch check, plus one for the declined hole");
}

#[test]
fn batch_probing_leaves_no_backups_behind() {
    let mut tc = TempCrate::new(
        "batch-clean",
        "pub fn a() -> i64 {\n    todo!(\"spec: one\")\n}\n\n\
         pub fn b() -> bool {\n    todo!(\"spec: two\")\n}\n",
    );
    let before = tc.files.clone();
    let _ = tc.probe_all(&tc.holes());
    assert_eq!(tc.files, before);
    assert!(
        !tc.has_backups(),
        "a batch must clean up every backup it wrote"
    );
}

// -- the compile gate ----------------------------------------------------------

#[test]
fn a_naive_root_check_would_accept_a_nonsense_artifact() {
    // The real source is left full of `todo!()`, which has type `!` and coerces
    // to anything, so the crate root compiles no matter what the model produced.
    let mut tc = TempCrate::new(
        "naive",
        "pub fn f() -> i64 {\n    todo!(\"spec: return the answer\")\n}\n",
    );

    // The crate as it stands (holes unelaborated) compiles: that is the trap.
    let naive = tc.verify(vec![]);
    assert!(naive.is_accepted(), "an unfilled tree compiles by design");

    // But the artifact is nonsense, and the compile gate must catch it.
    let decision = tc.verify(vec![tc.patch(&[Some("\"definitely not an i64\"")])]);
    assert!(
        decision.is_rejected(),
        "a gate that patches the artifact in must reject this: {decision:?}"
    );
    assert_eq!(
        decision.attributable().len(),
        1,
        "the error must be blamed on the hole: {decision:?}"
    );
    assert_eq!(
        decision.attributable()[0].hole.as_ref().unwrap().spec,
        "return the answer"
    );
}

#[test]
fn the_real_source_is_untouched_by_a_rejection() {
    let mut tc = TempCrate::new(
        "restore-reject",
        "pub fn f() -> i64 {\n    todo!(\"spec: answer\")\n}\n",
    );
    let before = tc.files.clone();

    let decision = tc.verify(vec![Patch::new(
        tc.lib(),
        "pub fn f() -> i64 {\n    \"nope\"\n}\n".to_string(),
    )]);

    assert!(decision.is_rejected(), "{decision:?}");
    assert_eq!(
        tc.files, before,
        "the source must be restored byte-for-byte, and no backup may be left behind"
    );
}

#[test]
fn a_good_artifact_is_accepted_and_the_source_is_restored() {
    let mut tc = TempCrate::new(
        "accept",
        "pub fn f() -> i64 {\n    todo!(\"spec: answer\")\n}\n",
    );
    let before = tc.files.clone();
    let decision = tc.verify(vec![tc.patch(&[Some("42")])]);
    assert!(decision.is_accepted(), "{decision:?}");
    assert_eq!(tc.files, before);
}

#[test]
fn several_answers_are_checked_in_one_gate() {
    let mut tc = TempCrate::new(
        "multi",
        "pub fn a() -> i64 {\n    todo!(\"spec: a\")\n}\n\n\
         pub fn b() -> bool {\n    todo!(\"spec: b\")\n}\n\n\
         pub fn c() -> String {\n    todo!(\"spec: c\")\n}\n",
    );
    let good = tc.patch(&[Some("1"), Some("true"), Some("String::new()")]);
    let decision = tc.verify(vec![good]);
    assert!(decision.is_accepted(), "{decision:?}");
    assert_eq!(tc.checks, 1);

    // One bad answer in the middle: the rejection must name that hole only.
    let mixed = tc.patch(&[Some("1"), Some("1 + 1"), Some("String::new()")]);
    let decision = tc.verify(vec![mixed]);
    assert!(decision.is_rejected(), "{decision:?}");
    let blamed = decision.attributable();
    assert_eq!(blamed.len(), 1, "{decision:?}");
    assert_eq!(blamed[0].hole.as_ref().unwrap().spec, "b");
}

#[test]
fn a_cross_file_dependency_is_checked_with_every_file_patched() {
    let mut tc = TempCrate::new("crossfile", "pub mod a;\npub mod b;\n");
    tc.write(
        "src/a.rs",
        "pub fn value() -> i64 {\n    todo!(\"spec: value\")\n}\n",
    );
    tc.write(
        "src/b.rs",
        "pub fn doubled() -> i64 {\n    todo!(\"spec: doubled\")\n}\n",
    );

    // `a` returns the wrong type; `b` is fine on its own.
    let a_bad = "pub fn value() -> i64 {\n    \"not an i64\"\n}\n";
    let b_good = "pub fn doubled() -> i64 {\n    21\n}\n";
    let decision = tc.verify(vec![
        Patch::new(tc.path("src/a.rs"), a_bad.to_string()),
        Patch::new(tc.path("src/b.rs"), b_good.to_string()),
    ]);
    assert!(
        decision.is_rejected(),
        "a bad answer in one file must fail the compile gate: {decision:?}"
    );
}

#[test]
fn an_empty_patch_list_is_accepted() {
    // Nothing was generated, so there is nothing to gate.
    let mut tc = TempCrate::new("empty", "pub fn f() -> i64 {\n    todo!(\"spec: x\")\n}\n");
    assert!(tc.verify(vec![]).is_accepted());
    assert_eq!(tc.checks, 0);
}

#[test]
fn an_unreadable_file_is_inconclusive_not_a_rejection() {
    // A missing file says nothing about whether the generated code is right, so
    // it must not be reported as a problem with the model's answer.
    let mut tc = TempCrate::new(
        "missing",
        "pub fn f() -> i64 {\n    todo!(\"spec: x\")\n}\n",
    );
    let before = tc.files.clone();
    let good = tc.patch(&[Some("42")]);
    let absent = Patch::new(tc.path("src/nope.rs"), "pub fn g() {}\n".to_string());
    let decision = tc.verify(vec![good, absent]);
    assert!(
        matches!(decision, Verdict::Inconclusive { .. }),
        "{decision:?}"
    );
    assert_eq!(tc.files, before, "what was patched before it is put back");
}

#[test]
fn an_unparseable_artifact_is_rejected() {
    let mut tc = TempCrate::new("syntax", "pub fn f() -> i64 {\n    todo!(\"spec: x\")\n}\n");
    let decision = tc.verify(vec![Patch::new(
        tc.lib(),
        "pub fn f() -> i64 { !!! }\n".to_string(),
    )]);
    assert!(decision.is_rejected(), "{decision:?}");
}

#[test]
fn a_cargo_that_cannot_run_says_nothing_about_the_answers() {
    let mut tc = TempCrate::new("nogate", "pub fn f() -> i64 {\n    todo!(\"spec: x\")\n}\n");
    let before = tc.files.clone();
    tc.broken = Some("cannot run `cargo`".to_string());
    let decision = tc.verify(vec![tc.patch(&[Some("42")])]);
    match &decision {
        Verdict::Inconclusive { reason } => assert!(reason.contains("cannot run"), "{reason}"),
        other => panic!("{other:?}"),
    }
    assert_eq!(tc.files, before);
}

#[test]
fn an_error_outside_generated_code_is_not_blamed_on_a_hole() {
    let mut tc = TempCrate::new(
        "preexisting",
        "pub fn broken() -> i64 {\n    \"already wrong\"\n}\n\n\
         pub fn f() -> i64 {\n    todo!(\"spec: answer\")\n}\n",
    );
    let decision = tc.verify(vec![tc.patch(&[Some("42")])]);

    assert!(decision.is_rejected(), "{decision:?}");
    assert!(
        decision.attributable().is_empty(),
        "the answer was correct, so nothing may be blamed on it: {decision:?}"
    );
    assert_eq!(decision.pre_existing().len(), 1, "{decision:?}");
    assert!(
        decision.label().contains("before this run"),
        "{}",
        decision.label()
    );
}

#[test]
fn a_region_claims_a_diagnostic_inside_it() {
    let tc = TempCrate::new("region", "pub fn f() -> i64 {\n    todo!(\"spec: x\")\n}\n");
    let patch = tc.patch(&[Some("1 + 1")]);
    let r = &patch.regions[0];
    assert_eq!(r.byte_end - r.byte_start, "1 + 1".len());
    assert_eq!(patch.region_at(r.byte_start).unwrap().hole.spec, "x");
    assert_eq!(patch.region_at(r.byte_end).unwrap().hole.spec, "x");
}

#[test]
fn a_region_claims_a_span_that_runs_just_past_it() {
    // rustc often spans the following token as well as the offending expression,
    // so a byte right after the region must still resolve.
    let tc = TempCrate::new("past", "pub fn f() -> i64 {\n    todo!(\"spec: x\")\n}\n");
    let patch = tc.patch(&[Some("1 + 1")]);
    let end = patch.regions[0].byte_end;
    assert!(patch.region_at(end + 1).is_some(), "one past is still ours");
    assert!(
        patch.region_at(end + NEAR_MISS + 1).is_none(),
        "but the window must stay tight"
    );
}

#[test]
fn attribution_picks_the_right_hole_among_several() {
    let tc = TempCrate::new(
        "pick",
        "pub fn a() -> i64 {\n    todo!(\"spec: a\")\n}\n\n\
         pub fn b() -> bool {\n    todo!(\"spec: b\")\n}\n",
    );
    let patch = tc.patch(&[Some("1 + 1"), Some("2 + 2")]);
    assert_eq!(
        patch
            .region_at(patch.regions[1].byte_start)
            .unwrap()
            .hole
            .spec,
        "b"
    );
    assert_eq!(
        patch
            .region_at(patch.regions[0].byte_start)
            .unwrap()
            .hole
            .spec,
        "a"
    );
}

#[test]
fn a_long_answer_does_not_shift_blame_onto_the_next_hole() {
    // Answer `a` is much longer than the `todo!(...)` it replaced, so hole `b`
    // moves right. If the regions were computed from anything but the splice that
    // produced the text, the error in `b` would be blamed on `a`.
    let mut tc = TempCrate::new(
        "shift",
        "pub fn a() -> i64 {\n    todo!(\"spec: a\")\n}\n\n\
         pub fn b() -> bool {\n    todo!(\"spec: b\")\n}\n",
    );
    // A long but correct answer for `a`, and a wrong one for `b`.
    let long_ok = "1i64 + 2i64 + 3i64 + 4i64 + 5i64";
    let patch = tc.patch(&[Some(long_ok), Some("1 + 1")]);

    let decision = tc.verify(vec![patch]);
    assert!(decision.is_rejected(), "{decision:?}");
    let blamed = decision.attributable();
    assert_eq!(
        blamed.len(),
        1,
        "exactly one answer is at fault: {decision:?}"
    );
    assert_eq!(
        blamed[0].hole.as_ref().unwrap().spec,
        "b",
        "the shifted hole must still get the blame"
    );
}

#[test]
fn an_unfilled_hole_contributes_no_region() {
    // A pinned or unfillable hole keeps its `todo!()`, which compiles. It must
    // not become a region, or an error near it would be blamed on an answer that
    // was never generated.
    let mut tc = TempCrate::new(
        "unfilled",
        "pub fn a() -> i64 {\n    todo!(\"spec: a\")\n}\n\n\
         pub fn b() -> bool {\n    todo!(\"spec: b\")\n}\n",
    );
    let patch = tc.patch(&[None, Some("1 + 1")]);
    assert_eq!(patch.regions.len(), 1, "only the filled hole is a region");
    assert_eq!(patch.regions[0].hole.spec, "b");
    assert!(
        patch.checked.contains("todo!(\"spec: a\")"),
        "a stays unelaborated"
    );

    let decision = tc.verify(vec![patch]);
    assert!(decision.is_rejected(), "{decision:?}");
    assert_eq!(decision.attributable()[0].hole.as_ref().unwrap().spec, "b");
}

#[test]
fn splice_refuses_a_stale_span() {
    let tc = TempCrate::new(
        "stale-v",
        "pub fn f() -> i64 {\n    todo!(\"spec: x\")\n}\n",
    );
    let shifted = format!("// shifted\n{}", tc.text(&tc.lib()));
    let holes = tc.holes();
    let pairs: Vec<(&Hole, Option<&str>)> = holes.iter().map(|h| (h, Some("1"))).collect();
    let err = Patch::splice(tc.lib(), &shifted, &pairs).unwrap_err();
    assert!(err.contains("no longer starts"), "{err}");
}

#[test]
fn describe_prefers_the_span_label() {
    let d = Diagnostic {
        code: Some("E0308".to_string()),
        level: "error".to_string(),
        message: "mismatched types".to_string(),
        spans: vec![Span {
            file_name: "src/lib.rs".to_string(),
            byte_start: 0,
            byte_end: 2,
            is_primary: true,
            label: Some("expected `i64`, found `&str`".to_string()),
        }],
    };
    let text = describe(&d);
    assert!(text.contains("E0308"), "{text}");
    assert!(text.contains("expected `i64`"), "{text}");
}

#[test]
fn a_label_that_repeats_the_headline_is_left_out() {
    let d = |message: &str, label: Option<&str>| Diagnostic {
        code: Some("E0425".to_string()),
        level: "error".to_string(),
        message: message.to_string(),
        spans: vec![Span {
            file_name: "src/lib.rs".to_string(),
            byte_start: 0,
            byte_end: 2,
            is_primary: true,
            label: label.map(|l| l.to_string()),
        }],
    };
    assert_eq!(describe(&d("not found", Some("not found"))), "E0425: not found");
    assert_eq!(describe(&d("not found", Some("here"))), "E0425: not found: here");
    assert_eq!(describe(&d("not found", Some(""))), "E0425: not found");
    assert_eq!(describe(&d("not found", None)), "E0425: not found");
}

#[test]
fn a_verdict_reports_what_can_and_cannot_be_retried() {
    let hole = Hole {
        file: "/c/src/lib.rs".to_string(),
        byte_start: 0,
        byte_end: 5,
        spec: "x".to_string(),
        fn_sig: "fn f() -> i64".to_string(),
        fn_name: "f".to_string(),
        impl_ctx: None,
        line: 1,
        column: 1,
        macro_name: "todo".to_string(),
        position: HolePosition::Expression,
        pinned: false,
        unresolvable: None,
    };
    let mk = |hole: Option<Hole>| Failure {
        hole,
        file: "/c/src/lib.rs".to_string(),
        message: "mismatched types".to_string(),
        code: Some("E0308".to_string()),
    };
    let decision = Verdict::Rejected {
        failures: vec![mk(Some(hole.clone())), mk(None)],
    };
    assert_eq!(decision.attributable().len(), 1);
    assert_eq!(decision.pre_existing().len(), 1);
    assert!(
        decision.label().contains("generated answer"),
        "{}",
        decision.label()
    );
    assert_eq!(
        decision.pre_existing()[0].label(),
        "/c/src/lib.rs: mismatched types",
        "an error that is no answer's names its file"
    );
    assert_eq!(
        decision.attributable()[0].label(),
        "/c/src/lib.rs:1: mismatched types"
    );
}

/// The compile gate must never let a bad answer become a ledger entry.
#[test]
fn a_rejected_answer_is_never_recorded() {
    let mut tc = TempCrate::new(
        "ledger",
        "pub fn f() -> i64 {\n    todo!(\"spec: answer\")\n}\n",
    );
    let hole = tc.holes().remove(0);
    let mut ledger = String::new();

    // A wrong answer, as a model might return it.
    let decision = tc.verify(vec![tc.patch(&[Some("\"not an i64\"")])]);
    assert!(decision.is_rejected(), "{decision:?}");

    // Record only on acceptance.
    if decision.is_accepted() {
        let (mut storage, _) = Storage::open(&tc.dir, Some(&ledger));
        ledger.push_str(&storage.put(&hole.hash_key(), "\"not an i64\""));
    }

    let (storage, _) = Storage::open(&tc.dir, Some(&ledger));
    assert!(
        storage.get(&hole.hash_key()).is_none(),
        "a rejected answer must not be replayable"
    );

    // And the correct answer does get recorded, so the compile gate is not simply
    // refusing everything.
    let decision = tc.verify(vec![tc.patch(&[Some("42")])]);
    assert!(decision.is_accepted(), "{decision:?}");
    let (mut storage, _) = Storage::open(&tc.dir, Some(&ledger));
    ledger.push_str(&storage.put(&hole.hash_key(), "42"));
    let (storage, _) = Storage::open(&tc.dir, Some(&ledger));
    assert_eq!(storage.get(&hole.hash_key()), Some("42"));
}

/// A poisoned ledger must be caught, not replayed.
#[test]
fn a_poisoned_ledger_entry_is_caught_by_the_gate() {
    let mut tc = TempCrate::new(
        "poison",
        "pub fn f() -> i64 {\n    todo!(\"spec: answer\")\n}\n",
    );
    let hole = tc.holes().remove(0);

    let mut ledger = String::new();
    {
        let (mut storage, _) = Storage::open(&tc.dir, None);
        ledger.push_str(&storage.put(&hole.hash_key(), "missing_ident"));
    }
    let (storage, _) = Storage::open(&tc.dir, Some(&ledger));
    let replayed = storage.get(&hole.hash_key()).expect("the poison is in");
    assert_eq!(replayed, "missing_ident");

    // What the ledger gave is spliced, and the result is gated.
    let decision = tc.verify(vec![tc.patch(&[Some(replayed)])]);
    assert!(
        decision.is_rejected(),
        "the compile gate must reject a tree built from a bad ledger entry: {decision:?}"
    );
    assert_eq!(
        decision.attributable().len(),
        1,
        "and it must name the hole responsible: {decision:?}"
    );
    assert_eq!(
        decision.attributable()[0].hole.as_ref().unwrap().spec,
        "answer"
    );
}

#[test]
fn the_source_survives_every_verdict() {
    let mut tc = TempCrate::new(
        "survive",
        "pub fn a() -> i64 {\n    todo!(\"spec: a\")\n}\n\n\
         pub fn b() -> bool {\n    todo!(\"spec: b\")\n}\n",
    );
    let before = tc.files.clone();

    let good = tc.verify(vec![tc.patch(&[Some("1"), Some("true")])]);
    assert!(good.is_accepted(), "{good:?}");
    assert_eq!(tc.files, before, "after acceptance");

    let bad = tc.verify(vec![tc.patch(&[Some("1"), Some("1 + 1")])]);
    assert!(bad.is_rejected(), "{bad:?}");
    assert_eq!(tc.files, before, "after rejection");
}

#[test]
fn unfilled_holes_do_not_fail_the_gate() {
    let mut tc = TempCrate::new(
        "partial",
        "pub fn a() -> i64 {\n    todo!(\"spec: a\")\n}\n\n\
         pub fn b() -> bool {\n    todo!(\"spec: b\")\n}\n",
    );

    let decision = tc.verify(vec![tc.patch(&[Some("1"), None])]);
    assert!(
        decision.is_accepted(),
        "an unelaborated hole compiles, so it must not fail the compile gate: {decision:?}"
    );

    // But a *wrong* answer next to an unfilled hole is still caught.
    let decision = tc.verify(vec![tc.patch(&[Some("\"nope\""), None])]);
    assert!(decision.is_rejected(), "{decision:?}");
    assert_eq!(decision.attributable()[0].hole.as_ref().unwrap().spec, "a");
}

#[test]
fn the_gate_blames_the_wrong_answer_only() {
    let mut tc = TempCrate::new(
        "blame",
        "pub fn a() -> i64 {\n    todo!(\"spec: a\")\n}\n\n\
         pub fn b() -> bool {\n    todo!(\"spec: b\")\n}\n\n\
         pub fn c() -> String {\n    todo!(\"spec: c\")\n}\n",
    );

    // `a` and `c` are right, `b` is not.
    let decision = tc.verify(vec![tc.patch(&[
        Some("7"),
        Some("7"),
        Some("String::new()"),
    ])]);

    assert!(decision.is_rejected(), "{decision:?}");
    let blamed = decision.attributable();
    assert_eq!(
        blamed.len(),
        1,
        "exactly one answer is at fault: {decision:?}"
    );
    assert_eq!(blamed[0].hole.as_ref().unwrap().spec, "b");
    assert!(decision.pre_existing().is_empty(), "{decision:?}");
}

#[test]
fn a_bad_answer_in_any_file_fails_the_whole_tree() {
    let mut tc = TempCrate::new("twofiles", "pub mod a;\npub mod b;\n");
    tc.write(
        "src/a.rs",
        "pub fn value() -> i64 {\n    todo!(\"spec: value\")\n}\n",
    );
    tc.write(
        "src/b.rs",
        "pub fn flag() -> bool {\n    todo!(\"spec: flag\")\n}\n",
    );
    let before = tc.files.clone();

    let patch_for = |tc: &TempCrate, name: &str, spec: &str, answer: &str| {
        let file = tc.path(name);
        let src = tc.text(&file);
        let holes = holes_in(&file, &src);
        let hole = holes.iter().find(|h| h.spec == spec).expect("the hole");
        Patch::splice(file, &src, &vec![(hole, Some(answer))]).expect("splice")
    };

    // `a` is fine, `b` is not.
    let patches = vec![
        patch_for(&tc, "src/a.rs", "value", "1"),
        patch_for(&tc, "src/b.rs", "flag", "1 + 1"),
    ];
    let decision = tc.verify(patches);

    assert!(decision.is_rejected(), "{decision:?}");
    let blamed = decision.attributable();
    assert_eq!(blamed.len(), 1, "{decision:?}");
    assert_eq!(blamed[0].hole.as_ref().unwrap().spec, "flag");
    assert_eq!(tc.files, before, "both files restored");
}

#[test]
fn an_already_broken_crate_is_not_blamed_on_the_model() {
    let mut tc = TempCrate::new(
        "already-broken",
        "pub fn broken() -> i64 {\n    \"pre-existing\"\n}\n\n\
         pub fn f() -> i64 {\n    todo!(\"spec: answer\")\n}\n",
    );

    let decision = tc.verify(vec![tc.patch(&[Some("42")])]);

    assert!(decision.is_rejected(), "{decision:?}");
    assert!(
        decision.attributable().is_empty(),
        "the answer was correct: {decision:?}"
    );
    assert_eq!(decision.pre_existing().len(), 1, "{decision:?}");
    assert!(
        decision.label().contains("before this run"),
        "{}",
        decision.label()
    );
}

#[test]
fn verdict_helpers_agree_with_the_variant() {
    let accepted = Verdict::Accepted;
    assert!(accepted.is_accepted() && !accepted.is_rejected());
    assert!(accepted.attributable().is_empty());
    assert_eq!(accepted.label(), "verified");

    let inconclusive = Verdict::Inconclusive {
        reason: "cargo is not installed".to_string(),
    };
    assert!(!inconclusive.is_accepted() && !inconclusive.is_rejected());
    assert!(inconclusive.label().contains("not verified"));
}

// -- whole runs --------------------------------------------------------

/// What a run wrote, recorded and said.
struct Outcome {
    run: FillRun,
    written: Vec<(String, String)>,
    recorded: Vec<(String, String)>,
    said: Vec<String>,
    summary: String,
}

/// Fill the holes of the crate: from the ledger, or from `model`, which is given a
/// spec and whether it is asked again.
fn fill(
    tc: &mut TempCrate,
    storage: &Storage,
    ungated: bool,
    model: &dyn Fn(&str, bool) -> Result<(String, u32), String>,
) -> Outcome {
    let mut said = Vec::new();
    let mut written = Vec::new();
    let mut recorded = Vec::new();
    let files = files_to_fill(&tc.all_holes());
    let mut step = Filling::begin(FillTask { files, ungated });
    loop {
        said.append(&mut step.said);
        let event = match step.action {
            FillAction::Read { file } => FillEvent::Text(tc.text(&file)),
            FillAction::Ask { hole } => FillEvent::Answered(model(&hole.spec, false)),
            FillAction::Gate { patches } => FillEvent::Gated(tc.verify(patches)),
            FillAction::Reask { hole, errors } => {
                assert!(!errors.is_empty());
                FillEvent::Answered(model(&hole.spec, true))
            }
            FillAction::Write { file, text } => {
                written.push((file, text));
                FillEvent::Written
            }
            FillAction::Record { key, code } => {
                recorded.push((key, code));
                FillEvent::Recorded
            }
            FillAction::Done { summary } => {
                let run = step.filling.run;
                return Outcome { run, written, recorded, said, summary };
            }
            FillAction::Fail { message } => panic!("{message}"),
        };
        step = step.filling.step(storage, event);
    }
}

const ANSWER: &str = "pub fn answer() -> i64 {\n    todo!(\"spec: return 42\")\n}\n";

/// A ledger that answers every hole of `lib.rs` with `code`.
fn seeded(tc: &TempCrate, code: &str) -> Storage {
    let (mut storage, _) = Storage::open(&tc.dir, None);
    for hole in tc.holes() {
        storage.put(&hole.hash_key(), code);
    }
    storage
}

#[test]
fn a_rejected_answer_is_never_written_in_place() {
    let mut tc = TempCrate::new("inplace", ANSWER);
    let before = tc.files.clone();
    let storage = seeded(&tc, "missing_ident");
    let out = fill(&mut tc, &storage, false, &|_, _| Err("no model".to_string()));
    // Asked again, the model has nothing better, so the hole stays open: that
    // compiles, and the rejected answer is nowhere.
    assert_eq!(out.written, vec![(tc.lib(), ANSWER.to_string())]);
    assert_eq!(tc.files, before);
    assert_eq!(out.run.cached, 1);
    assert!(out.recorded.is_empty());
    assert!(
        out.said.iter().any(|m| m.contains("still cannot fill")),
        "{:?}",
        out.said
    );
}

#[test]
fn an_accepted_answer_is_written_and_recorded() {
    let mut tc = TempCrate::new("accepted", ANSWER);
    let (storage, _) = Storage::open(&tc.dir, None);
    let out = fill(&mut tc, &storage, false, &|_, _| Ok(("42".to_string(), 1)));
    assert_eq!(
        out.written,
        vec![(tc.lib(), "pub fn answer() -> i64 {\n    42\n}\n".to_string())]
    );
    let key = tc.hole().hash_key();
    assert_eq!(out.recorded, vec![(key, "42".to_string())]);
    assert_eq!(
        out.summary,
        "\n1 filled, 0 cached, 0 not filled, 0 skipped (1 model call(s))\n\
         1 answer(s) recorded in the ledger\n"
    );
}

#[test]
fn no_verify_writes_no_ledger_entry() {
    let mut tc = TempCrate::new("noverify", ANSWER);
    let (storage, _) = Storage::open(&tc.dir, None);
    let out = fill(&mut tc, &storage, true, &|_, _| Ok(("42".to_string(), 1)));
    assert!(out.recorded.is_empty(), "--no-verify must not record");
    assert_eq!(out.written.len(), 1);
    assert!(out.said[0].contains("--no-verify"), "{:?}", out.said);
    assert_eq!(tc.checks, 0);
}

#[test]
fn an_already_broken_crate_blames_no_answer() {
    let src = format!("pub fn broken() -> i64 {{\n    \"not an i64\"\n}}\n\n{ANSWER}");
    let mut tc = TempCrate::new("broken-fill", &src);
    let storage = seeded(&tc, "42");
    let out = fill(&mut tc, &storage, false, &|_, _| Err("no model".to_string()));
    assert!(
        out.written.is_empty(),
        "the correct answer must not be written while the crate is broken"
    );
    assert_eq!(out.said.len(), 2, "{:?}", out.said);
    assert!(out.said[0].contains("already broken"), "{:?}", out.said);
    assert_eq!(
        out.said[1],
        "error: the crate did not compile, and not because of a generated answer; nothing was \
         written"
    );
    assert_eq!(out.run.retried, 0);
}

#[test]
fn a_rejected_answer_is_asked_for_again_and_only_that_one() {
    let mut tc = TempCrate::new(
        "retry",
        "pub fn a() -> i64 {\n    todo!(\"spec: a\")\n}\n\n\
         pub fn b() -> bool {\n    todo!(\"spec: b\")\n}\n",
    );
    let (storage, _) = Storage::open(&tc.dir, None);
    let out = fill(&mut tc, &storage, false, &|spec, again| {
        assert!(!again || spec == "b", "only `b` was rejected");
        let code = match (spec, again) {
            ("a", _) => "1",
            (_, false) => "1 + 1",
            _ => "true",
        };
        Ok((code.to_string(), 1))
    });
    let keys: Vec<String> = tc.holes().iter().map(|h| h.hash_key()).collect();
    assert_eq!(
        out.recorded,
        vec![
            (keys[0].clone(), "1".to_string()),
            (keys[1].clone(), "true".to_string())
        ],
        "the rejected answer is gone, and the better one recorded"
    );
    assert_eq!(
        out.summary,
        "\n2 filled, 0 cached, 0 not filled, 0 skipped (3 model call(s))\n\
         re-asked for 1 answer(s) across 1 extra round(s) after the compile gate rejected them\n\
         2 answer(s) recorded in the ledger\n"
    );
}

#[test]
fn a_pinned_hole_is_not_asked_for_with_its_rejected_twin() {
    let src = "pub fn a() -> i64 {\n    todo!(\"spec: a\")\n}\n\n\
               pub fn a() -> i64 {\n    // hole:pinned\n    todo!(\"spec: a\")\n}\n";
    let mut tc = TempCrate::new("twin", src);
    let holes = tc.holes();
    assert_eq!(holes[0].hash_key(), holes[1].hash_key());
    assert!(!holes[0].pinned && holes[1].pinned);
    let (storage, _) = Storage::open(&tc.dir, None);
    let out = fill(&mut tc, &storage, false, &|_, again| {
        let code = if again { "1" } else { "missing_ident" };
        Ok((code.to_string(), 1))
    });
    assert_eq!(
        out.written,
        vec![(tc.lib(), src.replacen("todo!(\"spec: a\")", "1", 1))],
        "the pinned one keeps its text"
    );
    assert_eq!(
        out.summary,
        "\n1 filled, 0 cached, 0 not filled, 1 skipped (2 model call(s))\n\
         re-asked for 1 answer(s) across 1 extra round(s) after the compile gate rejected them\n\
         1 answer(s) recorded in the ledger\n"
    );
}

#[test]
fn a_hole_the_model_cannot_get_right_ends_the_run() {
    let mut tc = TempCrate::new("give-up", ANSWER);
    let (storage, _) = Storage::open(&tc.dir, None);
    let out = fill(&mut tc, &storage, false, &|_, _| {
        Ok(("missing_ident".to_string(), 1))
    });
    assert!(out.written.is_empty());
    assert!(out.recorded.is_empty());
    assert_eq!(out.run.rounds, 2);
    assert_eq!(
        out.said[0],
        "warning: giving up after 2 round(s); 1 answer(s) still do not compile"
    );
    assert!(
        out.said[1].ends_with("did not compile and was not written"),
        "{:?}",
        out.said
    );
}

#[test]
fn a_pin_is_never_routed_around() {
    let mut tc = TempCrate::new(
        "pinned",
        "pub fn answer() -> i64 {\n    // hole:pinned\n    todo!(\"spec: return 42\")\n}\n",
    );
    assert!(tc.hole().pinned);
    let storage = seeded(&tc, "42");
    let before = tc.text(&tc.lib());
    let out = fill(&mut tc, &storage, false, &|_, _| Ok(("43".to_string(), 1)));
    assert_eq!(out.written, vec![(tc.lib(), before)]);
    assert_eq!(out.run.skipped, 1);
    assert_eq!(out.run.cached, 0);
}

#[test]
fn a_second_run_over_an_unchanged_crate_costs_nothing() {
    let mut tc = TempCrate::new(
        "again",
        "pub fn a() -> i64 {\n    todo!(\"spec: a\")\n}\n\n\
         pub fn b() -> bool {\n    todo!(\"spec: b\")\n}\n",
    );
    let (mut storage, _) = Storage::open(&tc.dir, None);
    let first = fill(&mut tc, &storage, false, &|spec, _| {
        let code = if spec == "a" { "1" } else { "true" };
        Ok((code.to_string(), 1))
    });
    for (key, code) in &first.recorded {
        storage.put(key, code);
    }
    let second = fill(&mut tc, &storage, false, &|_, _| panic!("the model was asked"));
    assert_eq!(second.written, first.written);
    assert!(second.recorded.is_empty());
    assert_eq!(
        second.summary,
        "\n0 filled, 2 cached, 0 not filled, 0 skipped (0 model call(s))\n"
    );
}

#[test]
fn an_unreadable_file_or_disk_ends_the_run() {
    let tc = TempCrate::new("fails", ANSWER);
    let (storage, _) = Storage::open(&tc.dir, None);
    let task = || FillTask {
        files: files_to_fill(&tc.all_holes()),
        ungated: true,
    };
    let step = Filling::begin(task());
    let step = step
        .filling
        .step(&storage, FillEvent::ReadFailed("gone".to_string()));
    assert!(
        matches!(&step.action, FillAction::Fail { message } if *message == format!("cannot read {}: gone", tc.lib()))
    );

    let step = Filling::begin(task());
    let step = step.filling.step(&storage, FillEvent::Text(ANSWER.to_string()));
    assert!(matches!(&step.action, FillAction::Ask { hole } if hole.spec == "return 42"));
    let step = step
        .filling
        .step(&storage, FillEvent::Answered(Err("no reply".to_string())));
    assert_eq!(
        step.said[0],
        format!("warning: skipping {}:2: no reply", tc.lib())
    );
    assert!(matches!(&step.action, FillAction::Write { text, .. } if text == ANSWER));
    let step = step
        .filling
        .step(&storage, FillEvent::WriteFailed("disk full".to_string()));
    assert!(matches!(&step.action, FillAction::Fail { message } if message == "disk full"));
    let step = step.filling.step(&storage, FillEvent::Written);
    assert!(matches!(step.action, FillAction::Fail { .. }), "nothing follows the end");
}

#[test]
fn several_files_are_filled_as_one_tree() {
    let mut tc = TempCrate::new("two-files", "pub mod a;\npub mod b;\n");
    tc.write("src/b.rs", "pub fn b() -> bool {\n    todo!(\"spec: b\")\n}\n");
    tc.write("src/a.rs", "pub fn a() -> i64 {\n    todo!(\"spec: a\")\n}\n");
    let (storage, _) = Storage::open(&tc.dir, None);
    let out = fill(&mut tc, &storage, false, &|spec, _| {
        let code = if spec == "a" { "1" } else { "true" };
        Ok((code.to_string(), 2))
    });
    assert_eq!(
        out.written,
        vec![
            (tc.path("src/a.rs"), "pub fn a() -> i64 {\n    1\n}\n".to_string()),
            (tc.path("src/b.rs"), "pub fn b() -> bool {\n    true\n}\n".to_string()),
        ]
    );
    assert_eq!(tc.checks, 1, "one check covers the whole tree");
    assert_eq!(
        out.summary,
        "\n2 filled, 0 cached, 0 not filled, 0 skipped (4 model call(s))\n\
         2 answer(s) recorded in the ledger\n"
    );
}

// -- finding holes -----------------------------------------------------

#[test]
fn every_position_is_told_apart() {
    let holes = holes_in(
        "/c/src/lib.rs",
        "fn stmt() {\n    todo!(\"spec: statement position\");\n}\n\
         fn tail() -> u32 {\n    todo!(\"spec: tail expression\")\n}\n\
         fn arg() -> u32 {\n    id(todo!(\"spec: argument position\"))\n}\n\
         fn macrobody() -> Vec<u32> {\n    vec![todo!(\"spec: inside a macro body\")]\n}\n\
         todo!(\"spec: an item\");\n",
    );
    let found: Vec<(&str, HolePosition)> =
        holes.iter().map(|h| (h.spec.as_str(), h.position)).collect();
    assert_eq!(
        found,
        vec![
            ("statement position", HolePosition::Statement),
            ("tail expression", HolePosition::Expression),
            ("argument position", HolePosition::Expression),
            ("inside a macro body", HolePosition::MacroBody),
            ("an item", HolePosition::Item),
        ]
    );
    assert_eq!(holes[1].fn_sig, "fn tail() -> u32");
    assert_eq!(holes[1].fn_name, "tail");
    assert_eq!((holes[1].line, holes[1].column), (5, 5));
    assert_eq!(holes[3].source_slice("x"), None);
}

#[test]
fn only_the_documented_shape_is_a_hole() {
    let holes = holes_in(
        "/c/src/lib.rs",
        "fn f() {\n    todo!();\n    todo!(\"later\");\n    todo! { \"spec: braces\" };\n    \
         todo!(\"spec: two\", 1);\n    todo!(\"spec:   \");\n    panic!(\"spec: no\");\n    \
         todo!(\"spec: comma\",);\n    unimplemented!(r#\"spec: raw \"quoted\"\"#);\n    \
         todo!(\"not a spec\", todo!(\"spec: nested\"));\n}\n",
    );
    let specs: Vec<&str> = holes.iter().map(|h| h.spec.as_str()).collect();
    assert_eq!(specs, vec!["comma", "raw \"quoted\"", "nested"]);
}

#[test]
fn pins_stand_directly_above_the_hole() {
    let pinned = |src: &str| holes_in("/c/src/lib.rs", src)[0].pinned;
    assert!(pinned("fn f() {\n    // hole:pinned\n    todo!(\"spec: x\");\n}\n"));
    assert!(pinned(
        "fn f() {\n    // hole:pinned\n\n    // by hand\n    todo!(\"spec: x\");\n}\n"
    ));
    assert!(!pinned("fn f() {\n    /* hole:pinned */\n    todo!(\"spec: x\");\n}\n"));
    assert!(!pinned("fn f() {\n    todo!(\"spec: x\"); // hole:pinned\n}\n"));
    assert!(pinned("fn f() {\n    #[pin]\n    todo!(\"spec: x\");\n}\n"));
    assert!(pinned("fn f() {\n    #[hole::pin]\n    todo!(\"spec: x\");\n}\n"));
    assert!(!pinned("fn f() {\n    todo!(\"spec: x\");\n}\n"));
}

#[test]
fn a_pin_on_an_enclosing_item_reaches_the_hole() {
    let pinned = |src: &str| {
        let flags: Vec<bool> = holes_in("/c/src/lib.rs", src)
            .iter()
            .map(|h| h.pinned)
            .collect();
        flags
    };
    assert_eq!(
        pinned("#[hole::pin]\nfn f() {\n    todo!(\"spec: x\");\n}\nfn g() {\n    todo!(\"spec: y\");\n}\n"),
        vec![true, false]
    );
    assert_eq!(
        pinned("#[pin]\nimpl T {\n    fn f() -> u32 {\n        todo!(\"spec: x\")\n    }\n}\n"),
        vec![true]
    );
    assert_eq!(
        pinned("#[hole::pin]\ntrait T {\n    fn f() -> u32 {\n        todo!(\"spec: x\")\n    }\n}\n"),
        vec![true]
    );
    assert_eq!(
        pinned("impl T {\n    #[pin]\n    fn f() -> u32 {\n        todo!(\"spec: x\")\n    }\n}\n"),
        vec![true]
    );
    assert_eq!(
        pinned("#[must_use]\nfn f() -> u32 {\n    todo!(\"spec: x\")\n}\n"),
        vec![false]
    );
}

#[test]
fn the_enclosing_items_are_recorded() {
    let holes = holes_in(
        "/c/src/lib.rs",
        "impl  Counter {\n    fn bump<T>(&mut self, by: T)\n    where\n        T: Copy,\n    {\n        \
         todo!(\"spec: bump\");\n    }\n}\ntrait Shape {\n    fn area(&self) -> u32 {\n        \
         todo!(\"spec: area\")\n    }\n}\n",
    );
    assert_eq!(holes[0].impl_ctx.as_deref(), Some("Counter"));
    assert_eq!(
        holes[0].fn_sig,
        "fn bump<T>(&mut self, by: T) where T: Copy,"
    );
    assert_eq!(holes[1].impl_ctx.as_deref(), Some("trait Shape"));
    assert_eq!(holes[1].fn_name, "area");
}

#[test]
fn a_file_that_does_not_parse_is_an_error() {
    assert_eq!(
        parse_source("/c/src/lib.rs", "fn f( {").err(),
        Some("error: failed to parse /c/src/lib.rs".to_string())
    );
}

#[test]
fn holes_of_a_crate_are_listed_by_file_and_position() {
    let a = holes_in(
        "/c/src/a.rs",
        "fn f() {\n    vec![todo!(\"spec: x\")];\n    todo!(\"spec: y\");\n}\n",
    );
    let b = holes_in("/c/src/b.rs", "fn g() {\n    todo!(\"spec: z\");\n}\n");
    let listed = Hole::list_holes(&vec![b, a]);
    let specs: Vec<&str> = listed.iter().map(|h| h.spec.as_str()).collect();
    assert_eq!(specs, vec!["x", "y", "z"]);
}
