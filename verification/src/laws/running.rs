//! How the tools around a crate are run, and how what they need is found and ordered.
use vstd::prelude::*;
use vstd::utf8::encode_utf8;

use crate::agent::codex::arguments;
use crate::cargo_check::{cargo_of, check_arguments_of, check_error, Output, ProberOptions};
use crate::gate::answer_error;
use crate::hole::HoleView;
use crate::laws::numbers::lemma_decimal_reads_back;
use crate::laws::places::{is_plain_name, lemma_add_name};
use crate::laws::sources::lemma_text_is_what_stands_there;
use crate::laws::text::lemma_trimmed_stays;
use crate::order::{lemma_order_is_stable, order_of, Key};
use crate::patching::span_error;
use crate::path::{path_less, components_less, components_of, text_less};
use crate::prober::{errors_of, summary_of_run, CheckRun};
use crate::render::{wants_color, width_of, ColorMode, Env};
use crate::text::{begins, decimal_of, is_blank, is_digit, is_space, join_of};
use crate::walk::{backup_target, enters, takes, EntryKind, Wanted};
use crate::wrap::cell_width;

verus! {

// ---------------------------------------------------------------------------
// Cargo and the CLI
// ---------------------------------------------------------------------------

/// A check asks cargo for its findings in JSON, goes to the network unless it was told not
/// to, and builds where it was told to.
pub proof fn lemma_check_does_what_it_is_told(dir: Option<Seq<char>>, offline: bool)
    ensures
        ({
            let args = check_arguments_of(dir, offline);
            &&& args.len() >= 3 && args[0] == "check"@
            &&& args.contains("--message-format=json"@)
            &&& args.contains("--quiet"@)
            &&& offline ==> args.last() == "--offline"@
            &&& !offline ==> args == check_arguments_of(dir, true).drop_last()
            &&& dir is None ==> !args.contains("--target-dir"@)
            &&& dir is Some ==> args.len() >= 5 && args[3] == "--target-dir"@ && args[4] == dir->0
        }),
{
    reveal_strlit("check");
    reveal_strlit("--message-format=json");
    reveal_strlit("--quiet");
    reveal_strlit("--offline");
    reveal_strlit("--target-dir");
    let args = check_arguments_of(dir, offline);
    assert(args[1] == "--message-format=json"@);
    assert(args[2] == "--quiet"@);
    assert(check_arguments_of(dir, true).drop_last() =~= check_arguments_of(dir, false));
    if dir is None {
        assert("--target-dir"@.len() == 12);
        assert("check"@.len() == 5);
        assert("--message-format=json"@.len() == 21);
        assert("--quiet"@.len() == 7);
        assert("--offline"@.len() == 9);
        assert forall|i: int| 0 <= i < args.len() implies #[trigger] args[i] != "--target-dir"@ by {
            assert(args[i].len() != 12);
        }
    }
}

/// A check has nothing to interpret when it did not finish, or when it failed and said
/// nothing; findings, or success, are always interpreted.
pub proof fn lemma_findings_are_interpreted(options: ProberOptions, root: Seq<char>, out: Output)
    ensures
        out.timed_out ==> check_error(options, root, out) is Some,
        !out.timed_out && out.stdout@.len() > 0 ==> check_error(options, root, out) is None,
        !out.timed_out && out.code == Some(0i32) ==> check_error(options, root, out) is None,
        !out.timed_out && out.code is Some && out.code != Some(0i32) && out.stdout@.len() == 0
            ==> check_error(options, root, out) is Some,
        cargo_of(None) == "cargo"@,
        cargo_of(Some(root)) == root,
{
}

/// The only error of a run is its summary, behind its code where it has one.
pub proof fn lemma_only_error_is_the_summary(run: CheckRun)
    requires
        errors_of(run.diagnostics@).len() == 1,
    ensures
        ({
            let e = errors_of(run.diagnostics@)[0];
            match e.code {
                Some(c) => summary_of_run(run) == "1 error(s): "@ + c@ + ": "@ + e.message@,
                None => summary_of_run(run) == "1 error(s): "@ + e.message@,
            }
        }),
{
    reveal_strlit("1 error(s): ");
    reveal_strlit(" error(s): ");
    let errs = errors_of(run.diagnostics@);
    let one = crate::prober::headlines(errs, 3);
    assert(one.len() == 1);
    assert(one.drop_last() =~= Seq::<Seq<char>>::empty());
    assert(join_of(one, "; "@) == one[0]);
    reveal_with_fuel(decimal_of, 2);
    assert(decimal_of(1) =~= seq!['1']);
    assert("1 error(s): "@ =~= decimal_of(1) + " error(s): "@);
    if let Some(c) = errs[0].code {
        let p = "1 error(s): "@;
        assert(p + (c@ + ": "@ + errs[0].message@) =~= p + c@ + ": "@ + errs[0].message@);
    }
}

/// The CLI is run where it can write nothing, reads its prompt from where it is piped, and
/// is told a model only if there is one.
pub proof fn lemma_cli_is_run_read_only(model: Seq<char>)
    ensures
        ({
            let args = arguments(model);
            &&& args[0] == "exec"@
            &&& args[1] == "--json"@
            &&& args[2] == "--sandbox"@ && args[3] == "read-only"@
            &&& args.last() == "-"@
            &&& is_blank(model) ==> args.len() == 8
            &&& !is_blank(model) ==> args.len() == 10 && args[7] == "--model"@ && args[8] == model
        }),
{
}

// ---------------------------------------------------------------------------
// Spans
// ---------------------------------------------------------------------------

/// A hole can be patched exactly where its macro still stands.
pub proof fn lemma_hole_is_patched_where_it_stands(
    a: Seq<char>,
    m: Seq<char>,
    b: Seq<char>,
    h: HoleView,
)
    requires
        h.byte_start == encode_utf8(a).len(),
        h.byte_end == encode_utf8(a).len() + encode_utf8(m).len(),
    ensures
        begins(m, h.macro_name) <==> span_error(a + m + b, h) is None,
        begins(m, h.macro_name) <==> answer_error(a + m + b, h) is None,
{
    lemma_text_is_what_stands_there(a, m, b);
}

/// A hole whose range is inverted, or runs past the end, is not patched.
pub proof fn lemma_no_patch_out_of_range(src: Seq<char>, h: HoleView)
    requires
        h.byte_start > h.byte_end || h.byte_end > encode_utf8(src).len(),
    ensures
        span_error(src, h) is Some,
        answer_error(src, h) is Some,
{
}

// ---------------------------------------------------------------------------
// The terminal
// ---------------------------------------------------------------------------

/// Colour is used when it is asked for; when nothing is asked for, only on a terminal that
/// can show it and whose user has not opted out.
pub proof fn lemma_colour_needs_a_terminal(env: Env)
    ensures
        wants_color(ColorMode::Always, env),
        !wants_color(ColorMode::Never, env),
        !env.is_tty ==> !wants_color(ColorMode::Auto, env),
        env.no_color is Some ==> !wants_color(ColorMode::Auto, env),
        env.term is Some && env.term->0@ == "dumb"@ ==> !wants_color(ColorMode::Auto, env),
        env.is_tty && env.no_color is None && (env.term is None || env.term->0@ != "dumb"@)
            ==> wants_color(ColorMode::Auto, env),
{
}

/// Lines are as wide as the terminal says it is, within bounds.
pub proof fn lemma_width_is_the_terminals(env: Env, n: nat)
    requires
        0 < n <= usize::MAX,
        env.columns is Some,
        env.columns->0@ == decimal_of(n),
    ensures
        40 <= n <= 200 ==> width_of(env) == n,
        n < 40 ==> width_of(env) == 40,
        n > 200 ==> width_of(env) == 200,
{
    let d = decimal_of(n);
    lemma_decimal_reads_back(n);
    assert(is_digit(d[0]));
    assert(is_digit(d[d.len() - 1]));
    assert(!is_space(d[0]) && !is_space(d.last()));
    lemma_trimmed_stays(d);
}

/// Without a usable hint lines are a hundred cells wide.
pub proof fn lemma_default_width(env: Env)
    requires
        env.columns is None,
    ensures
        width_of(env) == 100,
{
}

/// Letters and digits take one cell, Chinese characters two, control characters none.
pub proof fn lemma_characters_take_their_cells(c: char)
    ensures
        ' ' <= c <= '~' ==> cell_width(c) == 1,
        '\u{4e00}' <= c <= '\u{9fff}' ==> cell_width(c) == 2,
        '\u{ac00}' <= c <= '\u{d7a3}' ==> cell_width(c) == 2,
        c < ' ' ==> cell_width(c) == 0,
        '\u{300}' <= c <= '\u{36f}' ==> cell_width(c) == 0,
        cell_width(c) <= 2,
{
}

// ---------------------------------------------------------------------------
// The files of a crate
// ---------------------------------------------------------------------------

/// A source is a file that has a name before `.rs` and is not hidden.
pub proof fn lemma_sources_are_named_rs(stem: Seq<char>, name: Seq<char>)
    requires
        stem.len() > 0,
    ensures
        stem[0] != '.' ==> takes(Wanted::RustFiles, stem + ".rs"@, EntryKind::File),
        stem[0] == '.' ==> !takes(Wanted::RustFiles, stem + ".rs"@, EntryKind::File),
        !takes(Wanted::RustFiles, name, EntryKind::Other),
        takes(Wanted::RustFiles, name, EntryKind::File) ==> name.len() > 3 && name.skip(
            name.len() - 3,
        ) == ".rs"@,
{
    reveal_strlit(".");
    reveal_strlit(".rs");
    let s = stem + ".rs"@;
    assert(s.skip(s.len() - 3) =~= ".rs"@);
    assert(s[0] == stem[0]);
    if stem[0] == '.' {
        assert(s.take(1) =~= "."@);
    } else {
        assert(s.take(1)[0] != "."@[0]);
    }
}

/// Build output and hidden directories are not searched, nor is anything more than 32
/// levels down; every other directory is.
pub proof fn lemma_build_output_is_not_searched(name: Seq<char>, depth: int)
    requires
        name.len() > 0,
    ensures
        enters(Wanted::RustFiles, name, depth) <==> name[0] != '.' && name != "target"@ && name
            != "node_modules"@ && depth < 32,
        enters(Wanted::Backups, name, depth) <==> name[0] != '.' && name != "target"@,
{
    reveal_strlit(".");
    if name[0] == '.' {
        assert(name.take(1) =~= "."@);
    } else {
        assert(name.take(1)[0] != "."@[0]);
    }
}

/// A backup is told by its suffix, and belongs to the file named before it.
pub proof fn lemma_backup_belongs_to_its_file(file: Seq<char>)
    ensures
        backup_target(file + ".cargo-hole.bak"@) == Some(file),
        takes(Wanted::Backups, file + ".cargo-hole.bak"@, EntryKind::File),
        backup_target(file) is Some ==> file == backup_target(file)->0 + ".cargo-hole.bak"@,
{
    let suffix = ".cargo-hole.bak"@;
    let b = file + suffix;
    assert(b.skip(b.len() - suffix.len()) =~= suffix);
    assert(b.take(b.len() - suffix.len()) =~= file);
    if let Some(t) = backup_target(file) {
        assert(file =~= t + file.skip(t.len() as int));
    }
}

// ---------------------------------------------------------------------------
// Orders
// ---------------------------------------------------------------------------

/// Texts are ordered by the first character in which they differ, and a text comes before
/// what it begins.
pub proof fn lemma_first_difference_orders_texts(
    p: Seq<char>,
    x: char,
    s: Seq<char>,
    y: char,
    t: Seq<char>,
)
    requires
        x != y,
    ensures
        text_less(p + seq![x] + s, p + seq![y] + t) <==> x < y,
        text_less(p, p + seq![y] + t),
        !text_less(p + seq![x] + s, p),
        !text_less(p, p),
    decreases p.len(),
{
    let a = p + seq![x] + s;
    let b = p + seq![y] + t;
    if p.len() == 0 {
        assert(a[0] == x && b[0] == y);
    } else {
        let q = p.drop_first();
        lemma_first_difference_orders_texts(q, x, s, y, t);
        assert(a.drop_first() =~= q + seq![x] + s);
        assert(b.drop_first() =~= q + seq![y] + t);
        assert(a[0] == p[0] && b[0] == p[0]);
    }
}

proof fn lemma_common_components(base: Seq<Seq<char>>, a: Seq<char>, b: Seq<char>)
    requires
        is_plain_name(a),
        is_plain_name(b),
    ensures
        components_less(base.push(a), base.push(b)) == text_less(a, b),
    decreases base.len(),
{
    let x = base.push(a);
    let y = base.push(b);
    if base.len() == 0 {
        reveal_strlit("/");
        assert(a != "/"@) by {
            if a == "/"@ {
                assert(a[0] == '/');
                assert(a.contains('/'));
            }
        }
        assert(b != "/"@) by {
            if b == "/"@ {
                assert(b[0] == '/');
                assert(b.contains('/'));
            }
        }
        assert(x[0] == a && y[0] == b);
        reveal_with_fuel(components_less, 2);
        if a == b {
            lemma_text_is_not_before_itself(a);
            assert(x.drop_first() =~= Seq::<Seq<char>>::empty());
            assert(y.drop_first() =~= Seq::<Seq<char>>::empty());
        }
    } else {
        lemma_common_components(base.drop_first(), a, b);
        assert(x.drop_first() =~= base.drop_first().push(a));
        assert(y.drop_first() =~= base.drop_first().push(b));
        assert(x[0] == base[0] && y[0] == base[0]);
    }
}

proof fn lemma_text_is_not_before_itself(a: Seq<char>)
    ensures
        !text_less(a, a),
    decreases a.len(),
{
    if a.len() > 0 {
        lemma_text_is_not_before_itself(a.drop_first());
    }
}

/// Files of one directory are ordered by their names.
pub proof fn lemma_siblings_are_ordered_by_name(base: Seq<char>, a: Seq<char>, b: Seq<char>)
    requires
        base.len() > 0,
        base.last() != '/',
        is_plain_name(a),
        is_plain_name(b),
    ensures
        path_less(base + "/"@ + a, base + "/"@ + b) == text_less(a, b),
{
    lemma_add_name(base, a);
    lemma_add_name(base, b);
    lemma_common_components(components_of(base), a, b);
}

/// Sorting by keys lists every position once, by the first number of its key, then the
/// second, then the third, and then by where it stood.
pub proof fn lemma_sorting_goes_by_the_first_number(keys: Seq<Key>)
    requires
        keys.len() <= usize::MAX,
    ensures
        ({
            let order = order_of(keys);
            &&& order.len() == keys.len()
            &&& forall|p: usize| p < keys.len() ==> #[trigger] order.contains(p)
            &&& forall|i: int, j: int|
                0 <= i < j < order.len() ==> {
                    let a = keys[(#[trigger] order[i]) as int];
                    let b = keys[(#[trigger] order[j]) as int];
                    &&& a.0 <= b.0
                    &&& a.0 == b.0 ==> a.1 <= b.1
                    &&& a.0 == b.0 && a.1 == b.1 ==> a.2 <= b.2
                    &&& a == b ==> order[i] < order[j]
                }
        }),
{
    lemma_order_is_stable(keys, keys.len() as int);
}

} // verus!
