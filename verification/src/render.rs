//! Turning a list of holes into text for a terminal.
//!
//! Rendering is a pure function of the holes, the root and the options.
//! [`render_list`] is the only entry point the CLI uses.
//!
//! Two layouts share one model of a hole:
//!
//! - **plain**, the default, is the line-oriented format scripts parse.
//! - **pretty** (`--pretty`) groups holes by file and gives each one a small
//!   block, which is what you want when reading rather than grepping.
//!
//! Colour is never load-bearing. Every distinction it draws is also spelled out
//! in the text, so `--color never`, a pipe and a dumb terminal all lose nothing
//! but the emphasis.
use vstd::prelude::*;

use crate::hole::{
    clone_opt, hole_views, position_name, summary_of, Hole, HolePosition, HoleView,
};
use crate::path::{file_name, file_name_of, is_same_path, same_path};
use crate::text::{
    align_left, align_right, blank, decimal_of, decimal_usize, is_blank, join, join_of,
    left_aligned, lemma_decimal_is_short, owned, parse_u64, right_aligned, same, spaces, spaces_of,
    trim, trim_end, trim_end_of, trim_of, unsigned_of, views,
};
use crate::util::{display_rel_path, shown_path};
pub use crate::wrap::{char_width, text_width, wrap};
use crate::wrap::{cell_width, cells, lemma_cells_concat, lemma_wrapped_lines_fit, wrapped};

verus! {

/// Wrap width assumed when the terminal does not say how wide it is.
pub const DEFAULT_WIDTH: usize = 100;

/// Below this, columns are too cramped for the block layout to read as blocks.
pub const MIN_WIDTH: usize = 40;

/// Above this, prose becomes hard to track back to the next line.
pub const MAX_WIDTH: usize = 200;

/// When to use ANSI colour.
#[derive(Debug, Clone, Copy, PartialEq, Eq, Structural)]
pub enum ColorMode {
    /// Colour a terminal, stay plain when piped. The default.
    Auto,
    /// Always colour, for CI that captures output but shows it to a human.
    Always,
    /// Never colour.
    Never,
}

/// The few environment facts that affect rendering.
///
/// Gathered into a value rather than read at each use so that the decisions
/// built on it -- colour on or off, how wide to wrap -- are pure and testable.
#[derive(Debug, Default)]
pub struct Env {
    /// Whether stdout is a terminal.
    pub is_tty: bool,
    /// `NO_COLOR`, if set to a non-empty value. The de-facto opt-out.
    pub no_color: Option<String>,
    /// `TERM`, to catch `dumb`.
    pub term: Option<String>,
    /// `COLUMNS`, as a hint at the terminal's width.
    pub columns: Option<String>,
}

impl Clone for Env {
    fn clone(&self) -> (r: Self)
        ensures
            r == *self,
    {
        Env {
            is_tty: self.is_tty,
            no_color: clone_opt(&self.no_color),
            term: clone_opt(&self.term),
            columns: clone_opt(&self.columns),
        }
    }
}

/// Whether `mode` calls for colour.
pub open spec fn wants_color(mode: ColorMode, env: Env) -> bool {
    match mode {
        ColorMode::Always => true,
        ColorMode::Never => false,
        ColorMode::Auto => env.is_tty && env.no_color is None && crate::text::opt_view(env.term)
            != Some("dumb"@),
    }
}

/// Whether `mode` calls for colour in `env`.
///
/// `Always` really means always: an explicit flag is a stronger signal than any
/// environment guess, so `NO_COLOR` does not veto `--color always`. It does veto
/// `Auto`, because a program that has not been asked for colour should respect
/// the request not to have it.
pub fn color_enabled(mode: ColorMode, env: &Env) -> (r: bool)
    ensures
        r == wants_color(mode, *env),
{
    match mode {
        ColorMode::Always => true,
        ColorMode::Never => false,
        ColorMode::Auto => {
            // `dumb` terminals do not interpret escapes, and would show them as
            // literal `[1m` noise.
            let dumb = match &env.term {
                Some(t) => same(t.as_str(), "dumb"),
                None => false,
            };
            env.is_tty && env.no_color.is_none() && !dumb
        },
    }
}

/// A width kept between the narrowest and the widest.
pub open spec fn clamped(w: int) -> int {
    if w < MIN_WIDTH {
        MIN_WIDTH as int
    } else if w > MAX_WIDTH {
        MAX_WIDTH as int
    } else {
        w
    }
}

/// The width `COLUMNS` asks for, or the default where it asks for none.
pub open spec fn width_of(env: Env) -> int {
    match env.columns {
        None => clamped(DEFAULT_WIDTH as int),
        Some(c) => match unsigned_of(trim_of(c@), usize::MAX as nat) {
            Some(n) => if n == 0 {
                clamped(DEFAULT_WIDTH as int)
            } else {
                clamped(n as int)
            },
            None => clamped(DEFAULT_WIDTH as int),
        },
    }
}

/// How wide to wrap, from `COLUMNS` when it is usable.
///
/// Clamped rather than trusted: a stale or nonsensical `COLUMNS` should not
/// produce one-word-per-line output or an unreadably long line.
pub fn render_width(env: &Env) -> (r: usize)
    ensures
        r == width_of(*env),
        MIN_WIDTH <= r <= MAX_WIDTH,
{
    let mut w: u64 = 100;
    if let Some(c) = &env.columns {
        if let Some(n) = parse_u64(trim(c.as_str()).as_str()) {
            if n > 0 && n <= usize::MAX as u64 {
                w = n;
            }
        }
    }
    if w < 40 {
        MIN_WIDTH
    } else if w > 200 {
        MAX_WIDTH
    } else {
        w as usize
    }
}

/// How to render, with the environment already resolved.
#[derive(Debug, Clone, Copy)]
pub struct RenderOptions {
    /// Use the block layout instead of the line-oriented one.
    pub pretty: bool,
    /// Emit ANSI escapes.
    pub color: bool,
    /// Wrap width for the block layout.
    pub wrap_width: usize,
    /// Characters of spec text to show in the line-oriented layout, which
    /// truncates rather than wraps.
    pub spec_width: usize,
}

impl Default for RenderOptions {
    fn default() -> (r: Self)
        ensures
            r == (RenderOptions {
                pretty: false,
                color: false,
                wrap_width: DEFAULT_WIDTH,
                spec_width: 60,
            }),
    {
        RenderOptions { pretty: false, color: false, wrap_width: DEFAULT_WIDTH, spec_width: 60 }
    }
}

impl RenderOptions {
    /// Resolve `--pretty` and `--color` against `env`.
    ///
    /// `spec_width` is passed through from `--width`, which the line-oriented
    /// layout uses to bound a spec's one-line summary.
    pub fn resolve(pretty: bool, mode: ColorMode, env: &Env, spec_width: usize) -> (r: RenderOptions)
        ensures
            r.pretty == pretty,
            r.color == wants_color(mode, *env),
            r.wrap_width == width_of(*env),
            r.spec_width == spec_width,
    {
        RenderOptions {
            pretty,
            color: color_enabled(mode, env),
            wrap_width: render_width(env),
            spec_width,
        }
    }
}

// ---------------------------------------------------------------------------
// Status
// ---------------------------------------------------------------------------

/// What a hole's status is, as a reader should understand it.
///
/// Pinned and unresolvable are tracked separately because they are set
/// independently: a pinned hole whose byte range could not be resolved is both
/// facts at once, and collapsing them into one status would hide whichever
/// check ran second.
#[derive(Debug, Clone, Copy, PartialEq, Eq, Structural)]
pub struct Status {
    /// Hand-written, never regenerated.
    pub pinned: bool,
    /// Found, but its byte range could not be trusted.
    pub unresolvable: bool,
}

/// The handful of ANSI styles this module uses.
#[derive(Debug, Clone, Copy, PartialEq, Eq, Structural)]
pub enum Style {
    Bold,
    Dim,
    Yellow,
    Cyan,
    Red,
}

/// What switches a style on.
pub open spec fn style_code(s: Style) -> Seq<char> {
    match s {
        Style::Bold => "\x1b[1m"@,
        Style::Dim => "\x1b[2m"@,
        Style::Yellow => "\x1b[33m"@,
        Style::Cyan => "\x1b[36m"@,
        Style::Red => "\x1b[31m"@,
    }
}

/// `text`, painted when colour is on.
pub open spec fn painted(text: Seq<char>, style: Style, color: bool) -> Seq<char> {
    if color {
        style_code(style) + text + "\x1b[0m"@
    } else {
        text
    }
}

/// The status of a hole.
pub open spec fn status_of(h: HoleView) -> Status {
    Status { pinned: h.pinned, unresolvable: h.unresolvable is Some }
}

/// The word for a status in the block layout.
pub open spec fn status_word(s: Status) -> Seq<char> {
    if s.pinned && s.unresolvable {
        "pinned+unresolved"@
    } else if s.pinned {
        "pinned"@
    } else if s.unresolvable {
        "unresolvable"@
    } else {
        "open"@
    }
}

/// The word for a status in the line-oriented layout.
pub open spec fn plain_status_word(s: Status) -> Seq<char> {
    if s.unresolvable {
        "UNRESOLVABLE"@
    } else if s.pinned {
        "PINNED"@
    } else {
        "open"@
    }
}

/// The colour for a status.
pub open spec fn status_style(s: Status) -> Style {
    if s.unresolvable {
        Style::Red
    } else if s.pinned {
        Style::Cyan
    } else {
        Style::Yellow
    }
}

impl Style {
    /// What switches the style on.
    pub fn code(self) -> (r: &'static str)
        ensures
            r@ == style_code(self),
    {
        match self {
            Style::Bold => "\x1b[1m",
            Style::Dim => "\x1b[2m",
            Style::Yellow => "\x1b[33m",
            Style::Cyan => "\x1b[36m",
            Style::Red => "\x1b[31m",
        }
    }
}

impl Status {
    /// The status of `hole`.
    pub fn of(hole: &Hole) -> (r: Status)
        ensures
            r == status_of(hole@),
    {
        Status { pinned: hole.pinned, unresolvable: hole.unresolvable.is_some() }
    }

    /// The word shown in the status column.
    ///
    /// Lower case in the pretty layout, where the column is read as a label
    /// rather than shouted.
    pub fn word(self) -> (r: &'static str)
        ensures
            r@ == status_word(self),
    {
        match (self.pinned, self.unresolvable) {
            (false, false) => "open",
            (true, false) => "pinned",
            (false, true) => "unresolvable",
            (true, true) => "pinned+unresolved",
        }
    }

    /// The upper-case word used by the plain layout, which keeps its own
    /// spelling.
    pub fn plain_word(self) -> (r: &'static str)
        ensures
            r@ == plain_status_word(self),
    {
        if self.unresolvable {
            "UNRESOLVABLE"
        } else if self.pinned {
            "PINNED"
        } else {
            "open"
        }
    }

    /// The colour this status deserves.
    ///
    /// Yellow for `open`: unfinished work, which is expected, not a fault. Cyan
    /// for pinned: a deliberate decision. Red for unresolvable: something the
    /// tool cannot act on, which is the only case that needs attention now.
    pub fn style(self) -> (r: Style)
        ensures
            r == status_style(self),
    {
        match (self.pinned, self.unresolvable) {
            (false, false) => Style::Yellow,
            (true, false) => Style::Cyan,
            _ => Style::Red,
        }
    }
}

/// Paint `text` with `style` when colour is on.
pub fn paint(text: &str, style: Style, color: bool) -> (r: String)
    ensures
        r@ == painted(text@, style, color),
{
    if color {
        let mut out = owned(style.code());
        out.push_str(text);
        out.push_str("\x1b[0m");
        out
    } else {
        owned(text)
    }
}

// ---------------------------------------------------------------------------
// Counting
// ---------------------------------------------------------------------------

/// How many holes have the status asked for.
pub open spec fn count_where(holes: Seq<HoleView>, what: Tally) -> nat
    decreases holes.len(),
{
    if holes.len() == 0 {
        0
    } else {
        count_where(holes.drop_last(), what) + if counts(holes.last(), what) {
            1nat
        } else {
            0nat
        }
    }
}

/// What holes are counted by.
#[derive(Debug, Clone, Copy, PartialEq, Eq, Structural)]
pub enum Tally {
    /// Neither pinned nor unresolvable.
    Open,
    Pinned,
    Unresolvable,
}

/// Whether a hole counts. Pinned and unresolvable are counted independently, so
/// a hole that is both counts twice.
pub open spec fn counts(h: HoleView, what: Tally) -> bool {
    match what {
        Tally::Open => !h.pinned && h.unresolvable is None,
        Tally::Pinned => h.pinned,
        Tally::Unresolvable => h.unresolvable is Some,
    }
}

fn count(holes: &Vec<Hole>, what: Tally) -> (r: usize)
    ensures
        r == count_where(hole_views(holes@), what),
        r <= holes@.len(),
{
    let ghost all = hole_views(holes@);
    let mut n: usize = 0;
    let mut i: usize = 0;
    proof {
        assert(all.take(0) =~= Seq::<HoleView>::empty());
    }
    while i < holes.len()
        invariant
            i <= holes@.len(),
            all == hole_views(holes@),
            n <= i,
            n == count_where(all.take(i as int), what),
        decreases holes.len() - i,
    {
        proof {
            assert(all.take(i + 1).drop_last() =~= all.take(i as int));
            assert(all.take(i + 1).last() == holes@[i as int]@);
        }
        let h = &holes[i];
        let yes = match what {
            Tally::Open => !h.pinned && h.unresolvable.is_none(),
            Tally::Pinned => h.pinned,
            Tally::Unresolvable => h.unresolvable.is_some(),
        };
        if yes {
            n = n + 1;
        }
        i = i + 1;
    }
    proof {
        assert(all.take(holes@.len() as int) =~= all);
    }
    n
}

/// Every hole is open, pinned or unresolvable: none goes uncounted.
pub proof fn lemma_every_hole_counts(holes: Seq<HoleView>)
    ensures
        count_where(holes, Tally::Open) <= holes.len(),
        count_where(holes, Tally::Open) + count_where(holes, Tally::Pinned) + count_where(
            holes,
            Tally::Unresolvable,
        ) >= holes.len(),
    decreases holes.len(),
{
    if holes.len() > 0 {
        lemma_every_hole_counts(holes.drop_last());
    }
}

// ---------------------------------------------------------------------------
// The plain layout
// ---------------------------------------------------------------------------

/// The trailing summary of the line-oriented layout.
pub open spec fn summary_text(holes: Seq<HoleView>) -> Seq<char> {
    let pinned = count_where(holes, Tally::Pinned);
    let note = if pinned > 0 {
        "note: "@ + decimal_of(pinned)
            + " pinned hole(s) are hand-written and will never be regenerated; they are tracked technical debt.\n"@
    } else {
        ""@
    };
    "summary: "@ + decimal_of(count_where(holes, Tally::Open)) + " open, "@ + decimal_of(pinned)
        + " pinned, "@ + decimal_of(count_where(holes, Tally::Unresolvable)) + " unresolvable\n"@
        + note
}

/// The lines of one hole in the line-oriented layout.
pub open spec fn plain_block(
    root: Seq<char>,
    h: HoleView,
    number: nat,
    spec_width: nat,
) -> Seq<char> {
    let why = match h.unresolvable {
        Some(reason) => "     why:  "@ + reason + "\n"@,
        None => ""@,
    };
    "["@ + right_aligned(decimal_of(number), 2) + "] "@ + shown_path(root, h.file) + ":"@
        + decimal_of(h.line as nat) + "  "@ + plain_status_word(status_of(h)) + "  ("@
        + h.macro_name + ", "@ + position_name(h.position) + ")\n     fn:   "@ + h.fn_sig
        + "\n     spec: "@ + summary_of(h.spec, spec_width) + "\n"@ + why + "\n"@
}

/// The lines of the first `n` holes in the line-oriented layout.
pub open spec fn plain_blocks(
    root: Seq<char>,
    holes: Seq<HoleView>,
    spec_width: nat,
    n: int,
) -> Seq<char>
    decreases n,
{
    if n <= 0 {
        seq![]
    } else {
        plain_blocks(root, holes, spec_width, n - 1) + plain_block(
            root,
            holes[n - 1],
            n as nat,
            spec_width,
        )
    }
}

/// The line-oriented layout.
pub open spec fn plain_text(root: Seq<char>, holes: Seq<HoleView>, spec_width: nat) -> Seq<char> {
    decimal_of(holes.len()) + " hole(s) in "@ + root + "\n\n"@ + plain_blocks(
        root,
        holes,
        spec_width,
        holes.len() as int,
    ) + summary_text(holes)
}

fn write_summary(holes: &Vec<Hole>) -> (r: String)
    ensures
        r@ == summary_text(hole_views(holes@)),
{
    let pinned: usize = count(holes, Tally::Pinned);
    let mut note = owned("");
    if pinned > 0 {
        note = owned("note: ");
        note.push_str(decimal_usize(pinned).as_str());
        note.push_str(
            " pinned hole(s) are hand-written and will never be regenerated; they are tracked technical debt.\n",
        );
    }
    let mut out = owned("summary: ");
    out.push_str(decimal_usize(count(holes, Tally::Open)).as_str());
    out.push_str(" open, ");
    out.push_str(decimal_usize(pinned).as_str());
    out.push_str(" pinned, ");
    out.push_str(decimal_usize(count(holes, Tally::Unresolvable)).as_str());
    out.push_str(" unresolvable\n");
    out.push_str(note.as_str());
    out
}

fn write_plain_block(root: &str, h: &Hole, number: usize, spec_width: usize) -> (r: String)
    ensures
        r@ == plain_block(root@, h@, number as nat, spec_width as nat),
{
    let mut why = owned("");
    if let Some(reason) = &h.unresolvable {
        why = owned("     why:  ");
        why.push_str(reason.as_str());
        why.push_str("\n");
    }
    let mut out = owned("[");
    out.push_str(align_right(decimal_usize(number).as_str(), 2).as_str());
    out.push_str("] ");
    out.push_str(display_rel_path(root, h.file.as_str()).as_str());
    out.push_str(":");
    out.push_str(decimal_usize(h.line).as_str());
    out.push_str("  ");
    out.push_str(Status::of(h).plain_word());
    out.push_str("  (");
    out.push_str(h.macro_name.as_str());
    out.push_str(", ");
    out.push_str(h.position.as_str());
    out.push_str(")\n     fn:   ");
    out.push_str(h.fn_sig.as_str());
    out.push_str("\n     spec: ");
    out.push_str(h.spec_summary(spec_width).as_str());
    out.push_str("\n");
    out.push_str(why.as_str());
    out.push_str("\n");
    out
}

/// The plain layout: one block of lines per hole.
///
/// Its shape is load-bearing for anything that greps the output. Colour is
/// deliberately not applied here: this format exists for scripts.
pub fn render_plain(holes: &Vec<Hole>, root: &str, opts: &RenderOptions) -> (r: String)
    ensures
        r@ == plain_text(root@, hole_views(holes@), opts.spec_width as nat),
{
    let ghost all = hole_views(holes@);
    let mut out = decimal_usize(holes.len());
    out.push_str(" hole(s) in ");
    out.push_str(root);
    out.push_str("\n\n");
    let mut blocks = String::new();
    let mut i: usize = 0;
    proof {
        assert(blocks@ =~= plain_blocks(root@, all, opts.spec_width as nat, 0));
    }
    while i < holes.len()
        invariant
            i <= holes@.len(),
            all == hole_views(holes@),
            blocks@ == plain_blocks(root@, all, opts.spec_width as nat, i as int),
        decreases holes.len() - i,
    {
        proof {
            assert(all[i as int] == holes@[i as int]@);
        }
        let block = write_plain_block(root, &holes[i], i + 1, opts.spec_width);
        blocks.push_str(block.as_str());
        i = i + 1;
    }
    out.push_str(blocks.as_str());
    out.push_str(write_summary(holes).as_str());
    out
}

// ---------------------------------------------------------------------------
// The block layout
// ---------------------------------------------------------------------------

/// The larger of two numbers.
pub open spec fn larger(a: nat, b: nat) -> nat {
    if a < b {
        b
    } else {
        a
    }
}

/// The width of the line number column.
pub open spec fn line_column(holes: Seq<HoleView>) -> nat
    decreases holes.len(),
{
    if holes.len() == 0 {
        2
    } else {
        larger(line_column(holes.drop_last()), decimal_of(holes.last().line as nat).len())
    }
}

/// The width of the status column.
pub open spec fn label_column(holes: Seq<HoleView>) -> nat
    decreases holes.len(),
{
    if holes.len() == 0 {
        4
    } else {
        larger(label_column(holes.drop_last()), status_word(status_of(holes.last())).len())
    }
}

/// Where a field line starts: two spaces, the line number, two more, then the
/// status column.
pub open spec fn gutter(holes: Seq<HoleView>) -> nat {
    2 + line_column(holes) + 2 + label_column(holes)
}

/// How wide field text may be: what is left of the line, but at least 20.
pub open spec fn content_width(holes: Seq<HoleView>, wrap_width: nat) -> nat {
    let taken = gutter(holes) + label_column(holes) + 2;
    if wrap_width >= taken + 20 {
        (wrap_width - taken) as nat
    } else {
        20
    }
}

/// The lines of a field after its first, up to line `n`.
pub open spec fn field_rest(
    lines: Seq<Seq<char>>,
    label: Seq<char>,
    pad: nat,
    n: int,
) -> Seq<char>
    decreases n,
{
    if n <= 1 {
        seq![]
    } else {
        field_rest(lines, label, pad, n - 1) + spaces_of(pad) + spaces_of(label.len()) + "  "@
            + lines[n - 1] + "\n"@
    }
}

/// One `label  text` field, with wrapped lines under the first.
pub open spec fn field_text(label: Seq<char>, text: Seq<char>, pad: nat, width: nat) -> Seq<char> {
    let lines = wrapped(text, width);
    spaces_of(pad) + label + "  "@ + lines[0] + "\n"@ + field_rest(
        lines,
        label,
        pad,
        lines.len() as int,
    )
}

/// What is worth noting about a hole's position.
pub open spec fn note_of(h: HoleView) -> Option<Seq<char>> {
    match h.position {
        HolePosition::MacroBody => Some(
            "inside a `"@ + h.macro_name + "!` body, so rustc sees it as raw tokens"@,
        ),
        HolePosition::Unknown => Some("position could not be determined"@),
        _ => None,
    }
}

/// The fields of a hole: its signature, `impl`, spec, what is wrong with it,
/// and what is odd about it, each only where there is something to show.
pub open spec fn fields_text(h: HoleView, pad: nat, width: nat) -> Seq<char> {
    let sig = if is_blank(h.fn_sig) {
        ""@
    } else {
        field_text("sig"@, trim_of(h.fn_sig), pad, width)
    };
    let ctx = match h.impl_ctx {
        Some(c) => field_text("ctx"@, c, pad, width),
        None => ""@,
    };
    let why = match h.unresolvable {
        Some(reason) => field_text("why"@, reason, pad, width),
        None => ""@,
    };
    let note = match note_of(h) {
        Some(n) => field_text("note"@, n, pad, width),
        None => ""@,
    };
    sig + ctx + field_text("spec"@, trim_of(h.spec), pad, width) + why + note
}

/// The heading over the holes of a file, where hole `i` is the first of one.
pub open spec fn file_heading(
    root: Seq<char>,
    holes: Seq<HoleView>,
    i: int,
    color: bool,
) -> Seq<char> {
    if i > 0 && is_same_path(holes[i - 1].file, holes[i].file) {
        ""@
    } else {
        (if i > 0 {
            "\n  "@
        } else {
            "  "@
        }) + painted(shown_path(root, holes[i].file), Style::Bold, color) + "\n"@
    }
}

/// The status as it stands in its column. Without colour the column is not
/// padded: a trailing run of spaces shows up in every diff of the output.
pub open spec fn status_text(s: Status, width: nat, color: bool) -> Seq<char> {
    let label = left_aligned(status_word(s), width);
    if color {
        painted(label, status_style(s), color)
    } else {
        trim_end_of(label)
    }
}

/// The block of hole `i`.
pub open spec fn pretty_block(
    root: Seq<char>,
    holes: Seq<HoleView>,
    i: int,
    opts: RenderOptions,
) -> Seq<char> {
    let h = holes[i];
    file_heading(root, holes, i, opts.color) + "  "@ + right_aligned(
        decimal_of(h.line as nat),
        line_column(holes),
    ) + "  "@ + status_text(status_of(h), label_column(holes), opts.color) + "\n"@ + fields_text(
        h,
        gutter(holes),
        content_width(holes, opts.wrap_width as nat),
    ) + "\n"@
}

/// The blocks of the first `n` holes.
pub open spec fn pretty_blocks(
    root: Seq<char>,
    holes: Seq<HoleView>,
    opts: RenderOptions,
    n: int,
) -> Seq<char>
    decreases n,
{
    if n <= 0 {
        seq![]
    } else {
        pretty_blocks(root, holes, opts, n - 1) + pretty_block(root, holes, n - 1, opts)
    }
}

/// One count of the header, where there is something to count.
pub open spec fn tally_part(n: nat, word: Seq<char>, style: Style, color: bool) -> Seq<Seq<char>> {
    if n > 0 {
        seq![painted(decimal_of(n) + " "@ + word, style, color)]
    } else {
        seq![]
    }
}

/// The counts of the header.
pub open spec fn tally_of(holes: Seq<HoleView>, color: bool) -> Seq<Seq<char>> {
    tally_part(count_where(holes, Tally::Open), "open"@, Style::Yellow, color) + tally_part(
        count_where(holes, Tally::Pinned),
        "pinned"@,
        Style::Cyan,
        color,
    ) + tally_part(
        count_where(holes, Tally::Unresolvable),
        "unresolvable"@,
        Style::Red,
        color,
    )
}

/// The header: the crate's name and the counts, then the full path.
pub open spec fn pretty_header(root: Seq<char>, holes: Seq<HoleView>, color: bool) -> Seq<char> {
    let name = match file_name_of(root) {
        Some(n) => n,
        None => root,
    };
    painted(name, Style::Bold, color) + " — "@ + decimal_of(holes.len()) + (if holes.len() == 1 {
        " hole: "@
    } else {
        " holes: "@
    }) + join_of(tally_of(holes, color), " · "@) + "\n"@ + painted(root, Style::Dim, color) + "\n"@
}

/// The block layout: holes grouped by file, one small block each.
pub open spec fn pretty_text(root: Seq<char>, holes: Seq<HoleView>, opts: RenderOptions) -> Seq<
    char,
> {
    let pinned = count_where(holes, Tally::Pinned);
    let caveat = if pinned > 0 {
        "  "@ + decimal_of(pinned)
            + " pinned hole(s) are hand-written and will never be regenerated; they are tracked technical debt.\n"@
    } else {
        ""@
    };
    pretty_header(root, holes, opts.color) + pretty_blocks(
        root,
        holes,
        opts,
        holes.len() as int,
    ) + caveat
}

/// The listing of some holes.
pub open spec fn listing_text(root: Seq<char>, holes: Seq<HoleView>, opts: RenderOptions) -> Seq<
    char,
> {
    if holes.len() == 0 {
        "no holes found in "@ + shown_path(root, root) + "\n"@
    } else if opts.pretty {
        pretty_text(root, holes, opts)
    } else {
        plain_text(root, holes, opts.spec_width as nat)
    }
}

/// Write one `label  text` field, wrapping `text` and indenting continuations.
fn write_field(label: &str, text: &str, pad: usize, width: usize) -> (r: String)
    ensures
        r@ == field_text(label@, text@, pad as nat, width as nat),
{
    let lines = wrap(text, width);
    let ghost all = wrapped(text@, width as nat);
    proof {
        assert(all.len() == lines@.len());
        assert(all.len() >= 1);
        assert(all[0] == lines@[0]@);
    }
    let mut rest = String::new();
    let mut i: usize = 1;
    let n: usize = lines.len();
    let label_len: usize = label.unicode_len();
    proof {
        assert(rest@ =~= field_rest(all, label@, pad as nat, 1));
    }
    while i < n
        invariant
            1 <= i <= n,
            n == lines@.len(),
            all == views(lines@),
            label_len == label@.len(),
            rest@ == field_rest(all, label@, pad as nat, i as int),
        decreases n - i,
    {
        proof {
            assert(all[i as int] == lines@[i as int]@);
        }
        rest.push_str(spaces(pad).as_str());
        rest.push_str(spaces(label_len).as_str());
        rest.push_str("  ");
        rest.push_str(lines[i].as_str());
        rest.push_str("\n");
        i = i + 1;
    }
    let mut out = spaces(pad);
    out.push_str(label);
    out.push_str("  ");
    out.push_str(lines[0].as_str());
    out.push_str("\n");
    out.push_str(rest.as_str());
    out
}

fn write_fields(h: &Hole, pad: usize, width: usize) -> (r: String)
    ensures
        r@ == fields_text(h@, pad as nat, width as nat),
{
    // A hole in item position may have no signature, and an empty line would
    // look broken. Labelled `sig` rather than `fn` because the text already
    // starts with the `fn` keyword: `fn  fn double(..)` reads as a stutter.
    let mut out = if blank(h.fn_sig.as_str()) {
        owned("")
    } else {
        write_field("sig", trim(h.fn_sig.as_str()).as_str(), pad, width)
    };
    let ctx = match &h.impl_ctx {
        Some(c) => write_field("ctx", c.as_str(), pad, width),
        None => owned(""),
    };
    out.push_str(ctx.as_str());
    out.push_str(write_field("spec", trim(h.spec.as_str()).as_str(), pad, width).as_str());
    let why = match &h.unresolvable {
        Some(reason) => write_field("why", reason.as_str(), pad, width),
        None => owned(""),
    };
    out.push_str(why.as_str());
    // Position and macro are only worth a line when they are surprising.
    // "expression position" is the norm; a hole hidden in a macro body is the
    // case that explains odd behaviour later.
    let note = match h.position {
        HolePosition::MacroBody => {
            let mut text = owned("inside a `");
            text.push_str(h.macro_name.as_str());
            text.push_str("!` body, so rustc sees it as raw tokens");
            write_field("note", text.as_str(), pad, width)
        },
        HolePosition::Unknown => write_field(
            "note",
            "position could not be determined",
            pad,
            width,
        ),
        _ => owned(""),
    };
    out.push_str(note.as_str());
    out
}

proof fn lemma_columns_are_narrow(holes: Seq<HoleView>)
    ensures
        2 <= line_column(holes) <= 20,
        4 <= label_column(holes) <= 17,
    decreases holes.len(),
{
    if holes.len() > 0 {
        lemma_columns_are_narrow(holes.drop_last());
        lemma_decimal_is_short(holes.last().line as nat);
        reveal_strlit("open");
        reveal_strlit("pinned");
        reveal_strlit("unresolvable");
        reveal_strlit("pinned+unresolved");
    }
}

fn columns(holes: &Vec<Hole>) -> (r: (usize, usize))
    ensures
        r.0 == line_column(hole_views(holes@)),
        r.1 == label_column(hole_views(holes@)),
        r.0 <= 20,
        r.1 <= 17,
{
    let ghost all = hole_views(holes@);
    let mut line: usize = 2;
    let mut label: usize = 4;
    let mut i: usize = 0;
    proof {
        assert(all.take(0) =~= Seq::<HoleView>::empty());
    }
    while i < holes.len()
        invariant
            i <= holes@.len(),
            all == hole_views(holes@),
            line == line_column(all.take(i as int)),
            label == label_column(all.take(i as int)),
        decreases holes.len() - i,
    {
        proof {
            assert(all.take(i + 1).drop_last() =~= all.take(i as int));
            assert(all.take(i + 1).last() == holes@[i as int]@);
        }
        let a: usize = decimal_usize(holes[i].line).as_str().unicode_len();
        let b: usize = Status::of(&holes[i]).word().unicode_len();
        if line < a {
            line = a;
        }
        if label < b {
            label = b;
        }
        i = i + 1;
    }
    proof {
        assert(all.take(holes@.len() as int) =~= all);
        lemma_columns_are_narrow(all);
    }
    (line, label)
}

fn push_tally(parts: &mut Vec<String>, n: usize, word: &str, style: Style, color: bool)
    ensures
        views(final(parts)@) == views(old(parts)@) + tally_part(n as nat, word@, style, color),
{
    let ghost before = views(parts@);
    if n > 0 {
        let mut text = decimal_usize(n);
        text.push_str(" ");
        text.push_str(word);
        let shown = paint(text.as_str(), style, color);
        proof {
            assert(views(parts@.push(shown)) =~= before + seq![shown@]);
        }
        parts.push(shown);
    } else {
        proof {
            assert(before + Seq::<Seq<char>>::empty() =~= before);
        }
    }
}

fn write_header(holes: &Vec<Hole>, root: &str, color: bool) -> (r: String)
    ensures
        r@ == pretty_header(root@, hole_views(holes@), color),
{
    // The crate's name carries the eye, the full path is reference.
    let name = match file_name(root) {
        Some(n) => n,
        None => owned(root),
    };
    let mut tally: Vec<String> = Vec::new();
    let ghost empty = views(tally@);
    push_tally(&mut tally, count(holes, Tally::Open), "open", Style::Yellow, color);
    push_tally(&mut tally, count(holes, Tally::Pinned), "pinned", Style::Cyan, color);
    push_tally(
        &mut tally,
        count(holes, Tally::Unresolvable),
        "unresolvable",
        Style::Red,
        color,
    );
    proof {
        assert(empty =~= Seq::<Seq<char>>::empty());
        assert(views(tally@) =~= tally_of(hole_views(holes@), color));
    }
    let mut out = paint(name.as_str(), Style::Bold, color);
    out.push_str(" — ");
    out.push_str(decimal_usize(holes.len()).as_str());
    // "hole(s)" reads as a stutter next to a number; agree with the count.
    out.push_str(
        if holes.len() == 1 {
            " hole: "
        } else {
            " holes: "
        },
    );
    out.push_str(join(&tally, " · ").as_str());
    out.push_str("\n");
    out.push_str(paint(root, Style::Dim, color).as_str());
    out.push_str("\n");
    out
}

/// The block layout: holes grouped by file, one small block each.
#[verifier::rlimit(60)]
#[verifier::spinoff_prover]
pub fn render_pretty(holes: &Vec<Hole>, root: &str, opts: &RenderOptions) -> (r: String)
    ensures
        r@ == pretty_text(root@, hole_views(holes@), *opts),
{
    let ghost all = hole_views(holes@);
    let pinned: usize = count(holes, Tally::Pinned);
    let header = write_header(holes, root, opts.color);

    // Columns sized from the data, so a crate with no long status does not get
    // a gutter of empty space. Deriving the wrap width from the same number as
    // the indent is what keeps a wrapped line inside the terminal.
    let (line_width, label_width) = columns(holes);
    let pad: usize = 2 + line_width + 2 + label_width;
    let taken: usize = pad + label_width + 2;
    let width: usize = if opts.wrap_width >= taken + 20 {
        opts.wrap_width - taken
    } else {
        20
    };

    // Grouped by file, preserving the order the holes arrived in (already sorted
    // by file then position).
    let mut blocks = String::new();
    let mut i: usize = 0;
    proof {
        assert(blocks@ =~= pretty_blocks(root@, all, *opts, 0));
    }
    while i < holes.len()
        invariant
            i <= holes@.len(),
            all == hole_views(holes@),
            line_width == line_column(all),
            label_width == label_column(all),
            pad == gutter(all),
            width == content_width(all, opts.wrap_width as nat),
            blocks@ == pretty_blocks(root@, all, *opts, i as int),
        decreases holes.len() - i,
    {
        let h = &holes[i];
        proof {
            assert(all[i as int] == h@);
            if i > 0 {
                assert(all[i - 1] == holes@[i - 1]@);
            }
        }
        let mut block = if i > 0 && same_path(holes[i - 1].file.as_str(), h.file.as_str()) {
            owned("")
        } else {
            let mut head = owned(
                if i > 0 {
                    "\n  "
                } else {
                    "  "
                },
            );
            let rel = display_rel_path(root, h.file.as_str());
            head.push_str(paint(rel.as_str(), Style::Bold, opts.color).as_str());
            head.push_str("\n");
            head
        };
        block.push_str("  ");
        block.push_str(align_right(decimal_usize(h.line).as_str(), line_width).as_str());
        block.push_str("  ");
        let status = Status::of(h);
        let label = align_left(status.word(), label_width);
        let shown = if opts.color {
            paint(label.as_str(), status.style(), opts.color)
        } else {
            trim_end(label.as_str())
        };
        block.push_str(shown.as_str());
        block.push_str("\n");
        block.push_str(write_fields(h, pad, width).as_str());
        block.push_str("\n");
        blocks.push_str(block.as_str());
        i = i + 1;
    }

    // The header already carried the tally, so the only thing left to say is the
    // caveat the pinned count implies.
    let mut caveat = owned("");
    if pinned > 0 {
        caveat = owned("  ");
        caveat.push_str(decimal_usize(pinned).as_str());
        caveat.push_str(
            " pinned hole(s) are hand-written and will never be regenerated; they are tracked technical debt.\n",
        );
    }
    let mut out = header;
    out.push_str(blocks.as_str());
    out.push_str(caveat.as_str());
    out
}

/// Render `holes` for display.
///
/// The result ends with a newline and is meant to be printed as-is.
pub fn render_list(holes: &Vec<Hole>, root: &str, opts: &RenderOptions) -> (r: String)
    ensures
        r@ == listing_text(root@, hole_views(holes@), *opts),
{
    if holes.len() == 0 {
        let mut out = owned("no holes found in ");
        out.push_str(display_rel_path(root, root).as_str());
        out.push_str("\n");
        return out;
    }
    if opts.pretty {
        render_pretty(holes, root, opts)
    } else {
        render_plain(holes, root, opts)
    }
}

// ---------------------------------------------------------------------------
// Laws
// ---------------------------------------------------------------------------

/// The line-oriented layout is never coloured, and no terminal width changes
/// it.
pub proof fn lemma_plain_layout_ignores_the_terminal(
    root: Seq<char>,
    holes: Seq<HoleView>,
    a: RenderOptions,
    b: RenderOptions,
)
    requires
        !a.pretty,
        !b.pretty,
        a.spec_width == b.spec_width,
    ensures
        listing_text(root, holes, a) == listing_text(root, holes, b),
{
}

proof fn lemma_cells_of_spaces(n: nat)
    ensures
        cells(spaces_of(n)) == n,
    decreases n,
{
    if n > 0 {
        assert(spaces_of(n).drop_last() =~= spaces_of((n - 1) as nat));
        lemma_cells_of_spaces((n - 1) as nat);
        assert(cell_width(' ') == 1);
    }
}

/// A line of a field stays inside the terminal, first line or continuation, as
/// long as the terminal has room for the columns and twenty cells of text; and
/// continuations start where the text of the first line does.
pub proof fn lemma_field_lines_fit(
    holes: Seq<HoleView>,
    wrap_width: nat,
    label: Seq<char>,
    text: Seq<char>,
    i: int,
)
    requires
        wrap_width >= gutter(holes) + label_column(holes) + 22,
        label.len() <= label_column(holes),
        cells(label) == label.len(),
        0 <= i < wrapped(text, content_width(holes, wrap_width)).len(),
    ensures
        ({
            let line = wrapped(text, content_width(holes, wrap_width))[i];
            let pad = spaces_of(gutter(holes));
            let first = pad + label + "  "@;
            let next = pad + spaces_of(label.len()) + "  "@;
            &&& cells(first + line) <= wrap_width
            &&& cells(next + line) <= wrap_width
            &&& cells(first) == cells(next)
        }),
{
    let width = content_width(holes, wrap_width);
    let line = wrapped(text, width)[i];
    let pad = spaces_of(gutter(holes));
    let first = pad + label + "  "@;
    let next = pad + spaces_of(label.len()) + "  "@;
    lemma_wrapped_lines_fit(text, width);
    lemma_cells_of_spaces(gutter(holes));
    lemma_cells_of_spaces(label.len());
    lemma_cells_of_spaces(2);
    reveal_strlit("  ");
    assert("  "@ =~= spaces_of(2));
    lemma_cells_concat(pad, label);
    lemma_cells_concat(pad + label, "  "@);
    lemma_cells_concat(first, line);
    lemma_cells_concat(pad, spaces_of(label.len()));
    lemma_cells_concat(pad + spaces_of(label.len()), "  "@);
    lemma_cells_concat(next, line);
}

} // verus!
