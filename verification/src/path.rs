//! File paths as text: `/` separates components, a leading `/` is the root.
//!
//! Two paths are the same when their components are. Repeated and trailing
//! slashes and inner `.` components do not count, a leading `.` does.
use vstd::prelude::*;

use crate::text::{
    chars_of, owned, same, string_of, views,
};

verus! {

// ---------------------------------------------------------------------------
// Components
// ---------------------------------------------------------------------------

/// The end of the slash-free run that starts at `i`.
pub open spec fn part_end(s: Seq<char>, i: int) -> int
    decreases s.len() - i,
{
    if i >= s.len() || s[i] == '/' {
        i
    } else {
        part_end(s, i + 1)
    }
}

/// Whether the run `i..e` is no component: it is empty, or a `.` that does not
/// begin the path.
pub open spec fn is_noise(s: Seq<char>, i: int, e: int) -> bool {
    i == e || (e == i + 1 && s[i] == '.' && i > 0)
}

/// A run ends no earlier than it begins, and inside the text.
pub proof fn lemma_part_end(s: Seq<char>, i: int)
    requires
        0 <= i <= s.len(),
    ensures
        i <= part_end(s, i) <= s.len(),
        part_end(s, i) < s.len() ==> s[part_end(s, i)] == '/',
        forall|k: int| i <= k < part_end(s, i) ==> s[k] != '/',
    decreases s.len() - i,
{
    if i < s.len() && s[i] != '/' {
        lemma_part_end(s, i + 1);
    }
}

/// Where the components that begin at `i` or later stand.
pub open spec fn spans_from(s: Seq<char>, i: int) -> Seq<(int, int)>
    decreases s.len() - i + 1,
{
    if !(0 <= i <= s.len()) {
        seq![]
    } else {
        proof {
            lemma_part_end(s, i);
        }
        let e = part_end(s, i);
        if is_noise(s, i, e) {
            spans_from(s, e + 1)
        } else {
            seq![(i, e)] + spans_from(s, e + 1)
        }
    }
}

/// Where the components of a path stand in it.
pub open spec fn spans(s: Seq<char>) -> Seq<(int, int)> {
    if s.len() > 0 && s[0] == '/' {
        seq![(0int, 1int)] + spans_from(s, 0)
    } else {
        spans_from(s, 0)
    }
}

/// The components of a path. The root is written `/`.
pub open spec fn components_of(s: Seq<char>) -> Seq<Seq<char>> {
    Seq::new(spans(s).len(), |i: int| s.subrange(spans(s)[i].0, spans(s)[i].1))
}

/// Whether two paths name the same place in text.
pub open spec fn is_same_path(a: Seq<char>, b: Seq<char>) -> bool {
    components_of(a) == components_of(b)
}

/// Whether a path starts at the root.
pub open spec fn rooted(s: Seq<char>) -> bool {
    s.len() > 0 && s[0] == '/'
}

/// The text of a path from its `n`-th component on.
pub open spec fn from_component(s: Seq<char>, n: int) -> Seq<char> {
    if 0 <= n < spans(s).len() {
        s.subrange(spans(s)[n].0, spans(s).last().1)
    } else {
        seq![]
    }
}

/// Whether `base`'s components are the first of `s`.
pub open spec fn is_below(s: Seq<char>, base: Seq<char>) -> bool {
    components_of(base).is_prefix_of(components_of(s))
}

/// `s` relative to `base`.
pub open spec fn relative_to(s: Seq<char>, base: Seq<char>) -> Option<Seq<char>> {
    if is_below(s, base) {
        Some(from_component(s, components_of(base).len() as int))
    } else {
        None
    }
}

/// `tail` under `base`; an absolute `tail` stands alone.
pub open spec fn joined(base: Seq<char>, tail: Seq<char>) -> Seq<char> {
    if rooted(tail) {
        tail
    } else if base.len() > 0 && base.last() != '/' {
        base + "/"@ + tail
    } else {
        base + tail
    }
}

/// Whether a component is a name, and not the root, `.` or `..`.
pub open spec fn is_name(c: Seq<char>) -> bool {
    c != "/"@ && c != "."@ && c != ".."@
}

/// The last component, when it is a name.
pub open spec fn file_name_of(s: Seq<char>) -> Option<Seq<char>> {
    let c = components_of(s);
    if c.len() > 0 && is_name(c.last()) {
        Some(c.last())
    } else {
        None
    }
}

/// The path up to its second last component.
pub open spec fn without_last(s: Seq<char>) -> Seq<char> {
    if spans(s).len() < 2 {
        seq![]
    } else {
        s.take(spans(s)[spans(s).len() - 2].1)
    }
}

/// `s` with `name` in place of its file name.
pub open spec fn renamed(s: Seq<char>, name: Seq<char>) -> Seq<char> {
    if file_name_of(s) is Some {
        joined(without_last(s), name)
    } else {
        joined(s, name)
    }
}

/// Whether `child`'s components are the last of `s`.
pub open spec fn is_tail(s: Seq<char>, child: Seq<char>) -> bool {
    components_of(child).is_suffix_of(components_of(s))
}

proof fn lemma_spans_from(s: Seq<char>, i: int)
    requires
        0 <= i <= s.len() + 1,
    ensures
        forall|k: int|
            0 <= k < spans_from(s, i).len() ==> i <= (#[trigger] spans_from(s, i)[k]).0
                < spans_from(s, i)[k].1 <= s.len(),
        forall|k: int, m: int|
            0 <= k < m < spans_from(s, i).len() ==> (#[trigger] spans_from(s, i)[k]).1 < (
            #[trigger] spans_from(s, i)[m]).0,
    decreases s.len() - i + 1,
{
    if i <= s.len() {
        lemma_part_end(s, i);
        let e = part_end(s, i);
        lemma_spans_from(s, e + 1);
        let rest = spans_from(s, e + 1);
        let all = spans_from(s, i);
        if !is_noise(s, i, e) {
            assert(all == seq![(i, e)] + rest);
            assert(all[0] == (i, e));
            assert forall|k: int| 0 <= k < all.len() implies i <= (#[trigger] all[k]).0 < all[k].1
                <= s.len() by {
                if k > 0 {
                    assert(all[k] == rest[k - 1]);
                }
            }
            assert forall|k: int, m: int| 0 <= k < m < all.len() implies (#[trigger] all[k]).1 < (
            #[trigger] all[m]).0 by {
                assert(all[m] == rest[m - 1]);
                if k > 0 {
                    assert(all[k] == rest[k - 1]);
                }
            }
        }
    }
}

/// Components stand in the path one after the other.
pub proof fn lemma_spans(s: Seq<char>)
    ensures
        forall|k: int|
            0 <= k < spans(s).len() ==> 0 <= (#[trigger] spans(s)[k]).0 < spans(s)[k].1
                <= s.len(),
        forall|k: int, m: int|
            0 <= k < m < spans(s).len() ==> (#[trigger] spans(s)[k]).1 <= (#[trigger] spans(
                s,
            )[m]).0,
{
    lemma_spans_from(s, 0);
    if s.len() > 0 && s[0] == '/' {
        assert(part_end(s, 0) == 0);
        lemma_spans_from(s, 1);
        assert(spans_from(s, 0) == spans_from(s, 1));
        let t = spans_from(s, 1);
        assert forall|k: int| 0 <= k < spans(s).len() implies 0 <= (#[trigger] spans(s)[k]).0
            < spans(s)[k].1 <= s.len() by {
            if k > 0 {
                assert(spans(s)[k] == t[k - 1]);
            }
        }
        assert forall|k: int, m: int| 0 <= k < m < spans(s).len() implies (#[trigger] spans(
            s,
        )[k]).1 <= (#[trigger] spans(s)[m]).0 by {
            assert(spans(s)[m] == t[m - 1]);
            if k > 0 {
                assert(spans(s)[k] == t[k - 1]);
            }
        }
    }
}

// ---------------------------------------------------------------------------
// Operations
// ---------------------------------------------------------------------------

/// The spans of a list of machine integers.
pub open spec fn as_spans(v: Seq<(usize, usize)>) -> Seq<(int, int)> {
    Seq::new(v.len(), |i: int| (v[i].0 as int, v[i].1 as int))
}

/// Where the components of a path stand.
fn component_spans(v: &Vec<char>) -> (r: Vec<(usize, usize)>)
    ensures
        as_spans(r@) == spans(v@),
{
    let n: usize = v.len();
    let mut out: Vec<(usize, usize)> = Vec::new();
    if n > 0 && v[0] == '/' {
        out.push((0, 1));
    }
    proof {
        assert(as_spans(out@) + spans_from(v@, 0) =~= spans(v@));
    }
    let mut i: usize = 0;
    let mut more = true;
    while more
        invariant
            n == v@.len(),
            more ==> i <= n,
            spans(v@) == as_spans(out@) + if more {
                spans_from(v@, i as int)
            } else {
                seq![]
            },
        decreases n - i + if more {
            1int
        } else {
            0int
        },
    {
        let mut e: usize = i;
        while e < n && v[e] != '/'
            invariant
                i <= e <= n,
                n == v@.len(),
                part_end(v@, i as int) == part_end(v@, e as int),
            decreases n - e,
        {
            e = e + 1;
        }
        let noise = i == e || (e == i + 1 && v[i] == '.' && i > 0);
        let ghost before = out@;
        if !noise {
            out.push((i, e));
        }
        proof {
            let rest = spans_from(v@, e + 1);
            if !noise {
                assert(as_spans(out@) + rest =~= as_spans(before) + (seq![(i as int, e as int)]
                    + rest));
            }
        }
        if e < n {
            i = e + 1;
        } else {
            more = false;
            proof {
                assert(spans_from(v@, e + 1) == Seq::<(int, int)>::empty());
            }
        }
    }
    proof {
        assert(as_spans(out@) + Seq::<(int, int)>::empty() =~= as_spans(out@));
    }
    out
}

/// The components of a path.
pub fn components(path: &str) -> (r: Vec<String>)
    ensures
        views(r@) == components_of(path@),
{
    let v = chars_of(path);
    let at = component_spans(&v);
    let mut out: Vec<String> = Vec::new();
    let mut i: usize = 0;
    proof {
        lemma_spans(path@);
        assert(as_spans(at@).len() == at@.len());
    }
    while i < at.len()
        invariant
            i <= at@.len(),
            v@ == path@,
            as_spans(at@) == spans(path@),
            forall|k: int|
                0 <= k < spans(path@).len() ==> 0 <= (#[trigger] spans(path@)[k]).0
                    < spans(path@)[k].1 <= path@.len(),
            views(out@) == components_of(path@).take(i as int),
        decreases at.len() - i,
    {
        proof {
            assert(as_spans(at@)[i as int] == spans(path@)[i as int]);
        }
        let piece = string_of(&v, at[i].0, at[i].1);
        proof {
            assert(components_of(path@)[i as int] == piece@);
            assert(views(out@.push(piece)) =~= views(out@).push(piece@));
            assert(components_of(path@).take(i + 1) =~= components_of(path@).take(i as int).push(
                piece@,
            ));
        }
        out.push(piece);
        i = i + 1;
    }
    proof {
        assert(components_of(path@).take(at@.len() as int) =~= components_of(path@));
    }
    out
}

/// Whether the first `n` texts of `a` from `at` on are those of `b`.
fn same_run(a: &Vec<String>, at: usize, b: &Vec<String>) -> (r: bool)
    requires
        at + b@.len() <= a@.len(),
    ensures
        r == (views(a@).subrange(at as int, at + b@.len()) == views(b@)),
{
    let n: usize = a.len();
    let mut k: usize = 0;
    while k < b.len()
        invariant
            k <= b@.len(),
            n == a@.len(),
            at + b@.len() <= n,
            forall|j: int| 0 <= j < k ==> a@[at + j]@ == #[trigger] b@[j]@,
        decreases b.len() - k,
    {
        if !same(a[at + k].as_str(), b[k].as_str()) {
            proof {
                assert(views(a@).subrange(at as int, at + b@.len())[k as int] == a@[at + k]@);
                assert(views(b@)[k as int] == b@[k as int]@);
            }
            return false;
        }
        k = k + 1;
    }
    proof {
        assert(views(a@).subrange(at as int, at + b@.len()) =~= views(b@));
    }
    true
}

/// Whether two paths are the same, component by component.
pub fn same_path(a: &str, b: &str) -> (r: bool)
    ensures
        r == is_same_path(a@, b@),
{
    let x = components(a);
    let y = components(b);
    proof {
        assert(views(x@).len() == x@.len());
        assert(views(y@).len() == y@.len());
        assert(views(x@).subrange(0, x@.len() as int) =~= views(x@));
    }
    x.len() == y.len() && same_run(&x, 0, &y)
}

/// Whether a path is absolute.
pub fn is_absolute(path: &str) -> (r: bool)
    ensures
        r == rooted(path@),
{
    let v = chars_of(path);
    v.len() > 0 && v[0] == '/'
}

/// `tail` under `base`.
pub fn join(base: &str, tail: &str) -> (r: String)
    ensures
        r@ == joined(base@, tail@),
{
    if is_absolute(tail) {
        return owned(tail);
    }
    let v = chars_of(base);
    let mut out = owned(base);
    if v.len() > 0 && v[v.len() - 1] != '/' {
        out.push_str("/");
    }
    out.push_str(tail);
    out
}

/// `path` relative to `base`, if it is below it.
pub fn strip_prefix(path: &str, base: &str) -> (r: Option<String>)
    ensures
        crate::text::opt_view(r) == relative_to(path@, base@),
{
    let x = components(path);
    let y = components(base);
    proof {
        assert(views(x@).len() == x@.len());
        assert(views(y@).len() == y@.len());
        if y@.len() <= x@.len() {
            assert(views(x@).subrange(0, y@.len() as int) =~= views(x@).take(y@.len() as int));
            assert(views(y@).is_prefix_of(views(x@)) <==> views(x@).take(y@.len() as int) == views(
                y@,
            ));
        }
    }
    if y.len() > x.len() || !same_run(&x, 0, &y) {
        return None;
    }
    let v = chars_of(path);
    let at = component_spans(&v);
    proof {
        lemma_spans(path@);
        assert(as_spans(at@).len() == at@.len());
    }
    if y.len() >= at.len() {
        return Some(String::new());
    }
    proof {
        assert(as_spans(at@)[y@.len() as int] == spans(path@)[y@.len() as int]);
        assert(as_spans(at@)[at@.len() - 1] == spans(path@)[at@.len() - 1]);
    }
    let first: usize = at[y.len()].0;
    let last: usize = at[at.len() - 1].1;
    Some(string_of(&v, first, last))
}

/// The last component, when it is a name.
pub fn file_name(path: &str) -> (r: Option<String>)
    ensures
        crate::text::opt_view(r) == file_name_of(path@),
{
    let x = components(path);
    proof {
        assert(views(x@).len() == x@.len());
    }
    if x.len() == 0 {
        return None;
    }
    let name = x[x.len() - 1].as_str();
    proof {
        assert(views(x@).last() == name@);
    }
    if same(name, "/") || same(name, ".") || same(name, "..") {
        return None;
    }
    Some(owned(name))
}

/// `path` with `name` in place of its file name.
pub fn with_file_name(path: &str, name: &str) -> (r: String)
    ensures
        r@ == renamed(path@, name@),
{
    if file_name(path).is_none() {
        return join(path, name);
    }
    let dir = parent(path);
    join(dir.as_str(), name)
}

/// The path up to its second last component.
pub fn parent(path: &str) -> (r: String)
    ensures
        r@ == without_last(path@),
{
    let v = chars_of(path);
    let at = component_spans(&v);
    proof {
        lemma_spans(path@);
        assert(as_spans(at@).len() == at@.len());
    }
    if at.len() < 2 {
        return String::new();
    }
    proof {
        assert(as_spans(at@)[at@.len() - 2] == spans(path@)[at@.len() - 2]);
        let end = spans(path@)[spans(path@).len() - 2].1;
        assert(path@.subrange(0, end) == path@.take(end));
    }
    string_of(&v, 0, at[at.len() - 2].1)
}

/// Whether `child`'s components are the last of `path`.
pub fn ends_with(path: &str, child: &str) -> (r: bool)
    ensures
        r == is_tail(path@, child@),
{
    let x = components(path);
    let y = components(child);
    proof {
        assert(views(x@).len() == x@.len());
        assert(views(y@).len() == y@.len());
        if y@.len() <= x@.len() {
            assert(views(y@).is_suffix_of(views(x@)) <==> views(x@).subrange(
                x@.len() - y@.len(),
                x@.len() as int,
            ) == views(y@));
        }
    }
    y.len() <= x.len() && same_run(&x, x.len() - y.len(), &y)
}

// ---------------------------------------------------------------------------
// Order
// ---------------------------------------------------------------------------

/// Dictionary order of two texts.
pub open spec fn text_less(a: Seq<char>, b: Seq<char>) -> bool
    decreases a.len(),
{
    if b.len() == 0 {
        false
    } else if a.len() == 0 {
        true
    } else if a[0] == b[0] {
        text_less(a.drop_first(), b.drop_first())
    } else {
        a[0] < b[0]
    }
}

/// The root sorts first, then `.`, then `..`, then names.
pub open spec fn rank(c: Seq<char>) -> int {
    if c == "/"@ {
        0
    } else if c == "."@ {
        1
    } else if c == ".."@ {
        2
    } else {
        3
    }
}

/// The order of two components.
pub open spec fn component_less(a: Seq<char>, b: Seq<char>) -> bool {
    rank(a) < rank(b) || (rank(a) == rank(b) && rank(a) == 3 && text_less(a, b))
}

/// The order of two lists of components.
pub open spec fn components_less(a: Seq<Seq<char>>, b: Seq<Seq<char>>) -> bool
    decreases a.len(),
{
    if b.len() == 0 {
        false
    } else if a.len() == 0 {
        true
    } else if a[0] == b[0] {
        components_less(a.drop_first(), b.drop_first())
    } else {
        component_less(a[0], b[0])
    }
}

/// The order of two paths: component by component.
pub open spec fn path_less(a: Seq<char>, b: Seq<char>) -> bool {
    components_less(components_of(a), components_of(b))
}

/// `sorted` with `p` put after everything that does not sort after it.
pub open spec fn insert_path(sorted: Seq<Seq<char>>, p: Seq<char>) -> Seq<Seq<char>>
    decreases sorted.len(),
{
    if sorted.len() == 0 || !path_less(p, sorted.last()) {
        sorted.push(p)
    } else {
        insert_path(sorted.drop_last(), p).push(sorted.last())
    }
}

/// The paths in order.
pub open spec fn sorted_paths(paths: Seq<Seq<char>>) -> Seq<Seq<char>>
    decreases paths.len(),
{
    if paths.len() == 0 {
        seq![]
    } else {
        insert_path(sorted_paths(paths.drop_last()), paths.last())
    }
}

proof fn lemma_text_order(a: Seq<char>, b: Seq<char>, c: Seq<char>)
    ensures
        a != b ==> text_less(a, b) || text_less(b, a),
        text_less(a, b) ==> !text_less(b, a),
        text_less(a, b) && !text_less(c, b) ==> text_less(a, c),
    decreases a.len(),
{
    if a.len() > 0 && b.len() > 0 {
        lemma_text_order(a.drop_first(), b.drop_first(), c.drop_first());
        if a[0] == b[0] && a.drop_first() == b.drop_first() {
            assert(a =~= seq![a[0]] + a.drop_first());
            assert(b =~= seq![b[0]] + b.drop_first());
        }
    } else if a.len() == 0 && b.len() == 0 {
        assert(a =~= b);
    }
}

proof fn lemma_component_order(a: Seq<char>, b: Seq<char>, c: Seq<char>)
    ensures
        a != b ==> component_less(a, b) || component_less(b, a),
        component_less(a, b) ==> !component_less(b, a),
        component_less(a, b) && !component_less(c, b) ==> component_less(a, c),
{
    lemma_text_order(a, b, c);
}

proof fn lemma_components_order(a: Seq<Seq<char>>, b: Seq<Seq<char>>, c: Seq<Seq<char>>)
    ensures
        components_less(a, b) ==> !components_less(b, a),
        components_less(a, b) && !components_less(c, b) ==> components_less(a, c),
    decreases a.len(),
{
    if a.len() > 0 && b.len() > 0 {
        lemma_component_order(a[0], b[0], a[0]);
        if c.len() > 0 {
            lemma_component_order(a[0], b[0], c[0]);
            lemma_component_order(c[0], b[0], c[0]);
            lemma_component_order(a[0], c[0], a[0]);
        }
        lemma_components_order(a.drop_first(), b.drop_first(), c.drop_first());
    }
}

proof fn lemma_components_differ(a: Seq<Seq<char>>, b: Seq<Seq<char>>)
    ensures
        a != b ==> components_less(a, b) || components_less(b, a),
    decreases a.len(),
{
    if a.len() > 0 && b.len() > 0 {
        lemma_component_order(a[0], b[0], a[0]);
        lemma_components_differ(a.drop_first(), b.drop_first());
        if a[0] == b[0] && a.drop_first() == b.drop_first() {
            assert(a =~= seq![a[0]] + a.drop_first());
            assert(b =~= seq![b[0]] + b.drop_first());
        }
    } else if a.len() == 0 && b.len() == 0 {
        assert(a =~= b);
    }
}

proof fn lemma_components_irreflexive(a: Seq<Seq<char>>)
    ensures
        !components_less(a, a),
    decreases a.len(),
{
    if a.len() > 0 {
        lemma_components_irreflexive(a.drop_first());
    }
}

/// Of two paths that are not the same, one comes first.
pub proof fn lemma_path_order_total(a: Seq<char>, b: Seq<char>)
    ensures
        !is_same_path(a, b) <==> path_less(a, b) || path_less(b, a),
{
    lemma_components_differ(components_of(a), components_of(b));
    lemma_components_irreflexive(components_of(a));
}

/// The order of paths is a strict order, and what does not come after `b`
/// comes after all that comes before `b`.
pub proof fn lemma_path_order(a: Seq<char>, b: Seq<char>, c: Seq<char>)
    ensures
        path_less(a, b) ==> !path_less(b, a),
        path_less(a, b) && !path_less(c, b) ==> path_less(a, c),
{
    lemma_components_order(components_of(a), components_of(b), components_of(c));
}

/// Nothing comes before what stands to its left.
pub open spec fn paths_in_order(paths: Seq<Seq<char>>) -> bool {
    forall|i: int, j: int|
        0 <= i < j < paths.len() ==> !path_less(#[trigger] paths[j], #[trigger] paths[i])
}

proof fn lemma_insert_path(sorted: Seq<Seq<char>>, p: Seq<char>)
    requires
        paths_in_order(sorted),
    ensures
        paths_in_order(insert_path(sorted, p)),
        insert_path(sorted, p).len() == sorted.len() + 1,
        insert_path(sorted, p).to_multiset() == sorted.to_multiset().insert(p),
        forall|q: Seq<char>| #[trigger]
            insert_path(sorted, p).contains(q) ==> sorted.contains(q) || q == p,
    decreases sorted.len(),
{
    broadcast use vstd::seq_lib::group_to_multiset_ensures;

    let r = insert_path(sorted, p);
    if sorted.len() == 0 || !path_less(p, sorted.last()) {
        assert forall|i: int, j: int| 0 <= i < j < r.len() implies !path_less(
            #[trigger] r[j],
            #[trigger] r[i],
        ) by {
            if j == sorted.len() {
                lemma_path_order(p, r[i], sorted.last());
                if i < sorted.len() - 1 {
                    assert(!path_less(sorted[sorted.len() - 1], sorted[i]));
                }
            } else {
                assert(r[j] == sorted[j] && r[i] == sorted[i]);
            }
        }
        assert forall|q: Seq<char>| #[trigger] r.contains(q) implies sorted.contains(q) || q
            == p by {
            let k = choose|k: int| 0 <= k < r.len() && r[k] == q;
            if k < sorted.len() {
                assert(sorted[k] == q);
            }
        }
    } else {
        let front = sorted.drop_last();
        let t = insert_path(front, p);
        lemma_insert_path(front, p);
        assert(front.push(sorted.last()) == sorted);
        assert(sorted.to_multiset() == front.to_multiset().insert(sorted.last()));
        assert(r.to_multiset() =~= sorted.to_multiset().insert(p));
        assert forall|i: int, j: int| 0 <= i < j < r.len() implies !path_less(
            #[trigger] r[j],
            #[trigger] r[i],
        ) by {
            if j < t.len() {
                assert(r[j] == t[j] && r[i] == t[i]);
            } else {
                assert(r[i] == t[i]);
                assert(t.contains(t[i]));
                if t[i] == p {
                    lemma_path_order(p, sorted.last(), p);
                } else {
                    let k = choose|k: int| 0 <= k < front.len() && front[k] == t[i];
                    assert(sorted[k] == t[i]);
                    assert(!path_less(sorted[sorted.len() - 1], sorted[k]));
                }
            }
        }
        assert forall|q: Seq<char>| #[trigger] r.contains(q) implies sorted.contains(q) || q
            == p by {
            let k = choose|k: int| 0 <= k < r.len() && r[k] == q;
            if k < t.len() {
                assert(t.contains(t[k]));
                if q != p {
                    let m = choose|m: int| 0 <= m < front.len() && front[m] == q;
                    assert(sorted[m] == q);
                }
            } else {
                assert(sorted[sorted.len() - 1] == q);
            }
        }
    }
}

/// Sorting puts the same paths in order.
pub proof fn lemma_sorted_paths(paths: Seq<Seq<char>>)
    ensures
        paths_in_order(sorted_paths(paths)),
        sorted_paths(paths).to_multiset() == paths.to_multiset(),
        sorted_paths(paths).len() == paths.len(),
    decreases paths.len(),
{
    broadcast use vstd::seq_lib::group_to_multiset_ensures;

    if paths.len() > 0 {
        lemma_sorted_paths(paths.drop_last());
        lemma_insert_path(sorted_paths(paths.drop_last()), paths.last());
        assert(paths.drop_last().push(paths.last()) == paths);
    } else {
        assert(paths =~= Seq::<Seq<char>>::empty());
    }
}

/// Dictionary order of two texts.
fn text_precedes(a: &str, b: &str) -> (r: bool)
    ensures
        r == text_less(a@, b@),
{
    let x = chars_of(a);
    let y = chars_of(b);
    let mut i: usize = 0;
    proof {
        assert(x@.skip(0) == x@);
        assert(y@.skip(0) == y@);
    }
    while i < x.len() && i < y.len()
        invariant
            i <= x@.len(),
            i <= y@.len(),
            text_less(a@, b@) == text_less(x@.skip(i as int), y@.skip(i as int)),
        decreases x.len() - i,
    {
        proof {
            assert(x@.skip(i as int)[0] == x@[i as int]);
            assert(y@.skip(i as int)[0] == y@[i as int]);
            assert(x@.skip(i as int).drop_first() == x@.skip(i + 1));
            assert(y@.skip(i as int).drop_first() == y@.skip(i + 1));
        }
        if x[i] != y[i] {
            return x[i] < y[i];
        }
        i = i + 1;
    }
    i < y.len()
}

fn rank_of(c: &str) -> (r: u8)
    ensures
        r == rank(c@),
{
    if same(c, "/") {
        0
    } else if same(c, ".") {
        1
    } else if same(c, "..") {
        2
    } else {
        3
    }
}

/// Whether path `a` sorts before path `b`.
pub fn precedes(a: &str, b: &str) -> (r: bool)
    ensures
        r == path_less(a@, b@),
{
    let x = components(a);
    let y = components(b);
    let mut i: usize = 0;
    proof {
        assert(views(x@).skip(0) =~= views(x@));
        assert(views(y@).skip(0) =~= views(y@));
    }
    while i < x.len() && i < y.len()
        invariant
            i <= x@.len(),
            i <= y@.len(),
            path_less(a@, b@) == components_less(
                views(x@).skip(i as int),
                views(y@).skip(i as int),
            ),
        decreases x.len() - i,
    {
        proof {
            assert(views(x@).skip(i as int)[0] == x@[i as int]@);
            assert(views(y@).skip(i as int)[0] == y@[i as int]@);
            assert(views(x@).skip(i as int).drop_first() =~= views(x@).skip(i + 1));
            assert(views(y@).skip(i as int).drop_first() =~= views(y@).skip(i + 1));
        }
        if !same(x[i].as_str(), y[i].as_str()) {
            let p: u8 = rank_of(x[i].as_str());
            let q: u8 = rank_of(y[i].as_str());
            return p < q || (p == q && p == 3 && text_precedes(x[i].as_str(), y[i].as_str()));
        }
        i = i + 1;
    }
    proof {
        assert(views(x@).skip(i as int).len() == x@.len() - i);
        assert(views(y@).skip(i as int).len() == y@.len() - i);
    }
    i < y.len()
}

/// The paths in order.
pub fn sort_paths(paths: &Vec<String>) -> (r: Vec<String>)
    ensures
        views(r@) == sorted_paths(views(paths@)),
{
    let mut out: Vec<String> = Vec::new();
    let mut n: usize = 0;
    proof {
        assert(views(paths@).take(0) =~= Seq::<Seq<char>>::empty());
        assert(views(out@) =~= Seq::<Seq<char>>::empty());
    }
    while n < paths.len()
        invariant
            n <= paths@.len(),
            views(out@) == sorted_paths(views(paths@).take(n as int)),
        decreases paths.len() - n,
    {
        let p = owned(paths[n].as_str());
        let ghost before = views(out@);
        let ghost target = insert_path(before, p@);
        proof {
            let all = views(paths@);
            assert(all.take(n + 1).drop_last() =~= all.take(n as int));
            assert(all.take(n + 1).last() == p@);
            assert(before.take(before.len() as int) =~= before);
            assert(target + before.skip(before.len() as int) =~= target);
        }
        let mut at: usize = out.len();
        while at > 0 && precedes(p.as_str(), out[at - 1].as_str())
            invariant
                at <= out@.len(),
                before == views(out@),
                target == insert_path(before.take(at as int), p@) + before.skip(at as int),
            decreases at,
        {
            proof {
                let t = before.take(at as int);
                assert(t.drop_last() =~= before.take(at - 1));
                assert(t.last() == out@[at - 1]@);
                assert(insert_path(t.drop_last(), p@).push(t.last()) + before.skip(at as int)
                    =~= insert_path(before.take(at - 1), p@) + before.skip(at - 1));
            }
            at = at - 1;
        }
        proof {
            let t = before.take(at as int);
            if at > 0 {
                assert(t.last() == out@[at - 1]@);
            }
            assert(t.push(p@) + before.skip(at as int) =~= views(out@.insert(at as int, p)));
        }
        out.insert(at, p);
        n = n + 1;
    }
    proof {
        assert(views(paths@).take(paths@.len() as int) =~= views(paths@));
    }
    out
}

// ---------------------------------------------------------------------------
// Joining
// ---------------------------------------------------------------------------

/// Spans, further along.
pub open spec fn shifted(v: Seq<(int, int)>, by: int) -> Seq<(int, int)> {
    Seq::new(v.len(), |i: int| (v[i].0 + by, v[i].1 + by))
}

proof fn lemma_part_end_of_base(base: Seq<char>, tail: Seq<char>, i: int)
    requires
        0 <= i <= base.len(),
    ensures
        part_end(base + "/"@ + tail, i) == part_end(base, i),
    decreases base.len() - i,
{
    reveal_strlit("/");
    let s = base + "/"@ + tail;
    assert("/"@ =~= seq!['/']);
    if i < base.len() {
        assert(s[i] == base[i]);
        if base[i] != '/' {
            lemma_part_end_of_base(base, tail, i + 1);
        }
    } else {
        assert(s[i] == '/');
    }
}

proof fn lemma_part_end_of_tail(base: Seq<char>, tail: Seq<char>, j: int)
    requires
        0 <= j <= tail.len(),
    ensures
        part_end(base + "/"@ + tail, base.len() + 1 + j) == base.len() + 1 + part_end(tail, j),
    decreases tail.len() - j,
{
    reveal_strlit("/");
    let s = base + "/"@ + tail;
    assert("/"@ =~= seq!['/']);
    if j < tail.len() {
        assert(s[base.len() + 1 + j] == tail[j]);
        if tail[j] != '/' {
            lemma_part_end_of_tail(base, tail, j + 1);
        }
    }
}

proof fn lemma_spans_of_tail(base: Seq<char>, tail: Seq<char>, j: int)
    requires
        0 <= j <= tail.len() + 1,
        j == 0 ==> !(part_end(tail, 0) == 1 && tail[0] == '.'),
    ensures
        spans_from(base + "/"@ + tail, base.len() + 1 + j) == shifted(
            spans_from(tail, j),
            base.len() as int + 1,
        ),
    decreases tail.len() - j + 1,
{
    reveal_strlit("/");
    let s = base + "/"@ + tail;
    let n = base.len() + 1;
    assert("/"@ =~= seq!['/']);
    assert(s.len() == n + tail.len());
    if j > tail.len() {
        assert(spans_from(s, n + j) =~= shifted(spans_from(tail, j), n as int));
    } else {
        lemma_part_end(tail, j);
        lemma_part_end_of_tail(base, tail, j);
        let e = part_end(tail, j);
        lemma_spans_of_tail(base, tail, e + 1);
        if j < tail.len() {
            assert(s[n + j] == tail[j]);
        }
        assert(is_noise(s, n + j, n + e) == is_noise(tail, j, e));
        assert(spans_from(s, n + j) =~= shifted(spans_from(tail, j), n as int));
    }
}

proof fn lemma_spans_of_base(base: Seq<char>, tail: Seq<char>, i: int)
    requires
        0 <= i <= base.len(),
    ensures
        spans_from(base + "/"@ + tail, i) == spans_from(base, i) + spans_from(
            base + "/"@ + tail,
            base.len() as int + 1,
        ),
    decreases base.len() - i,
{
    reveal_strlit("/");
    let s = base + "/"@ + tail;
    let n = base.len() as int;
    assert("/"@ =~= seq!['/']);
    lemma_part_end(base, i);
    lemma_part_end_of_base(base, tail, i);
    let e = part_end(base, i);
    if i < n {
        assert(s[i] == base[i]);
    }
    assert(is_noise(s, i, e) == is_noise(base, i, e));
    if e < n {
        lemma_spans_of_base(base, tail, e + 1);
        assert(spans_from(s, i) =~= spans_from(base, i) + spans_from(s, n + 1));
    } else {
        assert(spans_from(base, n + 1) =~= Seq::<(int, int)>::empty());
        assert(spans_from(s, i) =~= spans_from(base, i) + spans_from(s, n + 1));
    }
}

/// Joining puts the components one after the other, when the second path is
/// relative and does not begin with `.`.
pub proof fn lemma_join_components(base: Seq<char>, tail: Seq<char>)
    requires
        base.len() > 0,
        base.last() != '/',
        !rooted(tail),
        components_of(tail).len() > 0 ==> components_of(tail)[0] != "."@,
    ensures
        components_of(joined(base, tail)) == components_of(base) + components_of(tail),
        spans(joined(base, tail)) == spans(base) + shifted(spans(tail), base.len() as int + 1),
{
    reveal_strlit("/");
    reveal_strlit(".");
    let s = base + "/"@ + tail;
    let n = base.len() as int;
    assert("/"@ =~= seq!['/']);
    assert(joined(base, tail) == s);
    lemma_part_end(tail, 0);
    if part_end(tail, 0) == 1 && tail[0] == '.' {
        assert(spans(tail)[0] == (0int, 1int));
        assert(tail.subrange(0, 1) =~= "."@);
        assert(components_of(tail)[0] == tail.subrange(0, 1));
    }
    lemma_spans_of_tail(base, tail, 0);
    lemma_spans_of_base(base, tail, 0);
    assert(s[0] == base[0]);
    lemma_spans(base);
    lemma_spans(tail);
    assert(spans(s) =~= spans(base) + shifted(spans(tail), n + 1));
    let a = components_of(base);
    let b = components_of(tail);
    let c = components_of(s);
    assert(c.len() == a.len() + b.len());
    assert forall|i: int| 0 <= i < c.len() implies c[i] == (a + b)[i] by {
        if i < a.len() {
            assert(spans(s)[i] == spans(base)[i]);
            assert(s.subrange(spans(base)[i].0, spans(base)[i].1) =~= base.subrange(
                spans(base)[i].0,
                spans(base)[i].1,
            ));
        } else {
            let k = i - a.len();
            let sp = spans(tail)[k];
            assert(spans(s)[i] == (sp.0 + n + 1, sp.1 + n + 1));
            assert(s.subrange(sp.0 + n + 1, sp.1 + n + 1) =~= tail.subrange(sp.0, sp.1));
        }
    }
    assert(c =~= a + b);
}

} // verus!
