//! Where things are: paths, lines and columns.
use vstd::prelude::*;
use vstd::utf8::{
    encode_scalar, encode_utf8, last_continuation_byte, leading_byte_width_1, leading_byte_width_2,
    leading_byte_width_3, leading_byte_width_4, second_last_continuation_byte,
    third_last_continuation_byte,
};

use crate::bytes::lemma_encode_concat;
use crate::laws::text::lemma_join_adds_one;
use crate::patching::{backup_path_of, BACKUP_SUFFIX};
use crate::path::{
    components_of, file_name_of, from_component, is_below, is_name, is_same_path, joined,
    lemma_join_components, part_end, relative_to, rooted, shifted, spans, spans_from, without_last,
};
use crate::storage::{artifact_error, artifact_of};
use crate::text::join_of;
use crate::util::{column_at, count_byte, last_line_len, line_at, shown_path, text_before};

verus! {

// ---------------------------------------------------------------------------
// Paths
// ---------------------------------------------------------------------------

/// Whether a text is a name: something, without a slash, and neither `.` nor `..`.
pub open spec fn is_plain_name(n: Seq<char>) -> bool {
    n.len() > 0 && !n.contains('/') && n != "."@ && n != ".."@
}

/// Whether there are names, and nothing else.
pub open spec fn are_plain_names(names: Seq<Seq<char>>) -> bool {
    names.len() > 0 && forall|i: int| 0 <= i < names.len() ==> is_plain_name(#[trigger] names[i])
}

/// A path as it is usually written: names with single slashes between them.
pub open spec fn path_of(names: Seq<Seq<char>>) -> Seq<char> {
    join_of(names, "/"@)
}

proof fn lemma_part_end_of_name(n: Seq<char>, i: int)
    requires
        !n.contains('/'),
        0 <= i <= n.len(),
    ensures
        part_end(n, i) == n.len(),
    decreases n.len() - i,
{
    if i < n.len() {
        assert(n.contains(n[i]));
        lemma_part_end_of_name(n, i + 1);
    }
}

proof fn lemma_one_name(n: Seq<char>)
    requires
        is_plain_name(n),
    ensures
        spans(n) == seq![(0int, n.len() as int)],
        components_of(n) == seq![n],
        !rooted(n),
        n.last() != '/',
{
    lemma_part_end_of_name(n, 0);
    assert(n.contains(n[0]));
    assert(n.contains(n[n.len() - 1]));
    assert(spans_from(n, n.len() as int + 1) =~= Seq::<(int, int)>::empty());
    assert(spans_from(n, 0) =~= seq![(0int, n.len() as int)]);
    assert(n.subrange(0, n.len() as int) =~= n);
    assert(components_of(n) =~= seq![n]);
}

/// One more name below a directory is one more component.
pub proof fn lemma_add_name(base: Seq<char>, name: Seq<char>)
    requires
        base.len() > 0,
        base.last() != '/',
        is_plain_name(name),
    ensures
        components_of(joined(base, name)) == components_of(base).push(name),
        spans(joined(base, name)) == spans(base).push(
            (base.len() as int + 1, joined(base, name).len() as int),
        ),
        joined(base, name) == base + "/"@ + name,
        joined(base, name).last() != '/',
{
    reveal_strlit("/");
    lemma_one_name(name);
    assert(components_of(name)[0] != "."@);
    lemma_join_components(base, name);
    assert(components_of(joined(base, name)) =~= components_of(base).push(name));
    assert(spans(joined(base, name)) =~= spans(base).push(
        (base.len() as int + 1, joined(base, name).len() as int),
    ));
}

/// A path has the components it is written with.
pub proof fn lemma_path_has_its_names(names: Seq<Seq<char>>)
    requires
        are_plain_names(names),
    ensures
        components_of(path_of(names)) == names,
        path_of(names).len() > 0,
        path_of(names).last() != '/',
        !rooted(path_of(names)),
        spans(path_of(names)).len() == names.len(),
        spans(path_of(names))[0].0 == 0,
        spans(path_of(names)).last().1 == path_of(names).len(),
    decreases names.len(),
{
    let front = names.drop_last();
    let last = names.last();
    assert(is_plain_name(names[names.len() - 1]));
    if front.len() == 0 {
        lemma_one_name(last);
        assert(names =~= seq![last]);
    } else {
        assert forall|i: int| 0 <= i < front.len() implies is_plain_name(#[trigger] front[i]) by {
            assert(front[i] == names[i]);
        }
        lemma_path_has_its_names(front);
        let base = path_of(front);
        lemma_add_name(base, last);
        lemma_one_name(last);
        assert(front.push(last) =~= names);
        lemma_join_adds_one(front, "/"@, last);
        assert(path_of(names)[0] == base[0]);
        assert(components_of(path_of(names)) =~= names);
    }
}

/// What is below a directory is shown, and kept in the store, by the names that lead to it.
pub proof fn lemma_relative_path_is_the_rest(base: Seq<char>, names: Seq<Seq<char>>)
    requires
        base.len() > 0,
        base.last() != '/',
        are_plain_names(names),
    ensures
        is_below(joined(base, path_of(names)), base),
        relative_to(joined(base, path_of(names)), base) == Some(path_of(names)),
        components_of(joined(base, path_of(names))) == components_of(base) + names,
{
    reveal_strlit("/");
    let tail = path_of(names);
    lemma_path_has_its_names(names);
    assert(is_plain_name(names[0]));
    lemma_join_components(base, tail);
    let s = joined(base, tail);
    let a = components_of(base);
    assert((a + names).take(a.len() as int) =~= a);
    assert(a.is_prefix_of(components_of(s)));
    let k = a.len() as int;
    let n = base.len() as int;
    assert(spans(s)[k] == shifted(spans(tail), n + 1)[0]);
    assert(spans(s)[k].0 == n + 1);
    assert(spans(s).last().1 == s.len());
    assert(from_component(s, k) =~= tail);
}

/// A file of the crate is shown by the path that leads to it from the root, with forward
/// slashes; the root itself as `.`.
pub proof fn lemma_files_are_shown_relative(root: Seq<char>, names: Seq<Seq<char>>)
    requires
        root.len() > 0,
        root.last() != '/',
        are_plain_names(names),
    ensures
        shown_path(root, joined(root, path_of(names))).len() == path_of(names).len(),
        forall|i: int|
            0 <= i < path_of(names).len() ==> (#[trigger] shown_path(
                root,
                joined(root, path_of(names)),
            )[i]) == if path_of(names)[i] == '\\' {
                '/'
            } else {
                path_of(names)[i]
            },
{
    lemma_relative_path_is_the_rest(root, names);
    lemma_path_has_its_names(names);
}

/// A file that is not below the root is shown by its whole path.
pub proof fn lemma_files_elsewhere_are_shown_whole(root: Seq<char>, file: Seq<char>)
    requires
        !is_below(file, root),
        !file.contains('\\'),
    ensures
        shown_path(root, file) == file,
{
    assert forall|i: int| 0 <= i < file.len() implies #[trigger] file[i] != '\\' by {
        assert(file.contains(file[i]));
    }
    assert(shown_path(root, file) =~= file);
}

/// The place of a file's artifact is the same path below the directory for artifacts.
pub proof fn lemma_artifacts_mirror_the_crate(
    root: Seq<char>,
    dir: Seq<char>,
    names: Seq<Seq<char>>,
)
    requires
        root.len() > 0,
        root.last() != '/',
        are_plain_names(names),
    ensures
        artifact_error(root, dir, joined(root, path_of(names))) is None,
        artifact_of(root, dir, joined(root, path_of(names))) == joined(dir, path_of(names)),
{
    reveal_strlit("/");
    reveal_strlit(".");
    reveal_strlit("..");
    lemma_relative_path_is_the_rest(root, names);
    lemma_path_has_its_names(names);
    let rel = path_of(names);
    assert forall|i: int| 0 <= i < components_of(rel).len() implies is_name(
        #[trigger] components_of(rel)[i],
    ) by {
        let c = names[i];
        assert(is_plain_name(c));
        if c == "/"@ {
            assert("/"@[0] == '/');
            assert(c.contains('/'));
        }
    }
}

/// The name of a file is its last one, and its backup stands beside it, under that name with
/// the suffix.
pub proof fn lemma_backup_stands_beside(base: Seq<char>, name: Seq<char>)
    requires
        base.len() > 0,
        base.last() != '/',
        spans(base).len() > 0,
        spans(base).last().1 == base.len(),
        is_plain_name(name),
    ensures
        file_name_of(base + "/"@ + name) == Some(name),
        without_last(base + "/"@ + name) == base,
        backup_path_of(base + "/"@ + name) == base + "/"@ + name + ".cargo-hole.bak"@,
{
    reveal_strlit("/");
    reveal_strlit(".");
    reveal_strlit("..");
    reveal_strlit(".cargo-hole.bak");
    lemma_add_name(base, name);
    let s = base + "/"@ + name;
    if name == "/"@ {
        assert("/"@[0] == '/');
        assert(name.contains('/'));
    }
    assert(is_name(name));
    assert(s.take(base.len() as int) =~= base);
    assert(spans(s)[spans(s).len() - 2] == spans(base).last());
    let with = name + BACKUP_SUFFIX@;
    assert(with[0] == name[0]);
    assert(name.contains(name[0]));
    assert(base + "/"@ + (name + BACKUP_SUFFIX@) =~= s + BACKUP_SUFFIX@);
}

/// Two paths are the same exactly when they are written with the same names.
pub proof fn lemma_paths_are_the_same_by_names(a: Seq<Seq<char>>, b: Seq<Seq<char>>)
    requires
        are_plain_names(a),
        are_plain_names(b),
    ensures
        is_same_path(path_of(a), path_of(b)) <==> a == b,
{
    lemma_path_has_its_names(a);
    lemma_path_has_its_names(b);
}

// ---------------------------------------------------------------------------
// Lines and columns
// ---------------------------------------------------------------------------

proof fn lemma_count_concat(a: Seq<u8>, b: Seq<u8>, x: u8)
    ensures
        count_byte(a + b, x) == count_byte(a, x) + count_byte(b, x),
    decreases b.len(),
{
    if b.len() == 0 {
        assert(a + b =~= a);
    } else {
        assert((a + b).drop_last() =~= a + b.drop_last());
        lemma_count_concat(a, b.drop_last(), x);
    }
}

proof fn lemma_wide_bytes(u: u32)
    requires
        u >= 0x80,
    ensures
        forall|i: int| 0 <= i < encode_scalar(u).len() ==> #[trigger] encode_scalar(u)[i] != 10,
{
    assert(leading_byte_width_2(u) >= 0x80) by (bit_vector);
    assert(leading_byte_width_3(u) >= 0x80) by (bit_vector);
    assert(leading_byte_width_4(u) >= 0x80) by (bit_vector);
    assert(last_continuation_byte(u) >= 0x80) by (bit_vector);
    assert(second_last_continuation_byte(u) >= 0x80) by (bit_vector);
    assert(third_last_continuation_byte(u) >= 0x80) by (bit_vector);
}

proof fn lemma_newlines_of_one(c: char)
    ensures
        count_byte(encode_utf8(seq![c]), 10) == if c == '\n' {
            1nat
        } else {
            0nat
        },
{
    let u = c as u32;
    let e = encode_scalar(u);
    reveal_with_fuel(encode_utf8, 2);
    assert(seq![c].drop_first() =~= Seq::<char>::empty());
    assert(encode_utf8(seq![c]) =~= e);
    if u < 0x80 {
        assert(leading_byte_width_1(u) == u) by (bit_vector)
            requires
                u < 0x80,
        ;
        assert(e.drop_last() =~= Seq::<u8>::empty());
        reveal_with_fuel(count_byte, 2);
        assert(e.last() as u32 == u);
    } else {
        lemma_wide_bytes(u);
        lemma_none_of(e, 10);
    }
}

proof fn lemma_none_of(s: Seq<u8>, x: u8)
    requires
        forall|i: int| 0 <= i < s.len() ==> #[trigger] s[i] != x,
    ensures
        count_byte(s, x) == 0,
    decreases s.len(),
{
    if s.len() > 0 {
        assert(s[s.len() - 1] != x);
        lemma_none_of(s.drop_last(), x);
    }
}

proof fn lemma_newlines(a: Seq<char>)
    ensures
        count_byte(encode_utf8(a), 10) == a.filter(|c: char| c == '\n').len(),
    decreases a.len(),
{
    reveal(Seq::filter);
    if a.len() > 0 {
        let front = a.drop_last();
        lemma_newlines(front);
        assert(a =~= front + seq![a.last()]);
        lemma_encode_concat(front, seq![a.last()]);
        lemma_count_concat(encode_utf8(front), encode_utf8(seq![a.last()]), 10);
        lemma_newlines_of_one(a.last());
    }
}

proof fn lemma_text_before(a: Seq<char>, b: Seq<char>)
    ensures
        text_before(a + b, encode_utf8(a).len() as int) == a,
        encode_utf8(a + b).take(encode_utf8(a).len() as int) == encode_utf8(a),
{
    lemma_encode_concat(a, b);
    let n = encode_utf8(a).len() as int;
    assert(encode_utf8(a + b).take(n) =~= encode_utf8(a));
    vstd::utf8::encode_utf8_decode_utf8(a);
}

proof fn lemma_last_line(p: Seq<char>, q: Seq<char>)
    requires
        p.len() > 0 ==> p.last() == '\n',
        forall|i: int| 0 <= i < q.len() ==> #[trigger] q[i] != '\n',
    ensures
        last_line_len(p + q) == q.len(),
    decreases q.len(),
{
    if q.len() == 0 {
        assert(p + q =~= p);
    } else {
        let front = q.drop_last();
        assert forall|i: int| 0 <= i < front.len() implies #[trigger] front[i] != '\n' by {
            assert(front[i] == q[i]);
        }
        lemma_last_line(p, front);
        assert((p + q).drop_last() =~= p + front);
        assert((p + q).last() == q[q.len() - 1]);
    }
}

/// A place is on the line after as many newlines as stand before it, and in the column after
/// as many characters as follow the last of them.
pub proof fn lemma_places_are_counted(p: Seq<char>, q: Seq<char>, rest: Seq<char>)
    requires
        p.len() > 0 ==> p.last() == '\n',
        forall|i: int| 0 <= i < q.len() ==> #[trigger] q[i] != '\n',
    ensures
        ({
            let byte = encode_utf8(p + q).len() as int;
            &&& line_at(p + q + rest, byte) == 1 + p.filter(|c: char| c == '\n').len()
            &&& column_at(p + q + rest, byte) == 1 + q.len()
        }),
{
    let a = p + q;
    lemma_text_before(a, rest);
    lemma_encode_concat(a, rest);
    lemma_newlines(a);
    lemma_filter_none(p, q);
    lemma_last_line(p, q);
}

proof fn lemma_filter_none(p: Seq<char>, q: Seq<char>)
    requires
        forall|i: int| 0 <= i < q.len() ==> #[trigger] q[i] != '\n',
    ensures
        (p + q).filter(|c: char| c == '\n').len() == p.filter(|c: char| c == '\n').len(),
    decreases q.len(),
{
    reveal(Seq::filter);
    if q.len() == 0 {
        assert(p + q =~= p);
    } else {
        let front = q.drop_last();
        assert forall|i: int| 0 <= i < front.len() implies #[trigger] front[i] != '\n' by {
            assert(front[i] == q[i]);
        }
        lemma_filter_none(p, front);
        assert((p + q).drop_last() =~= p + front);
        assert((p + q).last() == q[q.len() - 1]);
    }
}

} // verus!
