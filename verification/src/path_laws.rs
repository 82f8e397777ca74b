//! What paths are made of, told by their names and by how they are written.

use vstd::prelude::*;

use crate::path::{is_dot, is_name, names_of, parsed, pieces, texts, PathView};

verus! {

/// A name is a text that is not empty and has no slash; `.` is the one by which a
/// directory calls itself.
pub proof fn names_are_names(name: Seq<char>)
    ensures
        is_name(name) <==> name.len() > 0 && forall|i: int|
            0 <= i < name.len() ==> #[trigger] name[i] != '/',
        is_dot(name) <==> name == seq!['.'],
{
    if forall|i: int| 0 <= i < name.len() ==> #[trigger] name[i] != '/' {
        assert(!name.contains('/'));
    }
    if !name.contains('/') {
        assert forall|i: int| 0 <= i < name.len() implies #[trigger] name[i] != '/' by {
            assert(name.contains(name[i]));
        }
    }
    if is_dot(name) {
        assert(name =~= seq!['.']);
    }
}

/// A path is in order just where all its names are names and `.` is at most the
/// first name of a relative path.
pub proof fn paths_are_in_order(path: PathView)
    ensures
        path.wf() <==> (forall|i: int| #![trigger path.names[i]]
            0 <= i < path.names.len() ==> path.names[i].len() > 0 && !path.names[i].contains('/')
                && (path.names[i] == seq!['.'] ==> i == 0 && !path.absolute)),
{
    assert forall|i: int| 0 <= i < path.names.len() implies is_dot(#[trigger] path.names[i]) == (
    path.names[i] == seq!['.']) by {
        names_are_names(path.names[i]);
    }
    if path.wf() {
        assert forall|i: int|
            #![trigger path.names[i]]
            0 <= i < path.names.len() implies path.names[i].len() > 0 && !path.names[i].contains(
            '/',
        ) && (path.names[i] == seq!['.'] ==> i == 0 && !path.absolute) by {
            assert(is_name(path.names[i]));
        }
    }
}

/// The directories on the way to a path have its first names.
pub proof fn ancestors_have_the_first_names(path: PathView, k: int)
    requires
        0 <= k <= path.names.len(),
    ensures
        path.ancestor(k).absolute == path.absolute,
        path.ancestor(k).names.len() == k,
        forall|i: int| 0 <= i < k ==> #[trigger] path.ancestor(k).names[i] == path.names[i],
{
}

/// An entry of a directory has one name more, and the directory is its parent. A
/// path of no names is no entry of any.
pub proof fn parents_and_children(path: PathView, name: Seq<char>)
    ensures
        path.child(name).absolute == path.absolute,
        path.child(name).names == path.names.push(name),
        path.child(name).parent() == Some(path),
        path.parent() is None <==> path.names.len() == 0,
        path.parent() matches Some(dir) ==> dir.child(path.names[path.names.len() - 1]) == path,
        path.is_empty() <==> !path.absolute && path.names.len() == 0,
{
    assert(path.child(name).names.take(path.names.len() as int) =~= path.names);
    assert(path.child(name).ancestor(path.names.len() as int) =~= path);
    if path.names.len() > 0 {
        let dir = path.ancestor(path.names.len() - 1);
        assert(dir.names.push(path.names[path.names.len() - 1]) =~= path.names);
    }
}

/// A path begins with another just where it starts where that starts and has its
/// names first, or that is the empty path.
pub proof fn paths_begin_with_their_prefixes(path: PathView, base: PathView)
    ensures
        path.starts_with(base) <==> (!base.absolute && base.names.len() == 0) || (path.absolute
            == base.absolute && base.names.len() <= path.names.len() && forall|i: int|
            0 <= i < base.names.len() ==> #[trigger] path.names[i] == base.names[i]),
{
    if base.names.is_prefix_of(path.names) {
        assert forall|i: int| 0 <= i < base.names.len() implies #[trigger] path.names[i]
            == base.names[i] by {
            assert(path.names.take(base.names.len() as int)[i] == path.names[i]);
        }
    }
    if base.names.len() <= path.names.len() && forall|i: int|
        0 <= i < base.names.len() ==> #[trigger] path.names[i] == base.names[i] {
        assert(base.names =~= path.names.take(base.names.len() as int));
    }
}

/// What is left behind a prefix has the names behind it; it is absolute only
/// where the path is and nothing was taken away. A path that does not begin with
/// the prefix leaves nothing.
pub proof fn prefixes_are_stripped(path: PathView, base: PathView)
    ensures
        path.strip_prefix(base) is Some <==> path.starts_with(base),
        path.strip_prefix(base) matches Some(rest) ==> {
            &&& rest.names.len() + base.names.len() == path.names.len()
            &&& forall|i: int|
                0 <= i < rest.names.len() ==> #[trigger] rest.names[i] == path.names[i
                    + base.names.len()]
            &&& rest.absolute <==> path.absolute && !base.absolute
        },
{
    if path.starts_with(base) {
        paths_begin_with_their_prefixes(path, base);
    }
}

/// A relative path leads from a directory through its names, but for a `.` in
/// front; an absolute one, or any from the empty path, leads where it leads.
pub proof fn paths_lead_on(dir: PathView, rel: PathView)
    ensures
        rel.absolute ==> dir.join(rel) == rel,
        !dir.absolute && dir.names.len() == 0 ==> dir.join(rel) == rel,
        !rel.absolute && (dir.absolute || dir.names.len() > 0) ==> {
            let joined = dir.join(rel);
            let skipped: int = if rel.names.len() > 0 && rel.names[0] == seq!['.'] {
                1
            } else {
                0
            };
            &&& joined.absolute == dir.absolute
            &&& joined.names.len() == dir.names.len() + rel.names.len() - skipped
            &&& forall|i: int|
                0 <= i < dir.names.len() ==> #[trigger] joined.names[i] == dir.names[i]
            &&& forall|i: int|
                skipped <= i < rel.names.len() ==> joined.names[dir.names.len() + i - skipped]
                    == #[trigger] rel.names[i]
        },
{
    if rel.names.len() > 0 {
        names_are_names(rel.names[0]);
    }
    let joined = dir.join(rel);
    if !rel.absolute && (dir.absolute || dir.names.len() > 0) && rel.names.len() > 0
        && rel.names[0] == seq!['.'] {
        assert forall|i: int| 1 <= i < rel.names.len() implies joined.names[dir.names.len() + i - 1]
            == #[trigger] rel.names[i] by {
            assert(rel.names.skip(1)[i - 1] == rel.names[i]);
        }
    }
}

/// The empty path is written as nothing and the root as a slash; an entry is
/// written behind its directory, with a slash in between unless that is one of
/// these two.
pub proof fn paths_are_written_name_by_name(dir: PathView, name: Seq<char>)
    ensures
        (PathView { absolute: false, names: Seq::empty() }).text() == Seq::<char>::empty(),
        (PathView { absolute: true, names: Seq::empty() }).text() == seq!['/'],
        dir.names.len() == 0 ==> dir.child(name).text() == dir.text() + name,
        dir.names.len() > 0 ==> dir.child(name).text() == dir.text().push('/') + name,
{
    assert(seq!['/'] + Seq::<char>::empty() =~= seq!['/']);
    assert(dir.child(name).names.drop_last() =~= dir.names);
    if dir.names.len() == 0 {
        assert(Seq::<char>::empty() + name =~= name);
        assert(dir.child(name).text() =~= dir.text() + name);
    } else {
        assert(dir.child(name).text() =~= dir.text().push('/') + name);
    }
}

proof fn lemma_some_piece(text: Seq<char>)
    ensures
        pieces(text).len() > 0,
    decreases text.len(),
{
    if text.len() > 0 {
        lemma_some_piece(text.drop_last());
    }
}

/// A slash parts the pieces before it from those behind it.
proof fn lemma_slash_parts(a: Seq<char>, b: Seq<char>)
    ensures
        pieces(a.push('/') + b) == pieces(a) + pieces(b),
    decreases b.len(),
{
    let text = a.push('/') + b;
    lemma_some_piece(a);
    if b.len() == 0 {
        assert(text =~= a.push('/'));
        assert(text.drop_last() =~= a);
        assert(pieces(text) =~= pieces(a) + pieces(b));
    } else {
        assert(text.drop_last() =~= a.push('/') + b.drop_last());
        lemma_slash_parts(a, b.drop_last());
        lemma_some_piece(b.drop_last());
        let (x, y) = (pieces(a), pieces(b.drop_last()));
        assert((x + y).last() == y.last());
        assert((x + y).drop_last() =~= x + y.drop_last());
        assert(pieces(text) =~= x + pieces(b));
    }
}

/// The pieces that count as names past the front.
spec fn later_names(pieces: Seq<Seq<char>>) -> Seq<Seq<char>>
    decreases pieces.len(),
{
    if pieces.len() == 0 {
        Seq::empty()
    } else {
        let before = later_names(pieces.drop_last());
        if pieces.last().len() == 0 || is_dot(pieces.last()) {
            before
        } else {
            before.push(pieces.last())
        }
    }
}

proof fn lemma_later_names(a: Seq<Seq<char>>, b: Seq<Seq<char>>)
    ensures
        later_names(a + b) == later_names(a) + later_names(b),
        a.len() > 0 ==> names_of(a + b) == names_of(a) + later_names(b),
    decreases b.len(),
{
    if b.len() == 0 {
        assert(a + b =~= a);
        assert(later_names(a) + later_names(b) =~= later_names(a));
        assert(names_of(a) + later_names(b) =~= names_of(a));
    } else {
        assert((a + b).drop_last() =~= a + b.drop_last());
        assert((a + b).last() == b.last());
        lemma_later_names(a, b.drop_last());
        assert(later_names(a + b) =~= later_names(a) + later_names(b));
        if a.len() > 0 {
            assert(names_of(a + b) =~= names_of(a) + later_names(b));
        }
    }
}

/// A piece that is empty or `.` makes no difference past the front.
proof fn lemma_piece_is_nothing(a: Seq<char>, piece: Seq<char>, b: Seq<char>)
    requires
        piece.len() == 0 || is_dot(piece),
    ensures
        names_of(pieces(a) + (seq![piece] + pieces(b))) == names_of(pieces(a) + pieces(b)),
        names_of(pieces(a) + seq![piece]) == names_of(pieces(a)),
{
    lemma_some_piece(a);
    let one = seq![piece];
    assert(one.drop_last() =~= Seq::empty());
    assert(later_names(one.drop_last()) =~= Seq::empty());
    assert(later_names(one) =~= Seq::empty());
    lemma_later_names(one, pieces(b));
    lemma_later_names(pieces(a), one + pieces(b));
    lemma_later_names(pieces(a), pieces(b));
    lemma_later_names(pieces(a), one);
    assert(Seq::<Seq<char>>::empty() + later_names(pieces(b)) =~= later_names(pieces(b)));
    assert(names_of(pieces(a)) + Seq::<Seq<char>>::empty() =~= names_of(pieces(a)));
}

proof fn lemma_one_piece(name: Seq<char>)
    requires
        name.len() == 0 || is_dot(name),
    ensures
        pieces(name) == seq![name],
{
    if name.len() == 0 {
        assert(name =~= Seq::empty());
    } else {
        assert(name.drop_last() =~= Seq::empty());
        assert(pieces(name.drop_last()) =~= seq![Seq::<char>::empty()]);
        assert(Seq::<char>::empty().push(name.last()) =~= name);
        assert(pieces(name) =~= seq![name]);
    }
}

/// Slashes in a row are read as one, a slash at the end as nothing, and so is `.`
/// behind a slash, whatever stands around it.
pub proof fn paths_are_read_as_they_count(a: Seq<char>, b: Seq<char>)
    ensures
        parsed(a.push('/').push('/') + b) == parsed(a.push('/') + b),
        parsed(a.push('/').push('.').push('/') + b) == parsed(a.push('/') + b),
        parsed(a.push('/').push('.')) == parsed(a.push('/')),
        a.len() > 0 ==> parsed(a.push('/')) == parsed(a),
{
    let (none, dot) = (Seq::<char>::empty(), seq!['.']);
    lemma_one_piece(none);
    lemma_one_piece(dot);
    lemma_piece_is_nothing(a, none, b);
    lemma_piece_is_nothing(a, dot, b);
    lemma_slash_parts(a, b);
    lemma_slash_parts(none, b);
    lemma_slash_parts(dot, b);
    lemma_slash_parts(a, none.push('/') + b);
    lemma_slash_parts(a, dot.push('/') + b);
    lemma_slash_parts(a, dot);
    lemma_slash_parts(a, none);
    assert(a.push('/') + (none.push('/') + b) =~= a.push('/').push('/') + b);
    assert(a.push('/') + (dot.push('/') + b) =~= a.push('/').push('.').push('/') + b);
    assert(a.push('/') + dot =~= a.push('/').push('.'));
    assert(a.push('/') + none =~= a.push('/'));
    assert((a.push('/') + b)[0] == a.push('/')[0]);
    assert((a.push('/').push('/') + b)[0] == a.push('/')[0]);
    assert((a.push('/').push('.').push('/') + b)[0] == a.push('/')[0]);
}

/// A path that is written down starts at the root just where a slash comes first.
pub proof fn absolute_paths_begin_with_a_slash(text: Seq<char>)
    ensures
        parsed(text).absolute <==> text.len() > 0 && text[0] == '/',
{
}

/// What is told of strings is what they hold, each in its place.
pub proof fn texts_are_what_strings_hold(strings: Seq<String>, i: int)
    ensures
        texts(strings).len() == strings.len(),
        0 <= i < strings.len() ==> texts(strings)[i] == strings[i]@,
{
}

} // verus!
