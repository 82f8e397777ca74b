//! Paths of a Unix file system, taken apart into the names they are made of.

use vstd::prelude::*;

use crate::text;

verus! {

/// What a path says: whether it starts at the root, and the names on the way.
#[verifier::ext_equal]
pub struct PathView {
    pub absolute: bool,
    pub names: Seq<Seq<char>>,
}

/// A name that can stand between two slashes.
pub open spec fn is_name(name: Seq<char>) -> bool {
    name.len() > 0 && !name.contains('/')
}

/// The name by which a directory calls itself.
pub open spec fn is_dot(name: Seq<char>) -> bool {
    name.len() == 1 && name[0] == '.'
}

impl PathView {
    /// Every name is one, and `.` stands only at the front of a relative path.
    pub open spec fn wf(self) -> bool {
        &&& forall|i: int| 0 <= i < self.names.len() ==> is_name(#[trigger] self.names[i])
        &&& forall|i: int|
            0 <= i < self.names.len() && is_dot(#[trigger] self.names[i]) ==> i == 0
                && !self.absolute
    }

    /// The path of no names that does not start at the root.
    pub open spec fn is_empty(self) -> bool {
        !self.absolute && self.names.len() == 0
    }

    /// The directory `k` names down from where the path starts.
    pub open spec fn ancestor(self, k: int) -> PathView {
        PathView { absolute: self.absolute, names: self.names.take(k) }
    }

    /// The entry called `name` of the directory at this path.
    pub open spec fn child(self, name: Seq<char>) -> PathView {
        PathView { absolute: self.absolute, names: self.names.push(name) }
    }

    /// The path without its last name; a path of no names has no parent.
    pub open spec fn parent(self) -> Option<PathView> {
        if self.names.len() == 0 {
            None
        } else {
            Some(self.ancestor(self.names.len() - 1))
        }
    }

    /// Whether the path begins with the whole of `base`.
    pub open spec fn starts_with(self, base: PathView) -> bool {
        ||| base.is_empty()
        ||| self.absolute == base.absolute && base.names.is_prefix_of(self.names)
    }

    /// What is left of the path behind `base`.
    pub open spec fn strip_prefix(self, base: PathView) -> Option<PathView> {
        if self.starts_with(base) {
            Some(
                PathView {
                    absolute: self.absolute && !base.absolute,
                    names: self.names.skip(base.names.len() as int),
                },
            )
        } else {
            None
        }
    }

    /// The path that `rel` leads to from here. An absolute path leads where it
    /// leads from anywhere, and a leading `.` stays put.
    pub open spec fn join(self, rel: PathView) -> PathView {
        if rel.absolute || self.is_empty() {
            rel
        } else if rel.names.len() > 0 && is_dot(rel.names[0]) {
            PathView { absolute: self.absolute, names: self.names + rel.names.skip(1) }
        } else {
            PathView { absolute: self.absolute, names: self.names + rel.names }
        }
    }

    /// The path as it is written down.
    pub open spec fn text(self) -> Seq<char> {
        if self.absolute {
            seq!['/'] + joined(self.names)
        } else {
            joined(self.names)
        }
    }
}

/// The names with a slash between each two.
pub open spec fn joined(names: Seq<Seq<char>>) -> Seq<char>
    decreases names.len(),
{
    if names.len() == 0 {
        Seq::empty()
    } else if names.len() == 1 {
        names[0]
    } else {
        joined(names.drop_last()).push('/') + names.last()
    }
}

/// The pieces of `text` between its slashes.
pub open spec fn pieces(text: Seq<char>) -> Seq<Seq<char>>
    decreases text.len(),
{
    if text.len() == 0 {
        seq![Seq::empty()]
    } else {
        let before = pieces(text.drop_last());
        if text.last() == '/' {
            before.push(Seq::empty())
        } else {
            before.drop_last().push(before.last().push(text.last()))
        }
    }
}

/// The pieces that count as names: none that is empty, and `.` only in front.
pub open spec fn names_of(pieces: Seq<Seq<char>>) -> Seq<Seq<char>>
    decreases pieces.len(),
{
    if pieces.len() == 0 {
        Seq::empty()
    } else {
        let before = names_of(pieces.drop_last());
        if pieces.last().len() == 0 || (is_dot(pieces.last()) && pieces.len() > 1) {
            before
        } else {
            before.push(pieces.last())
        }
    }
}

/// The path that `text` writes down. Slashes in a row count as one, a slash at
/// the end counts for nothing, and neither does `.` past the front.
pub open spec fn parsed(text: Seq<char>) -> PathView {
    PathView { absolute: text.len() > 0 && text[0] == '/', names: names_of(pieces(text)) }
}

/// A path whose names are known.
#[derive(Debug, PartialEq, Eq)]
pub struct FilePath {
    absolute: bool,
    names: Vec<String>,
}

/// The texts that the strings hold.
pub open spec fn texts(strings: Seq<String>) -> Seq<Seq<char>> {
    strings.map_values(|s: String| s@)
}

impl View for FilePath {
    type V = PathView;

    closed spec fn view(&self) -> PathView {
        PathView { absolute: self.absolute, names: texts(self.names@) }
    }
}

impl Clone for FilePath {
    fn clone(&self) -> (copy: Self)
        ensures
            copy@ == self@,
    {
        proof {
            use_type_invariant(self);
        }
        let names = self.names.clone();
        proof {
            assert(names@ =~= self.names@);
        }
        FilePath { absolute: self.absolute, names }
    }
}

impl FilePath {
    /// Every path is well formed.
    #[verifier::type_invariant]
    pub open spec fn well_formed(self) -> bool {
        self@.wf()
    }

    /// The path without its last name. A path of no names has no parent.
    pub fn parent(&self) -> (parent: Option<FilePath>)
        ensures
            match parent {
                Some(dir) => self@.parent() == Some(dir@),
                None => self@.parent() is None,
            },
    {
        proof {
            use_type_invariant(self);
        }
        if self.names.len() == 0 {
            None
        } else {
            let mut names = self.names.clone();
            proof {
                assert(names@ =~= self.names@);
            }
            names.truncate(self.names.len() - 1);
            proof {
                assert(texts(names@) =~= texts(self.names@).take(self.names@.len() - 1));
            }
            Some(FilePath { absolute: self.absolute, names })
        }
    }

    /// The last name of the path.
    pub fn last_name(&self) -> (name: Option<&String>)
        ensures
            match name {
                Some(name) => self@.names.len() > 0 && name@ == self@.names.last(),
                None => self@.names.len() == 0,
            },
    {
        if self.names.len() == 0 {
            None
        } else {
            Some(&self.names[self.names.len() - 1])
        }
    }

    /// How many names the path is made of.
    pub fn depth(&self) -> (depth: usize)
        ensures
            depth == self@.names.len(),
    {
        self.names.len()
    }

    /// The entry called `name` of the directory at this path.
    pub fn child(&self, name: &str) -> (child: FilePath)
        requires
            is_name(name@),
            !is_dot(name@),
        ensures
            child@ == self@.child(name@),
    {
        proof {
            use_type_invariant(self);
        }
        let mut names = copied_from(&self.names, 0);
        let ghost before = names@;
        names.push(name.to_owned());
        proof {
            assert(texts(names@) =~= texts(before).push(name@));
            assert(self@.names.skip(0) =~= self@.names);
        }
        FilePath { absolute: self.absolute, names }
    }

    /// Whether two paths are the same, name by name.
    pub fn same(&self, other: &FilePath) -> (same: bool)
        ensures
            same == (self@ == other@),
    {
        self.absolute == other.absolute && self.names.len() == other.names.len()
            && self.has_prefix(other)
    }

    /// Whether the names of the path begin with those of `base`.
    fn has_prefix(&self, base: &FilePath) -> (prefix: bool)
        ensures
            prefix == base@.names.is_prefix_of(self@.names),
            prefix && base@.names.len() == self@.names.len() ==> base@.names == self@.names,
    {
        if base.names.len() > self.names.len() {
            return false;
        }
        let mut i: usize = 0;
        while i < base.names.len()
            invariant
                i <= base.names@.len() <= self.names@.len(),
                forall|j: int| 0 <= j < i ==> base@.names[j] == self@.names[j],
            decreases base.names@.len() - i,
        {
            if self.names[i] != base.names[i] {
                proof {
                    assert(base@.names[i as int] != self@.names[i as int]);
                    assert(base@.names.is_prefix_of(self@.names) ==> self@.names.take(
                        base@.names.len() as int,
                    )[i as int] == base@.names[i as int]);
                }
                return false;
            }
            i = i + 1;
        }
        proof {
            assert(base@.names =~= self@.names.take(base@.names.len() as int));
            assert(base@.names.len() == self@.names.len() ==> base@.names =~= self@.names);
        }
        true
    }

    /// Whether the path begins with the whole of `base`.
    pub fn starts_with(&self, base: &FilePath) -> (starts: bool)
        ensures
            starts == self@.starts_with(base@),
    {
        (!base.absolute && base.names.len() == 0) || (self.absolute == base.absolute
            && self.has_prefix(base))
    }

    /// What is left of the path behind `base`, if it begins with `base`.
    pub fn strip_prefix(&self, base: &FilePath) -> (rest: Option<FilePath>)
        ensures
            match rest {
                Some(rest) => self@.strip_prefix(base@) == Some(rest@),
                None => self@.strip_prefix(base@) is None,
            },
    {
        proof {
            use_type_invariant(self);
        }
        if !self.starts_with(base) {
            return None;
        }
        let names = copied_from(&self.names, base.names.len());
        let ghost stripped = self@.strip_prefix(base@)->0;
        proof {
            assert(texts(names@) =~= stripped.names);
            assert forall|i: int| 0 <= i < stripped.names.len() implies stripped.names[i]
                == self@.names[i + base@.names.len()] by {}
        }
        Some(FilePath { absolute: self.absolute && !base.absolute, names })
    }

    /// The path that `rel` leads to from this one.
    pub fn join(&self, rel: &FilePath) -> (joined: FilePath)
        ensures
            joined@ == self@.join(rel@),
    {
        proof {
            use_type_invariant(self);
            use_type_invariant(rel);
        }
        if rel.absolute || (!self.absolute && self.names.len() == 0) {
            return rel.clone();
        }
        let skip: usize = if rel.names.len() > 0 && is_dot_name(&rel.names[0]) {
            1
        } else {
            0
        };
        let mut names = copied_from(&self.names, 0);
        let mut tail = copied_from(&rel.names, skip);
        let ghost (front, back) = (names@, tail@);
        names.append(&mut tail);
        proof {
            assert(texts(front + back) =~= texts(front) + texts(back));
            assert(self@.names.skip(0) =~= self@.names);
            assert(rel@.names.skip(0) =~= rel@.names);
            assert(texts(names@) =~= self@.names + rel@.names.skip(skip as int));
        }
        FilePath { absolute: self.absolute, names }
    }
}

impl FilePath {
    /// Reads a path that is written down.
    pub fn parse(text: &str) -> (path: FilePath)
        ensures
            path@ == parsed(text@),
    {
        let chars = text::chars_of(text);
        let absolute = chars.len() > 0 && chars[0] == '/';
        let mut names: Vec<String> = Vec::new();
        let mut piece = String::new();
        let mut first = true;
        let mut i: usize = 0;
        while i < chars.len()
            invariant
                chars@ == text@,
                i <= chars@.len(),
                pieces(text@.take(i as int)).len() > 0,
                texts(names@) == names_of(pieces(text@.take(i as int)).drop_last()),
                piece@ == pieces(text@.take(i as int)).last(),
                first == (pieces(text@.take(i as int)).len() == 1),
            decreases chars@.len() - i,
        {
            let ghost before = pieces(text@.take(i as int));
            let ghost names_before = names@;
            proof {
                assert(text@.take(i + 1).drop_last() =~= text@.take(i as int));
            }
            if chars[i] == '/' {
                let whole = piece;
                piece = String::new();
                if !whole.as_str().is_empty() && (first || !is_dot_name(&whole)) {
                    names.push(whole);
                    proof {
                        assert(texts(names@) =~= texts(names_before).push(before.last()));
                    }
                }
                first = false;
                proof {
                    assert(before.push(Seq::empty()).drop_last() =~= before);
                }
            } else {
                piece.push(chars[i]);
                proof {
                    assert(before.drop_last().push(before.last().push(chars@[i as int])).drop_last()
                        =~= before.drop_last());
                }
            }
            i = i + 1;
        }
        let ghost names_before = names@;
        proof {
            assert(text@.take(i as int) =~= text@);
        }
        if !piece.as_str().is_empty() && (first || !is_dot_name(&piece)) {
            names.push(piece);
            proof {
                assert(texts(names@) =~= texts(names_before).push(pieces(text@).last()));
            }
        }
        proof {
            lemma_pieces(text@);
            lemma_names(pieces(text@));
            assert(texts(names@) == parsed(text@).names);
        }
        FilePath { absolute, names }
    }
}

impl FilePath {
    /// Writes the path down.
    pub fn to_text(&self) -> (text: String)
        ensures
            text@ == self@.text(),
    {
        let mut text = String::new();
        if self.absolute {
            text.push('/');
        }
        let ghost front = text@;
        let mut i: usize = 0;
        while i < self.names.len()
            invariant
                i <= self.names@.len(),
                front == (if self.absolute {
                    seq!['/']
                } else {
                    Seq::empty()
                }),
                text@ == front + joined(self@.names.take(i as int)),
            decreases self.names@.len() - i,
        {
            let ghost before = joined(self@.names.take(i as int));
            if i > 0 {
                text.push('/');
            }
            text.append(self.names[i].as_str());
            proof {
                let longer = self@.names.take(i + 1);
                assert(longer.drop_last() =~= self@.names.take(i as int));
                assert(longer.last() == self.names@[i as int]@);
                if i > 0 {
                    assert(text@ =~= front + (before.push('/') + longer.last()));
                } else {
                    assert(text@ =~= front + longer.last());
                }
            }
            i = i + 1;
        }
        proof {
            assert(self@.names.take(i as int) =~= self@.names);
            assert(self@.text() =~= front + joined(self@.names));
        }
        text
    }
}

/// No two slashes follow each other.
pub open spec fn single_slashes(text: Seq<char>) -> bool {
    forall|i: int|
        0 <= i < text.len() - 1 && #[trigger] text[i] == '/' ==> text[i + 1] != '/'
}

/// Names joined by slashes neither begin nor end in one.
proof fn lemma_joined(names: Seq<Seq<char>>)
    requires
        forall|i: int| 0 <= i < names.len() ==> is_name(#[trigger] names[i]),
    ensures
        names.len() == 0 ==> joined(names).len() == 0,
        names.len() > 0 ==> joined(names).len() > 0 && joined(names)[0] != '/'
            && joined(names).last() != '/',
        single_slashes(joined(names)),
    decreases names.len(),
{
    if names.len() > 0 {
        let last = names[names.len() - 1];
        assert(forall|j: int| 0 <= j < last.len() ==> last.contains(#[trigger] last[j]));
        if names.len() > 1 {
            lemma_joined(names.drop_last());
        }
    }
}

/// A path is written without two slashes in a row.
pub proof fn lemma_text_single_slashes(path: PathView)
    requires
        path.wf(),
    ensures
        single_slashes(path.text()),
        path.text().len() > 0 && path.text()[0] == '/' <==> path.absolute,
{
    lemma_joined(path.names);
    if path.absolute {
        let t = path.text();
        let j = joined(path.names);
        assert forall|i: int| 0 <= i < t.len() - 1 && #[trigger] t[i] == '/' implies t[i + 1]
            != '/' by {
            assert(t[i + 1] == j[i]);
            if i > 0 {
                assert(t[i] == j[i - 1]);
            }
        }
    }
}

/// A directory that a path leads through is written as a beginning of it.
pub proof fn lemma_ancestor_text(path: PathView, k: int)
    requires
        0 <= k <= path.names.len(),
    ensures
        path.ancestor(k).text().is_prefix_of(path.text()),
    decreases path.names.len() - k,
{
    if k == path.names.len() {
        assert(path.names.take(k) =~= path.names);
        assert(path.ancestor(k).text() =~= path.text().take(path.text().len() as int));
    } else {
        lemma_ancestor_text(path, k + 1);
        let (short, long) = (path.ancestor(k).text(), path.ancestor(k + 1).text());
        assert(path.names.take(k + 1).drop_last() =~= path.names.take(k));
        assert(short =~= long.take(short.len() as int));
        assert(long =~= path.text().take(long.len() as int));
        assert(short =~= path.text().take(short.len() as int));
    }
}

/// A piece without slashes adds to the last piece.
proof fn lemma_pieces_extend(text: Seq<char>, name: Seq<char>)
    requires
        !name.contains('/'),
    ensures
        pieces(text + name) == pieces(text).drop_last().push(pieces(text).last() + name),
    decreases name.len(),
{
    lemma_pieces(text);
    let before = pieces(text);
    if name.len() == 0 {
        assert(text + name =~= text);
        assert(before.last() + name =~= before.last());
        assert(before.drop_last().push(before.last()) =~= before);
    } else {
        let c = name.last();
        assert(name.contains(c));
        assert forall|j: int| 0 <= j < name.len() - 1 implies name.drop_last()[j] != '/' by {
            assert(name.contains(name[j]));
        }
        lemma_pieces_extend(text, name.drop_last());
        assert((text + name).drop_last() =~= text + name.drop_last());
        let grown = pieces(text + name.drop_last());
        assert(grown.drop_last() =~= before.drop_last());
        assert(grown.last().push(c) =~= before.last() + name);
    }
}

/// A slash in front puts an empty piece in front.
proof fn lemma_pieces_root(text: Seq<char>)
    ensures
        pieces(seq!['/'] + text) == seq![Seq::<char>::empty()] + pieces(text),
    decreases text.len(),
{
    let root = seq!['/'];
    let front = seq![Seq::<char>::empty()];
    if text.len() == 0 {
        assert(root + text =~= root);
        assert(root.drop_last() =~= Seq::empty());
        assert(pieces(root.drop_last()) == front);
        assert(pieces(root + text) =~= front + pieces(text));
    } else {
        lemma_pieces_root(text.drop_last());
        lemma_pieces(text.drop_last());
        assert((root + text).drop_last() =~= root + text.drop_last());
        assert(pieces(root + text) =~= front + pieces(text));
    }
}

/// Names joined by slashes come apart into the names.
proof fn lemma_pieces_joined(names: Seq<Seq<char>>)
    requires
        names.len() > 0,
        forall|i: int| 0 <= i < names.len() ==> is_name(#[trigger] names[i]),
    ensures
        pieces(joined(names)) == names,
    decreases names.len(),
{
    let last = names[names.len() - 1];
    if names.len() == 1 {
        lemma_pieces_extend(Seq::empty(), last);
        assert(Seq::<char>::empty() + last =~= last);
        assert(pieces(joined(names)) =~= names);
    } else {
        lemma_pieces_joined(names.drop_last());
        let slashed = joined(names.drop_last()).push('/');
        assert(slashed.drop_last() =~= joined(names.drop_last()));
        lemma_pieces_extend(slashed, last);
        assert(Seq::<char>::empty() + last =~= last);
        assert(pieces(joined(names)) =~= names);
    }
}

/// All of the pieces count when none is empty and `.` is only in front.
proof fn lemma_names_kept(pieces: Seq<Seq<char>>)
    requires
        forall|i: int| 0 <= i < pieces.len() ==> is_name(#[trigger] pieces[i]),
        forall|i: int| 0 < i < pieces.len() ==> !is_dot(#[trigger] pieces[i]),
    ensures
        names_of(pieces) == pieces,
    decreases pieces.len(),
{
    if pieces.len() > 0 {
        assert(is_name(pieces[pieces.len() - 1]));
        assert(pieces.len() > 1 ==> !is_dot(pieces[pieces.len() - 1]));
        lemma_names_kept(pieces.drop_last());
        assert(pieces.drop_last().push(pieces.last()) =~= pieces);
    }
}

/// Behind an empty piece, all of the pieces count that are not `.`.
proof fn lemma_names_kept_at_root(pieces: Seq<Seq<char>>)
    requires
        forall|i: int| 0 <= i < pieces.len() ==> is_name(#[trigger] pieces[i]),
        forall|i: int| 0 <= i < pieces.len() ==> !is_dot(#[trigger] pieces[i]),
    ensures
        names_of(seq![Seq::<char>::empty()] + pieces) == pieces,
    decreases pieces.len(),
{
    let front = seq![Seq::<char>::empty()];
    if pieces.len() == 0 {
        assert(front + pieces =~= front);
        assert(front.drop_last() =~= Seq::empty());
        assert(names_of(front.drop_last()).len() == 0);
        assert(names_of(front + pieces) =~= pieces);
    } else {
        assert(is_name(pieces[pieces.len() - 1]) && !is_dot(pieces[pieces.len() - 1]));
        lemma_names_kept_at_root(pieces.drop_last());
        assert((front + pieces).drop_last() =~= front + pieces.drop_last());
        assert(pieces.drop_last().push(pieces.last()) =~= pieces);
    }
}

/// Reading back what a path is written as gives the path.
pub proof fn parse_undoes_text(path: PathView)
    requires
        path.wf(),
    ensures
        parsed(path.text()) == path,
{
    lemma_text_single_slashes(path);
    let names = path.names;
    if names.len() > 0 {
        lemma_pieces_joined(names);
    }
    if path.absolute {
        lemma_pieces_root(joined(names));
        if names.len() > 0 {
            lemma_names_kept_at_root(names);
        } else {
            let (one, two) = (seq![Seq::<char>::empty()], seq![Seq::<char>::empty(), Seq::empty()]);
            assert(pieces(path.text()) =~= two);
            assert(two.drop_last() =~= one);
            assert(one.drop_last() =~= Seq::empty());
            assert(names_of(one.drop_last()).len() == 0);
            assert(names_of(one).len() == 0);
            assert(names_of(two) =~= names);
        }
    } else if names.len() > 0 {
        lemma_names_kept(names);
    } else {
        let one = seq![Seq::<char>::empty()];
        assert(one.drop_last() =~= Seq::empty());
        assert(names_of(one.drop_last()).len() == 0);
        assert(names_of(one) =~= names);
    }
}

/// No piece holds a slash, and the first piece of an absolute path is empty.
proof fn lemma_pieces(text: Seq<char>)
    ensures
        pieces(text).len() > 0,
        forall|i: int|
            0 <= i < pieces(text).len() ==> !(#[trigger] pieces(text)[i]).contains('/'),
        (text.len() > 0 && text[0] == '/') ==> pieces(text)[0].len() == 0,
        text.len() > 0 && text[0] == '/' ==> pieces(text).len() > 1,
    decreases text.len(),
{
    if text.len() > 0 {
        lemma_pieces(text.drop_last());
        let before = pieces(text.drop_last());
        assert(forall|i: int|
            0 <= i < pieces(text).len() - 1 ==> #[trigger] pieces(text)[i] == before[i]);
        if text.last() != '/' {
            let last = before.last().push(text.last());
            assert forall|j: int| 0 <= j < last.len() implies last[j] != '/' by {
                if j < before.last().len() {
                    assert(before.last().contains(before.last()[j]));
                }
            }
        }
    }
}

/// What counts as a name is one, and `.` only in front.
proof fn lemma_names(pieces: Seq<Seq<char>>)
    requires
        forall|i: int| 0 <= i < pieces.len() ==> !(#[trigger] pieces[i]).contains('/'),
    ensures
        forall|i: int| 0 <= i < names_of(pieces).len() ==> is_name(#[trigger] names_of(pieces)[i]),
        forall|i: int|
            0 <= i < names_of(pieces).len() && is_dot(#[trigger] names_of(pieces)[i]) ==> i == 0
                && is_dot(pieces[0]),
    decreases pieces.len(),
{
    if pieces.len() > 0 {
        lemma_names(pieces.drop_last());
        let before = names_of(pieces.drop_last());
        assert(!pieces[pieces.len() - 1].contains('/'));
        assert(pieces.len() == 1 ==> before.len() == 0);
        assert(forall|i: int|
            0 <= i < before.len() ==> #[trigger] names_of(pieces)[i] == before[i]);
    }
}

/// Whether `name` is the name by which a directory calls itself.
fn is_dot_name(name: &String) -> (dot: bool)
    ensures
        dot == is_dot(name@),
{
    proof {
        reveal_strlit(".");
        assert(is_dot(name@) ==> name@ =~= "."@);
    }
    *name == ".".to_owned()
}

/// A copy of the strings from the one at `start` on.
fn copied_from(strings: &Vec<String>, start: usize) -> (copies: Vec<String>)
    requires
        start <= strings@.len(),
    ensures
        texts(copies@) == texts(strings@).skip(start as int),
{
    let mut copies: Vec<String> = Vec::new();
    let mut i: usize = start;
    while i < strings.len()
        invariant
            start <= i <= strings@.len(),
            texts(copies@) =~= texts(strings@).subrange(start as int, i as int),
        decreases strings@.len() - i,
    {
        let ghost before = copies@;
        copies.push(strings[i].clone());
        proof {
            assert(texts(copies@) =~= texts(before).push(strings@[i as int]@));
        }
        i = i + 1;
    }
    copies
}

} // verus!
