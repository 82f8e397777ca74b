//! The `globset` crate's sets of globs.

use globset::{GlobBuilder, GlobSet, GlobSetBuilder};
use vstd::prelude::*;

verus! {

#[verifier::external_type_specification]
#[verifier::external_body]
pub struct ExGlobSet(globset::GlobSet);

#[verifier::external_type_specification]
#[verifier::external_body]
pub struct ExGlobSetBuilder(globset::GlobSetBuilder);

/// The globs that a builder has taken, oldest first.
pub uninterp spec fn builder_globs(builder: GlobSetBuilder) -> Seq<Seq<char>>;

/// The globs of a set, in the order in which they were added.
pub uninterp spec fn set_globs(set: GlobSet) -> Seq<Seq<char>>;

/// Whether a text is a glob.
pub uninterp spec fn is_glob(text: Seq<char>) -> bool;

/// Whether a glob matches a path.
pub uninterp spec fn glob_matches(glob: Seq<char>, path: Seq<char>) -> bool;

/// A character that means itself in a glob.
pub open spec fn is_plain_char(c: char) -> bool {
    ||| 'a' <= c <= 'z'
    ||| 'A' <= c <= 'Z'
    ||| '0' <= c <= '9'
    ||| c == '.'
    ||| c == '_'
    ||| c == '-'
    ||| c == '/'
}

/// A text whose characters all mean themselves in a glob.
pub open spec fn is_plain(text: Seq<char>) -> bool {
    &&& text.len() > 0
    &&& forall|i: int| 0 <= i < text.len() ==> is_plain_char(#[trigger] text[i])
}

/// A glob without the `**/` that it may begin with.
pub open spec fn without_double_star(glob: Seq<char>) -> Seq<char> {
    if glob.len() >= 3 && glob[0] == '*' && glob[1] == '*' && glob[2] == '/' {
        glob.skip(3)
    } else {
        glob
    }
}

/// A glob that matches by how a path ends: a plain text other than a slash,
/// with `*`, `**/` or `**/*` in front of it or nothing.
pub open spec fn is_ending(glob: Seq<char>) -> bool {
    let rest = without_double_star(glob);
    let text = if rest.len() > 0 && rest[0] == '*' {
        rest.skip(1)
    } else {
        rest
    };
    is_plain(text) && !(text.len() == 1 && text[0] == '/')
}

/// A glob that matches by how a path begins: a plain text with `*` or `/**`
/// behind it.
pub open spec fn is_beginning(glob: Seq<char>) -> bool {
    let n = glob.len() as int;
    ||| n > 1 && glob[n - 1] == '*' && is_plain(glob.take(n - 1))
    ||| n > 3 && glob[n - 3] == '/' && glob[n - 2] == '*' && glob[n - 1] == '*' && is_plain(
        glob.take(n - 3),
    )
}

/// A glob that matches by how a path begins or ends.
pub open spec fn is_simple(glob: Seq<char>) -> bool {
    is_ending(glob) || is_beginning(glob)
}

/// Globs that all match by how a path begins or ends.
pub open spec fn all_simple(globs: Seq<Seq<char>>) -> bool {
    forall|i: int| 0 <= i < globs.len() ==> is_simple(#[trigger] globs[i])
}

/// The characters of all texts, and one more for each text.
pub open spec fn size(texts: Seq<Seq<char>>) -> nat
    decreases texts.len(),
{
    if texts.len() == 0 {
        0
    } else {
        size(texts.drop_last()) + texts.last().len() + 1
    }
}

/// Texts none of which is long.
pub open spec fn all_short(texts: Seq<Seq<char>>) -> bool {
    forall|i: int| 0 <= i < texts.len() ==> (#[trigger] texts[i]).len() <= 200
}

/// Texts none of which is long, and which do not come to much in all.
pub open spec fn is_light(texts: Seq<Seq<char>>) -> bool {
    all_short(texts) && size(texts) <= 10_050
}

/// No more than a few texts, none of which is long.
pub open spec fn few_and_short(texts: Seq<Seq<char>>) -> bool {
    all_short(texts) && texts.len() <= 50
}

/// Texts come to no more than their number allows.
proof fn lemma_size_of_short(texts: Seq<Seq<char>>)
    requires
        all_short(texts),
    ensures
        size(texts) <= 201 * texts.len(),
    decreases texts.len(),
{
    if texts.len() > 0 {
        assert(texts[texts.len() - 1].len() <= 200);
        lemma_size_of_short(texts.drop_last());
    }
}

/// A few texts that are not long do not come to much in all.
pub proof fn few_and_short_texts_are_light(texts: Seq<Seq<char>>)
    requires
        few_and_short(texts),
    ensures
        is_light(texts),
{
    lemma_size_of_short(texts);
}

/// What two runs of texts come to together.
pub proof fn lemma_size_of_both(a: Seq<Seq<char>>, b: Seq<Seq<char>>)
    ensures
        size(a + b) == size(a) + size(b),
    decreases b.len(),
{
    if b.len() == 0 {
        assert(a + b =~= a);
    } else {
        assert((a + b).drop_last() =~= a + b.drop_last());
        lemma_size_of_both(a, b.drop_last());
    }
}

/// Globs that make a set on every machine.
pub open spec fn always_a_set(globs: Seq<Seq<char>>) -> bool {
    all_simple(globs) || few_and_short(globs) || is_light(globs)
}

/// Whether a text counts as a glob; one that matches by how a path begins or
/// ends always does.
pub open spec fn counts(text: Seq<char>) -> bool {
    is_simple(text) || is_glob(text)
}

/// Whether some glob of a set matches a path.
pub open spec fn any_matches(globs: Seq<Seq<char>>, path: Seq<char>) -> bool {
    exists|i: int| 0 <= i < globs.len() && glob_matches(#[trigger] globs[i], path)
}

/// `GlobSetBuilder::new` starts without globs.
#[verifier::external_body]
pub(crate) fn new_builder() -> (builder: GlobSetBuilder)
    ensures
        builder_globs(builder) == Seq::<Seq<char>>::empty(),
{
    GlobSetBuilder::new()
}

/// `GlobBuilder::build` reads the text as a glob, with the crate's default
/// options, and says whether it is one, which depends on the text alone; a
/// simple one is, as only brackets, braces and backslashes are ever refused.
/// `GlobSetBuilder::add` then adds the glob.
#[verifier::external_body]
pub(crate) fn add_glob(builder: &mut GlobSetBuilder, text: &str) -> (added: bool)
    ensures
        added == is_glob(text@),
        is_simple(text@) ==> added,
        builder_globs(*final(builder)) == (if added {
            builder_globs(*old(builder)).push(text@)
        } else {
            builder_globs(*old(builder))
        }),
{
    match GlobBuilder::new(text).build() {
        Ok(glob) => {
            builder.add(glob);
            true
        },
        Err(_) => false,
    }
}

/// `GlobSetBuilder::build` gives the set of the builder's globs. It fails only
/// where their regular expressions nest too deeply or grow too large in memory.
/// Where all of them are simple, none needs a regular expression. Where they are
/// light, none has room to nest deeply enough, and as a regular expression grows
/// by a few hundred bytes for a character at most, all of them stay far below
/// the limit on any machine. Of when it fails on others, which depends on the
/// machine, nothing is said.
#[verifier::external_body]
pub(crate) fn build(builder: &GlobSetBuilder) -> (set: Option<GlobSet>)
    ensures
        set matches Some(s) ==> set_globs(s) == builder_globs(*builder),
        all_simple(builder_globs(*builder)) ==> set is Some,
        is_light(builder_globs(*builder)) ==> set is Some,
{
    builder.build().ok()
}

/// `GlobSet::is_match` says whether any glob of the set matches the path.
#[verifier::external_body]
pub(crate) fn is_match(set: &GlobSet, path: &str) -> (matched: bool)
    ensures
        matched == (exists|i: int|
            0 <= i < set_globs(*set).len() && glob_matches(#[trigger] set_globs(*set)[i], path@)),
{
    set.is_match(path)
}

} // verus!
