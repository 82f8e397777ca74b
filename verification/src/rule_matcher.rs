//! The `ignore` crate's gitignore matchers.

use ignore::gitignore::{Gitignore, GitignoreBuilder};
use ignore::Match;
use vstd::prelude::*;

use crate::globs;
use crate::path;

verus! {

#[verifier::external_type_specification]
#[verifier::external_body]
pub struct ExGitignore(ignore::gitignore::Gitignore);

#[verifier::external_type_specification]
#[verifier::external_body]
pub struct ExGitignoreBuilder(ignore::gitignore::GitignoreBuilder);

/// What the rules of one directory say of a path.
#[derive(Debug, Clone, Copy, PartialEq, Eq, Structural)]
pub enum Verdict {
    /// No rule speaks of it.
    Silent,
    /// It is ignored.
    Ignore,
    /// It is kept, whatever rules further up say.
    Keep,
}

/// The directory that the rules of a builder are relative to.
pub uninterp spec fn builder_root(builder: GitignoreBuilder) -> Seq<char>;

/// The rules that a builder has taken, oldest first.
pub uninterp spec fn builder_rules(builder: GitignoreBuilder) -> Seq<Seq<char>>;

/// The directory that the rules of a matcher are relative to.
pub uninterp spec fn matcher_root(matcher: Gitignore) -> Seq<char>;

/// The rules of a matcher, the last of which counts most.
pub uninterp spec fn matcher_rules(matcher: Gitignore) -> Seq<Seq<char>>;

/// The rule that a line of an ignore file stands for, if it stands for one:
/// comments, blank lines and lines that are no glob do not.
pub uninterp spec fn rule_of_line(line: Seq<char>) -> Option<Seq<char>>;

/// What the rules of the directory `root` say of `path`, taken from the rules
/// that match `path` or, failing that, the nearest directory above it.
pub uninterp spec fn rules_verdict(
    root: Seq<char>,
    rules: Seq<Seq<char>>,
    path: Seq<char>,
    is_dir: bool,
) -> Verdict;

/// A path without the `./` that it may begin with.
pub open spec fn without_dot_slash(text: Seq<char>) -> Seq<char> {
    if text.len() >= 2 && text[0] == '.' && text[1] == '/' {
        text.skip(2)
    } else {
        text
    }
}

/// A plain text that does not begin with a slash.
pub open spec fn is_plain_name(text: Seq<char>) -> bool {
    globs::is_plain(text) && text[0] != '/'
}

/// A glob for the files with an extension.
pub open spec fn is_extension(glob: Seq<char>) -> bool {
    &&& glob.len() > 2
    &&& glob[0] == '*'
    &&& glob[1] == '.'
    &&& forall|i: int|
        2 <= i < glob.len() ==> globs::is_plain_char(#[trigger] glob[i]) && glob[i] != '.'
            && glob[i] != '/'
}

/// A rule for a plain text or an extension, with `**/` in front or, before a
/// plain text, a slash; a `!` may stand in front of it all.
pub open spec fn is_simple_rule(rule: Seq<char>) -> bool {
    let glob = if rule.len() > 0 && rule[0] == '!' {
        rule.skip(1)
    } else {
        rule
    };
    ||| is_plain_name(globs::without_double_star(glob))
    ||| is_extension(globs::without_double_star(glob))
    ||| glob.len() > 0 && glob[0] == '/' && is_plain_name(glob.skip(1))
}

/// Rules that are all for plain texts or extensions.
pub open spec fn all_simple_rules(rules: Seq<Seq<char>>) -> bool {
    forall|i: int| 0 <= i < rules.len() ==> is_simple_rule(#[trigger] rules[i])
}

/// A line that says nothing: it is empty or a comment.
pub open spec fn is_comment(line: Seq<char>) -> bool {
    line.len() == 0 || line[0] == '#'
}

/// The rules with the one that `line` stands for behind them.
pub open spec fn with_line(rules: Seq<Seq<char>>, line: Seq<char>) -> Seq<Seq<char>> {
    if is_comment(line) {
        rules
    } else if is_simple_rule(line) {
        rules.push(line)
    } else {
        match rule_of_line(line) {
            Some(rule) => rules.push(rule),
            None => rules,
        }
    }
}

/// `GitignoreBuilder::new` starts without rules, for the directory given; a
/// `./` in front of it goes away.
#[verifier::external_body]
pub(crate) fn new_builder(root: &str) -> (builder: GitignoreBuilder)
    ensures
        builder_root(builder) == without_dot_slash(root@),
        builder_rules(builder) == Seq::<Seq<char>>::empty(),
{
    GitignoreBuilder::new(root)
}

/// `GitignoreBuilder::add_line` takes the rule that the line stands for, if it
/// stands for one, and otherwise leaves the builder as it is. Which rule that
/// is depends on the line alone, and it is no longer than the line; a simple one
/// stands for itself, and comments and empty lines stand for none.
#[verifier::external_body]
pub(crate) fn add_line(builder: &mut GitignoreBuilder, line: &str)
    ensures
        builder_root(*final(builder)) == builder_root(*old(builder)),
        builder_rules(*final(builder)) == (match rule_of_line(line@) {
            Some(rule) => builder_rules(*old(builder)).push(rule),
            None => builder_rules(*old(builder)),
        }),
        is_simple_rule(line@) ==> builder_rules(*final(builder)) == builder_rules(
            *old(builder),
        ).push(line@),
        is_comment(line@) ==> builder_rules(*final(builder)) == builder_rules(*old(builder)),
        builder_rules(*final(builder)).len() > builder_rules(*old(builder)).len()
            ==> builder_rules(*final(builder)).last().len() <= line@.len(),
{
    let _ = builder.add_line(None, line);
}

/// `GitignoreBuilder::build` gives a matcher with the builder's rules, and with
/// its directory where there is any rule. It fails only where the regular
/// expressions of the rules nest too deeply or grow too large in memory. Where
/// all rules are simple, none needs a regular expression; where they are light,
/// none nests or grows as far on any machine. Of when it fails on others, which
/// depends on the machine, nothing is said.
#[verifier::external_body]
pub(crate) fn build(builder: &GitignoreBuilder) -> (matcher: Option<Gitignore>)
    ensures
        matcher matches Some(m) ==> matcher_rules(m) == builder_rules(*builder),
        matcher matches Some(m) ==> (builder_rules(*builder).len() > 0 ==> matcher_root(m)
            == builder_root(*builder)),
        all_simple_rules(builder_rules(*builder)) ==> matcher is Some,
        globs::is_light(builder_rules(*builder)) ==> matcher is Some,
{
    builder.build().ok()
}

/// `Gitignore::matched_path_or_any_parents` says what the matcher's rules say
/// of a path that is written with single slashes and, where it is absolute,
/// begins with the matcher's directory; it panics on some that are not. A
/// matcher without rules is silent.
#[verifier::external_body]
pub(crate) fn matched(matcher: &Gitignore, path: &str, is_dir: bool) -> (verdict: Verdict)
    requires
        path::single_slashes(path@),
        matcher_rules(*matcher).len() > 0 && path@.len() > 0 && path@[0] == '/'
            ==> matcher_root(*matcher).is_prefix_of(path@),
    ensures
        matcher_rules(*matcher).len() == 0 ==> verdict == Verdict::Silent,
        matcher_rules(*matcher).len() > 0 ==> verdict == rules_verdict(
            matcher_root(*matcher),
            matcher_rules(*matcher),
            path@,
            is_dir,
        ),
{
    match matcher.matched_path_or_any_parents(path, is_dir) {
        Match::None => Verdict::Silent,
        Match::Ignore(_) => Verdict::Ignore,
        Match::Whitelist(_) => Verdict::Keep,
    }
}

} // verus!
