//! Which paths of a workspace its ignore files leave out.

use ignore::gitignore::{Gitignore, GitignoreBuilder};
use vstd::prelude::*;

use crate::globs;
use crate::path;
use crate::path::{FilePath, PathView};
use crate::rule_matcher;
use crate::rule_matcher::Verdict;
use crate::text;

verus! {

/// A matcher with the directory whose rules it holds.
struct DirMatcher {
    dir: FilePath,
    matcher: Gitignore,
}

/// One matcher for each directory with ignore files, asked from the deepest
/// directory upwards. A rule is relative to the directory that declares it,
/// which one matcher for the whole workspace could not honour.
pub struct HierarchicalIgnore {
    root: FilePath,
    matchers: Vec<DirMatcher>,
}

/// The workspace root, and the rules of each directory that has some.
#[verifier::ext_equal]
pub struct IgnoreView {
    pub root: PathView,
    pub rules: Map<PathView, Seq<Seq<char>>>,
}

impl IgnoreView {
    /// What the rules of `dir` say of `path`.
    pub open spec fn verdict_at(self, dir: PathView, path: PathView, is_dir: bool) -> Verdict {
        if self.rules.contains_key(dir) && self.rules[dir].len() > 0 {
            rule_matcher::rules_verdict(
                rule_matcher::without_dot_slash(dir.text()),
                self.rules[dir],
                path.text(),
                is_dir,
            )
        } else {
            Verdict::Silent
        }
    }

    /// Whether the directory `k` names into `path` is asked: it lies above
    /// `path`, and the root does not lie between the two.
    pub open spec fn asked(self, path: PathView, k: int) -> bool {
        &&& 0 <= k < path.names.len()
        &&& forall|j: int| k < j < path.names.len() ==> #[trigger] path.ancestor(j) != self.root
    }

    /// Whether the rules of the directory `k` names into `path` decide: they
    /// are asked, they speak, and none further down does.
    pub open spec fn decides(self, path: PathView, is_dir: bool, k: int) -> bool {
        &&& self.asked(path, k)
        &&& self.verdict_at(path.ancestor(k), path, is_dir) != Verdict::Silent
        &&& forall|j: int|
            k < j < path.names.len() ==> self.verdict_at(#[trigger] path.ancestor(j), path, is_dir)
                == Verdict::Silent
    }

    /// Whether `path` lies inside the git directory of the workspace.
    pub open spec fn in_git_dir(self, path: PathView) -> bool {
        let git_dir = self.root.child(".git"@);
        path.starts_with(git_dir) && path.names.len() > git_dir.names.len()
    }

    /// Whether `path` is left out: it lies inside the git directory, or the
    /// rules that decide ignore it.
    pub open spec fn ignored(self, path: PathView, is_dir: bool) -> bool {
        ||| self.in_git_dir(path)
        ||| exists|k: int|
            #![trigger path.ancestor(k)]
            self.decides(path, is_dir, k) && self.verdict_at(path.ancestor(k), path, is_dir)
                == Verdict::Ignore
    }
}

/// The rules of each directory that has a matcher.
spec fn rules_map(matchers: Seq<DirMatcher>) -> Map<PathView, Seq<Seq<char>>>
    decreases matchers.len(),
{
    if matchers.len() == 0 {
        Map::empty()
    } else {
        rules_map(matchers.drop_last()).insert(
            matchers.last().dir@,
            rule_matcher::matcher_rules(matchers.last().matcher),
        )
    }
}

/// Whether a matcher is the one of the directory it stands with.
pub open spec fn made_for(matcher: Gitignore, dir: PathView) -> bool {
    rule_matcher::matcher_rules(matcher).len() > 0 ==> rule_matcher::matcher_root(matcher)
        == rule_matcher::without_dot_slash(dir.text())
}

/// The map holds just the rules of the matchers, where no two share a
/// directory.
proof fn lemma_rules_map(matchers: Seq<DirMatcher>)
    ensures
        forall|dir: PathView|
            rules_map(matchers).contains_key(dir) <==> exists|i: int|
                0 <= i < matchers.len() && (#[trigger] matchers[i]).dir@ == dir,
        (forall|i: int, j: int|
            0 <= i < j < matchers.len() ==> (#[trigger] matchers[i]).dir@ != (
            #[trigger] matchers[j]).dir@) ==> forall|i: int|
            0 <= i < matchers.len() ==> rules_map(matchers)[(#[trigger] matchers[i]).dir@]
                == rule_matcher::matcher_rules(matchers[i].matcher),
    decreases matchers.len(),
{
    if matchers.len() > 0 {
        let before = matchers.drop_last();
        lemma_rules_map(before);
        assert forall|dir: PathView| #[trigger] rules_map(matchers).contains_key(
            dir,
        ) implies exists|i: int|
            0 <= i < matchers.len() && (#[trigger] matchers[i]).dir@ == dir by {
            if dir == matchers.last().dir@ {
                assert(matchers[matchers.len() - 1].dir@ == dir);
            } else {
                assert(rules_map(before).contains_key(dir));
                let i = choose|i: int| 0 <= i < before.len() && (#[trigger] before[i]).dir@ == dir;
                assert(matchers[i].dir@ == dir);
            }
        }
        assert forall|i: int| 0 <= i < matchers.len() implies rules_map(matchers).contains_key(
            (#[trigger] matchers[i]).dir@,
        ) by {
            if i < before.len() {
                assert(before[i].dir@ == matchers[i].dir@);
                assert(rules_map(before).contains_key(matchers[i].dir@));
            }
        }
        if forall|i: int, j: int|
            0 <= i < j < matchers.len() ==> (#[trigger] matchers[i]).dir@ != (
            #[trigger] matchers[j]).dir@ {
            assert forall|i: int| 0 <= i < matchers.len() implies rules_map(matchers)[(
            #[trigger] matchers[i]).dir@] == rule_matcher::matcher_rules(matchers[i].matcher) by {
                if i < before.len() {
                    assert(before[i] == matchers[i]);
                    assert(matchers[i].dir@ != matchers[matchers.len() - 1].dir@);
                }
            }
        }
    }
}

impl View for HierarchicalIgnore {
    type V = IgnoreView;

    closed spec fn view(&self) -> IgnoreView {
        IgnoreView { root: self.root@, rules: rules_map(self.matchers@) }
    }
}

impl HierarchicalIgnore {
    /// No two matchers share a directory, and each is the one of its directory.
    pub closed spec fn wf(&self) -> bool {
        &&& forall|i: int, j: int|
            0 <= i < j < self.matchers@.len() ==> (#[trigger] self.matchers@[i]).dir@ != (
            #[trigger] self.matchers@[j]).dir@
        &&& forall|i: int|
            0 <= i < self.matchers@.len() ==> made_for(
                (#[trigger] self.matchers@[i]).matcher,
                self.matchers@[i].dir@,
            )
    }

    /// The workspace at `root`, without any rules.
    pub fn new(root: FilePath) -> (result: Self)
        ensures
            result.wf(),
            result@ == (IgnoreView { root: root@, rules: Map::empty() }),
    {
        HierarchicalIgnore { root, matchers: Vec::new() }
    }

    /// Adds the matcher that was built for `dir`. A directory whose matcher
    /// could not be built goes without. The matcher is taken to be one of rules
    /// that were read with the default options.
    pub fn add_matcher(&mut self, dir: FilePath, built: Option<Gitignore>)
        requires
            old(self).wf(),
            !old(self)@.rules.contains_key(dir@),
            built matches Some(matcher) ==> made_for(matcher, dir@),
        ensures
            final(self).wf(),
            final(self)@.root == old(self)@.root,
            final(self)@.rules == (match built {
                Some(matcher) => old(self)@.rules.insert(
                    dir@,
                    rule_matcher::matcher_rules(matcher),
                ),
                None => old(self)@.rules,
            }),
    {
        if let Some(matcher) = built {
            let ghost before = self.matchers@;
            proof {
                lemma_rules_map(before);
            }
            self.matchers.push(DirMatcher { dir, matcher });
            proof {
                assert(self.matchers@.drop_last() =~= before);
            }
        }
    }

    /// What the rules of `dir` say of `path`, which is written `text`.
    fn verdict_at(&self, dir: &FilePath, path: &FilePath, text: &str, is_dir: bool) -> (verdict:
        Verdict)
        requires
            self.wf(),
            text@ == path@.text(),
            exists|k: int| 0 <= k < path@.names.len() && dir@ == #[trigger] path@.ancestor(k),
        ensures
            verdict == self@.verdict_at(dir@, path@, is_dir),
    {
        proof {
            use_type_invariant(path);
            lemma_rules_map(self.matchers@);
            path::lemma_text_single_slashes(path@);
            path::lemma_text_single_slashes(dir@);
            let k = choose|k: int|
                0 <= k < path@.names.len() && dir@ == #[trigger] path@.ancestor(k);
            path::lemma_ancestor_text(path@, k);
        }
        let mut i: usize = 0;
        while i < self.matchers.len()
            invariant
                self.wf(),
                i <= self.matchers@.len(),
                forall|j: int| 0 <= j < i ==> (#[trigger] self.matchers@[j]).dir@ != dir@,
                path::single_slashes(text@),
                text@ == path@.text(),
                path@.absolute == dir@.absolute,
                path@.absolute <==> (text@.len() > 0 && text@[0] == '/'),
                dir@.absolute ==> rule_matcher::without_dot_slash(dir@.text()) == dir@.text(),
                dir@.text().is_prefix_of(path@.text()),
                forall|i: int|
                    0 <= i < self.matchers@.len() ==> self@.rules.contains_key(
                        (#[trigger] self.matchers@[i]).dir@,
                    ) && self@.rules[self.matchers@[i].dir@] == rule_matcher::matcher_rules(
                        self.matchers@[i].matcher,
                    ),
            decreases self.matchers@.len() - i,
        {
            let entry = &self.matchers[i];
            if entry.dir.same(dir) {
                return rule_matcher::matched(&entry.matcher, text, is_dir);
            }
            i = i + 1;
        }
        Verdict::Silent
    }

    /// Whether `path` is left out of the workspace; `is_dir` says whether it is
    /// a directory. What lies inside the git directory always is. Otherwise the
    /// directories above `path` are asked, up to the root, and the first whose
    /// rules speak of it decides.
    pub fn matches(&self, path: &FilePath, is_dir: bool) -> (ignored: bool)
        requires
            self.wf(),
        ensures
            ignored == self@.ignored(path@, is_dir),
    {
        proof {
            reveal_strlit(".git");
        }
        let git_dir = self.root.child(".git");
        if path.starts_with(&git_dir) && path.depth() > git_dir.depth() {
            return true;
        }
        let text = path.to_text();
        let ghost n = path@.names.len() as int;
        let ghost mut k = n - 1;
        let mut current = path.parent();
        loop
            invariant
                self.wf(),
                text@ == path@.text(),
                n == path@.names.len(),
                !self@.in_git_dir(path@),
                -1 <= k < n,
                match current {
                    Some(dir) => 0 <= k && dir@ == path@.ancestor(k),
                    None => k == -1,
                },
                forall|j: int|
                    k < j < n ==> #[trigger] path@.ancestor(j) != self@.root && self@.verdict_at(
                        path@.ancestor(j),
                        path@,
                        is_dir,
                    ) == Verdict::Silent,
            decreases k + 1,
        {
            match current {
                None => {
                    return false;
                },
                Some(dir) => {
                    match self.verdict_at(&dir, path, text.as_str(), is_dir) {
                        Verdict::Ignore => {
                            proof {
                                assert(self@.decides(path@, is_dir, k));
                            }
                            return true;
                        },
                        Verdict::Keep => {
                            proof {
                                assert(self@.decides(path@, is_dir, k));
                                assert forall|m: int| #[trigger]
                                    path@.ancestor(m) == path@.ancestor(m) implies !(
                                self@.decides(path@, is_dir, m) && self@.verdict_at(
                                    path@.ancestor(m),
                                    path@,
                                    is_dir,
                                ) == Verdict::Ignore) by {
                                    if self@.decides(path@, is_dir, m) && m < k {
                                        assert(self@.verdict_at(path@.ancestor(k), path@, is_dir)
                                            == Verdict::Silent);
                                    }
                                }
                            }
                            return false;
                        },
                        Verdict::Silent => {},
                    }
                    if dir.same(&self.root) {
                        proof {
                            assert forall|m: int| #[trigger]
                                path@.ancestor(m) == path@.ancestor(m) implies !self@.decides(
                                path@,
                                is_dir,
                                m,
                            ) by {
                                if m < k {
                                    assert(path@.ancestor(k) == self@.root);
                                }
                            }
                        }
                        return false;
                    }
                    current = dir.parent();
                    proof {
                        assert(k > 0 ==> path@.ancestor(k).ancestor(k - 1) =~= path@.ancestor(
                            k - 1,
                        ));
                        k = k - 1;
                    }
                },
            }
        }
    }
}

/// An ignore file that was read.
pub struct IgnoreFile {
    pub path: FilePath,
    pub lines: Vec<String>,
}

/// Where an ignore file is, and its lines.
#[verifier::ext_equal]
pub struct IgnoreFileView {
    pub path: PathView,
    pub lines: Seq<Seq<char>>,
}

impl View for IgnoreFile {
    type V = IgnoreFileView;

    open spec fn view(&self) -> IgnoreFileView {
        IgnoreFileView { path: self.path@, lines: path::texts(self.lines@) }
    }
}

/// The files, each by what it says.
pub open spec fn file_views(files: Seq<IgnoreFile>) -> Seq<IgnoreFileView> {
    files.map_values(|f: IgnoreFile| f@)
}

/// A line as it counts: the first line of a file without byte order mark.
pub open spec fn plain_line(lines: Seq<Seq<char>>, i: int) -> Seq<char> {
    if i == 0 {
        text::without_leading(lines[0], '\u{feff}')
    } else {
        lines[i]
    }
}

/// The rules that the lines of a file stand for.
pub open spec fn file_rules(lines: Seq<Seq<char>>) -> Seq<Seq<char>>
    decreases lines.len(),
{
    if lines.len() == 0 {
        Seq::empty()
    } else {
        rule_matcher::with_line(
            file_rules(lines.drop_last()),
            plain_line(lines, lines.len() - 1),
        )
    }
}

/// The rules of the first file at `path`; without such a file there are none.
pub open spec fn rules_at(files: Seq<IgnoreFileView>, path: PathView) -> Seq<Seq<char>>
    decreases files.len(),
{
    if files.len() == 0 {
        Seq::empty()
    } else if files[0].path == path {
        file_rules(files[0].lines)
    } else {
        rules_at(files.skip(1), path)
    }
}

/// The rules of the workspace root: those of its ignore files, then those that
/// the editor keeps for the workspace, and last the git directory.
pub open spec fn root_rules(root: PathView, files: Seq<IgnoreFileView>) -> Seq<Seq<char>> {
    (rules_at(files, root.child(".gitignore"@)) + rules_at(files, root.child(".ignore"@))
        + rules_at(files, root.child(".helix"@).child("ignore"@))).push(".git/"@)
}

/// The directory that an ignore file below the root speaks for.
pub open spec fn nested_dir(root: PathView, path: PathView) -> Option<PathView> {
    if path.names.len() > 0 && (path.names.last() == ".gitignore"@ || path.names.last()
        == ".ignore"@) && path.parent() != Some(root) {
        path.parent()
    } else {
        None
    }
}

/// Whether a file speaks for `dir`.
pub open spec fn has_nested(
    root: PathView,
    files: Seq<IgnoreFileView>,
    dir: PathView,
) -> bool {
    exists|i: int| 0 <= i < files.len() && nested_dir(root, #[trigger] files[i].path) == Some(dir)
}

/// The rules of the files that speak for `dir`, in the order of the files.
pub open spec fn nested_rules(
    root: PathView,
    files: Seq<IgnoreFileView>,
    dir: PathView,
) -> Seq<Seq<char>>
    decreases files.len(),
{
    if files.len() == 0 {
        Seq::empty()
    } else if nested_dir(root, files.last().path) == Some(dir) {
        nested_rules(root, files.drop_last(), dir) + file_rules(files.last().lines)
    } else {
        nested_rules(root, files.drop_last(), dir)
    }
}

/// The rules of each directory of the workspace for which there are some: the
/// root, and every directory that a file speaks for.
pub open spec fn workspace_rules(root: PathView, files: Seq<IgnoreFileView>) -> Map<
    PathView,
    Seq<Seq<char>>,
> {
    Map::new(
        |dir: PathView| dir == root || has_nested(root, files, dir),
        |dir: PathView|
            if dir == root {
                root_rules(root, files)
            } else {
                nested_rules(root, files, dir)
            },
    )
}

/// What the lines of all files come to.
pub open spec fn files_size(files: Seq<IgnoreFileView>) -> nat
    decreases files.len(),
{
    if files.len() == 0 {
        0
    } else {
        files_size(files.drop_last()) + globs::size(files.last().lines)
    }
}

/// Files without long lines that do not come to much in all.
pub open spec fn are_small(files: Seq<IgnoreFileView>) -> bool {
    &&& forall|i: int| 0 <= i < files.len() ==> globs::all_short((#[trigger] files[i]).lines)
    &&& files_size(files) <= 10_000
}

/// Whether the rules of the workspace at `root` are those of `files`. A
/// directory may go without its rules, but not where all of them are simple or
/// they are light. Where the files are small, no directory does.
pub open spec fn is_loaded(
    ignore: IgnoreView,
    root: PathView,
    files: Seq<IgnoreFileView>,
) -> bool {
    &&& ignore.root == root
    &&& forall|dir: PathView| #[trigger]
        ignore.rules.contains_key(dir) ==> workspace_rules(root, files).contains_key(dir)
            && ignore.rules[dir] == workspace_rules(root, files)[dir]
    &&& forall|dir: PathView|
        workspace_rules(root, files).contains_key(dir) && (rule_matcher::all_simple_rules(
            workspace_rules(root, files)[dir],
        ) || globs::is_light(workspace_rules(root, files)[dir])) ==> #[trigger]
        ignore.rules.contains_key(dir)
    &&& are_small(files) ==> ignore.rules == workspace_rules(root, files)
}

/// Whether the rules of a file come to no more than its lines do, and none is
/// long where no line is.
spec fn is_tame(file: IgnoreFileView) -> bool {
    &&& globs::size(file_rules(file.lines)) <= globs::size(file.lines)
    &&& globs::all_short(file.lines) ==> globs::all_short(file_rules(file.lines))
}

/// Whether the first file at `path`, if there is one, is tame.
spec fn is_tame_at(files: Seq<IgnoreFileView>, path: PathView) -> bool
    decreases files.len(),
{
    if files.len() == 0 {
        true
    } else if files[0].path == path {
        is_tame(files[0])
    } else {
        is_tame_at(files.skip(1), path)
    }
}

/// What all files come to, the first one first.
proof fn lemma_files_size_first(files: Seq<IgnoreFileView>)
    requires
        files.len() > 0,
    ensures
        files_size(files) == globs::size(files[0].lines) + files_size(files.skip(1)),
    decreases files.len(),
{
    if files.len() == 1 {
        assert(files.drop_last() =~= Seq::empty());
        assert(files.skip(1) =~= Seq::empty());
        assert(files_size(files.drop_last()) == 0);
    } else {
        lemma_files_size_first(files.drop_last());
        assert(files.drop_last().skip(1) =~= files.skip(1).drop_last());
        assert(files.skip(1).last() == files.last());
    }
}

/// The rules of the first file at a path, where one is given.
spec fn rules_of(files: Seq<IgnoreFileView>, path: Option<PathView>) -> Seq<Seq<char>> {
    match path {
        Some(path) => rules_at(files, path),
        None => Seq::empty(),
    }
}

/// The path given, unless it is that of a file that has been found.
spec fn still_sought(path: Option<PathView>, found: PathView) -> Option<PathView> {
    if path == Some(found) {
        None
    } else {
        path
    }
}

/// The rules of the files at different paths come to no more than all files do.
proof fn lemma_size_at(
    files: Seq<IgnoreFileView>,
    a: Option<PathView>,
    b: Option<PathView>,
    c: Option<PathView>,
)
    requires
        a is Some ==> a != b && a != c && is_tame_at(files, a->0),
        b is Some ==> b != c && is_tame_at(files, b->0),
        c is Some ==> is_tame_at(files, c->0),
    ensures
        globs::size(rules_of(files, a)) + globs::size(rules_of(files, b)) + globs::size(
            rules_of(files, c),
        ) <= files_size(files),
        are_small(files) ==> globs::all_short(rules_of(files, a)) && globs::all_short(
            rules_of(files, b),
        ) && globs::all_short(rules_of(files, c)),
    decreases files.len(),
{
    if files.len() > 0 {
        let rest = files.skip(1);
        let first = files[0].path;
        lemma_files_size_first(files);
        lemma_size_at(
            rest,
            still_sought(a, first),
            still_sought(b, first),
            still_sought(c, first),
        );
        if are_small(files) {
            assert(globs::all_short(files[0].lines));
            assert forall|i: int| 0 <= i < rest.len() implies globs::all_short(
                (#[trigger] rest[i]).lines,
            ) by {
                assert(rest[i] == files[i + 1]);
            }
        }
    }
}

/// The rules of the files that speak for a directory come to no more than all
/// files do.
proof fn lemma_nested_size(root: PathView, files: Seq<IgnoreFileView>, dir: PathView)
    requires
        forall|i: int|
            0 <= i < files.len() && nested_dir(root, (#[trigger] files[i]).path) is Some
                ==> is_tame(files[i]),
    ensures
        globs::size(nested_rules(root, files, dir)) <= files_size(files),
        are_small(files) ==> globs::all_short(nested_rules(root, files, dir)),
    decreases files.len(),
{
    if files.len() > 0 {
        let front = files.drop_last();
        let last = files[files.len() - 1];
        assert forall|i: int| 0 <= i < front.len() implies #[trigger] front[i] == files[i] by {}
        lemma_nested_size(root, front, dir);
        globs::lemma_size_of_both(nested_rules(root, front, dir), file_rules(last.lines));
        if are_small(files) {
            assert(globs::all_short(last.lines));
            assert(are_small(front));
        }
    }
}

/// The rules of the root of a small workspace are light.
proof fn lemma_root_is_light(root: PathView, files: Seq<IgnoreFileView>)
    requires
        are_small(files),
        is_tame_at(files, root.child(".gitignore"@)),
        is_tame_at(files, root.child(".ignore"@)),
        is_tame_at(files, root.child(".helix"@).child("ignore"@)),
    ensures
        globs::is_light(root_rules(root, files)),
{
    reveal_strlit(".gitignore");
    reveal_strlit(".ignore");
    reveal_strlit(".git/");
    let a = root.child(".gitignore"@);
    let b = root.child(".ignore"@);
    let c = root.child(".helix"@).child("ignore"@);
    assert(".gitignore"@.len() != ".ignore"@.len());
    assert(a.names.last() != b.names.last());
    assert(a.names.len() != c.names.len() && b.names.len() != c.names.len());
    lemma_size_at(files, Some(a), Some(b), Some(c));
    let (x, y, z) = (rules_at(files, a), rules_at(files, b), rules_at(files, c));
    globs::lemma_size_of_both(x, y);
    globs::lemma_size_of_both(x + y, z);
    assert((x + y + z).push(".git/"@).drop_last() =~= x + y + z);
}

/// The files to look for in every directory, in the order in which they count.
pub fn dir_files(dir: &FilePath) -> (files: Vec<FilePath>)
    ensures
        files@.map_values(|f: FilePath| f@) == seq![
            dir@.child(".gitignore"@),
            dir@.child(".ignore"@),
        ],
{
    proof {
        reveal_strlit(".gitignore");
        reveal_strlit(".ignore");
    }
    let files = vec![dir.child(".gitignore"), dir.child(".ignore")];
    proof {
        assert(files@.map_values(|f: FilePath| f@) =~= seq![
            dir@.child(".gitignore"@),
            dir@.child(".ignore"@),
        ]);
    }
    files
}

/// The files to look for in the root: those of every directory and then the one
/// that the editor keeps for the workspace.
pub fn root_files(root: &FilePath) -> (files: Vec<FilePath>)
    ensures
        files@.map_values(|f: FilePath| f@) == seq![
            root@.child(".gitignore"@),
            root@.child(".ignore"@),
            root@.child(".helix"@).child("ignore"@),
        ],
{
    proof {
        reveal_strlit(".helix");
        reveal_strlit("ignore");
    }
    let mut files = dir_files(root);
    let ghost before = files@;
    files.push(root.child(".helix").child("ignore"));
    proof {
        let views = before.map_values(|f: FilePath| f@);
        assert(before.len() == views.len());
        assert(views[0] == before[0]@ && views[1] == before[1]@);
        assert(files@.map_values(|f: FilePath| f@) =~= seq![
            root@.child(".gitignore"@),
            root@.child(".ignore"@),
            root@.child(".helix"@).child("ignore"@),
        ]);
    }
    files
}

/// The directory that the entry at `path` speaks for, if it is an ignore file
/// below the root.
pub fn nested_ignore_dir(root: &FilePath, path: &FilePath) -> (dir: Option<FilePath>)
    ensures
        match dir {
            Some(dir) => nested_dir(root@, path@) == Some(dir@),
            None => nested_dir(root@, path@) is None,
        },
{
    match path.last_name() {
        Some(name) => {
            if *name != ".gitignore".to_owned() && *name != ".ignore".to_owned() {
                return None;
            }
        },
        None => {
            return None;
        },
    }
    match path.parent() {
        Some(parent) => {
            if parent.same(root) {
                None
            } else {
                Some(parent)
            }
        },
        None => None,
    }
}

/// Adds the rules of a file to those of a builder.
fn add_file(builder: &mut GitignoreBuilder, lines: &Vec<String>)
    ensures
        rule_matcher::builder_root(*final(builder)) == rule_matcher::builder_root(*old(builder)),
        rule_matcher::builder_rules(*final(builder)) == rule_matcher::builder_rules(*old(builder))
            + file_rules(path::texts(lines@)),
        globs::size(file_rules(path::texts(lines@))) <= globs::size(path::texts(lines@)),
        globs::all_short(path::texts(lines@)) ==> globs::all_short(
            file_rules(path::texts(lines@)),
        ),
{
    let ghost all = path::texts(lines@);
    let ghost before = rule_matcher::builder_rules(*builder);
    let mut i: usize = 0;
    proof {
        assert(all.take(0) =~= Seq::empty());
        assert(before + Seq::<Seq<char>>::empty() =~= before);
    }
    while i < lines.len()
        invariant
            i <= lines@.len(),
            all == path::texts(lines@),
            rule_matcher::builder_root(*builder) == rule_matcher::builder_root(*old(builder)),
            rule_matcher::builder_rules(*builder) == before + file_rules(all.take(i as int)),
            globs::size(file_rules(all.take(i as int))) <= globs::size(all.take(i as int)),
            globs::all_short(all) ==> globs::all_short(file_rules(all.take(i as int))),
        decreases lines@.len() - i,
    {
        proof {
            assert(all.take(i + 1).drop_last() =~= all.take(i as int));
            assert(all.take(i + 1)[i as int] == lines@[i as int]@);
        }
        if i == 0 {
            let line = text::trim_leading(lines[0].as_str(), '\u{feff}');
            rule_matcher::add_line(builder, line.as_str());
        } else {
            rule_matcher::add_line(builder, lines[i].as_str());
        }
        proof {
            let line = plain_line(all.take(i + 1), i as int);
            let (rules, more) = (file_rules(all.take(i as int)), file_rules(all.take(i + 1)));
            assert(rule_matcher::builder_rules(*builder) =~= before + more);
            text::lemma_without_leading_len(all[i as int], '\u{feff}');
            assert(line.len() <= all[i as int].len());
            if more.len() > rules.len() {
                assert((before + more).last() == more.last());
                assert(more.drop_last() =~= rules);
            }
        }
        i = i + 1;
    }
    proof {
        assert(all.take(i as int) =~= all);
    }
}

/// Adds the rules of the first file at `path`, if there is one.
fn add_file_at(builder: &mut GitignoreBuilder, files: &Vec<IgnoreFile>, path: &FilePath)
    ensures
        rule_matcher::builder_root(*final(builder)) == rule_matcher::builder_root(*old(builder)),
        rule_matcher::builder_rules(*final(builder)) == rule_matcher::builder_rules(*old(builder))
            + rules_at(file_views(files@), path@),
        is_tame_at(file_views(files@), path@),
{
    let ghost all = file_views(files@);
    let mut i: usize = 0;
    proof {
        assert(all.skip(0) =~= all);
    }
    while i < files.len()
        invariant
            i <= files@.len(),
            all == file_views(files@),
            *builder == *old(builder),
            rules_at(all, path@) == rules_at(all.skip(i as int), path@),
            is_tame_at(all, path@) == is_tame_at(all.skip(i as int), path@),
        decreases files@.len() - i,
    {
        if files[i].path.same(path) {
            add_file(builder, &files[i].lines);
            return;
        }
        proof {
            assert(all.skip(i as int).skip(1) =~= all.skip(i + 1));
        }
        i = i + 1;
    }
    proof {
        assert(rule_matcher::builder_rules(*builder) + Seq::<Seq<char>>::empty()
            =~= rule_matcher::builder_rules(*builder));
    }
}

/// A builder with the directory whose rules it takes.
struct DirBuilder {
    dir: FilePath,
    builder: GitignoreBuilder,
}

/// Whether the builders hold the rules of the root, first, and of every
/// directory that one of the files speaks for.
spec fn collected(
    builders: Seq<DirBuilder>,
    root: PathView,
    first: Seq<Seq<char>>,
    files: Seq<IgnoreFileView>,
) -> bool {
    &&& builders.len() > 0
    &&& builders[0].dir@ == root
    &&& rule_matcher::builder_rules(builders[0].builder) == first
    &&& forall|i: int, j: int|
        0 <= i < j < builders.len() ==> (#[trigger] builders[i]).dir@ != (
        #[trigger] builders[j]).dir@
    &&& forall|i: int|
        0 <= i < builders.len() ==> rule_matcher::builder_root((#[trigger] builders[i]).builder)
            == rule_matcher::without_dot_slash(builders[i].dir@.text())
    &&& forall|i: int|
        0 < i < builders.len() ==> has_nested(root, files, (#[trigger] builders[i]).dir@)
            && rule_matcher::builder_rules(builders[i].builder) == nested_rules(
            root,
            files,
            builders[i].dir@,
        )
    &&& forall|dir: PathView|
        has_nested(root, files, dir) ==> exists|i: int|
            0 < i < builders.len() && (#[trigger] builders[i]).dir@ == dir
}

/// No rules come of files that do not speak for `dir`.
proof fn lemma_no_nested_rules(root: PathView, files: Seq<IgnoreFileView>, dir: PathView)
    requires
        !has_nested(root, files, dir),
    ensures
        nested_rules(root, files, dir).len() == 0,
    decreases files.len(),
{
    if files.len() > 0 {
        assert(nested_dir(root, files[files.len() - 1].path) != Some(dir));
        assert forall|i: int| 0 <= i < files.len() - 1 implies nested_dir(
            root,
            (#[trigger] files.drop_last()[i]).path,
        ) != Some(dir) by {
            assert(nested_dir(root, files[i].path) != Some(dir));
        }
        lemma_no_nested_rules(root, files.drop_last(), dir);
    }
}

/// One more file speaks for one more directory at most.
proof fn lemma_has_nested_step(root: PathView, files: Seq<IgnoreFileView>, dir: PathView)
    requires
        files.len() > 0,
    ensures
        has_nested(root, files, dir) <==> (has_nested(root, files.drop_last(), dir) || nested_dir(
            root,
            files.last().path,
        ) == Some(dir)),
{
    let before = files.drop_last();
    if has_nested(root, before, dir) {
        let i = choose|i: int|
            0 <= i < before.len() && nested_dir(root, #[trigger] before[i].path) == Some(dir);
        assert(nested_dir(root, files[i].path) == Some(dir));
    }
    if nested_dir(root, files.last().path) == Some(dir) {
        assert(nested_dir(root, files[files.len() - 1].path) == Some(dir));
    }
    if has_nested(root, files, dir) {
        let i = choose|i: int|
            0 <= i < files.len() && nested_dir(root, #[trigger] files[i].path) == Some(dir);
        if i < before.len() {
            assert(nested_dir(root, before[i].path) == Some(dir));
        }
    }
}

/// A file that speaks for no directory below the root adds nothing.
proof fn lemma_collected_skip(
    builders: Seq<DirBuilder>,
    root: PathView,
    first: Seq<Seq<char>>,
    files: Seq<IgnoreFileView>,
)
    requires
        files.len() > 0,
        nested_dir(root, files.last().path) is None,
        collected(builders, root, first, files.drop_last()),
    ensures
        collected(builders, root, first, files),
{
    assert forall|dir: PathView| #[trigger] has_nested(root, files, dir) == has_nested(
        root,
        files.drop_last(),
        dir,
    ) by {
        lemma_has_nested_step(root, files, dir);
    }
}

/// Adds the rules of the last of `files`, which speaks for `dir`.
fn add_nested(
    builders: &mut Vec<DirBuilder>,
    dir: FilePath,
    lines: &Vec<String>,
    Ghost(root): Ghost<PathView>,
    Ghost(first): Ghost<Seq<Seq<char>>>,
    Ghost(files): Ghost<Seq<IgnoreFileView>>,
)
    requires
        files.len() > 0,
        nested_dir(root, files.last().path) == Some(dir@),
        files.last().lines == path::texts(lines@),
        collected(old(builders)@, root, first, files.drop_last()),
    ensures
        collected(final(builders)@, root, first, files),
        is_tame(files.last()),
{
    let ghost before = builders@;
    proof {
        assert(dir@ != root);
        assert forall|d: PathView| #[trigger] has_nested(root, files, d) <==> (has_nested(
            root,
            files.drop_last(),
            d,
        ) || d == dir@) by {
            lemma_has_nested_step(root, files, d);
        }
    }
    let mut i: usize = 0;
    while i < builders.len()
        invariant
            i <= builders@.len(),
            builders@ == before,
            forall|j: int| 0 <= j < i ==> (#[trigger] before[j]).dir@ != dir@,
        ensures
            i < builders@.len() ==> before[i as int].dir@ == dir@,
        decreases builders@.len() - i,
    {
        if builders[i].dir.same(&dir) {
            break;
        }
        i = i + 1;
    }
    if i < builders.len() {
        add_file(&mut builders[i].builder, lines);
        proof {
            assert forall|j: int| 0 <= j < builders@.len() && j != i implies builders@[j]
                == before[j] by {}
            assert(builders@[i as int].dir@ == dir@);
            assert forall|d: PathView| has_nested(root, files, d) implies exists|j: int|
                0 < j < builders@.len() && (#[trigger] builders@[j]).dir@ == d by {
                if d == dir@ {
                    assert(builders@[i as int].dir@ == d);
                } else {
                    let j = choose|j: int|
                        0 < j < before.len() && (#[trigger] before[j]).dir@ == d;
                    assert(builders@[j].dir@ == d);
                }
            }
        }
    } else {
        proof {
            assert(!has_nested(root, files.drop_last(), dir@));
            lemma_no_nested_rules(root, files.drop_last(), dir@);
        }
        let mut builder = rule_matcher::new_builder(dir.to_text().as_str());
        add_file(&mut builder, lines);
        builders.push(DirBuilder { dir, builder });
        proof {
            assert(rule_matcher::builder_rules(builder) =~= nested_rules(root, files, dir@));
            assert forall|d: PathView| has_nested(root, files, d) implies exists|j: int|
                0 < j < builders@.len() && (#[trigger] builders@[j]).dir@ == d by {
                if d == dir@ {
                    assert(builders@[before.len() as int].dir@ == d);
                } else {
                    let j = choose|j: int|
                        0 < j < before.len() && (#[trigger] before[j]).dir@ == d;
                    assert(builders@[j].dir@ == d);
                }
            }
        }
    }
}

/// Builds the matcher of the workspace at `root` from its ignore files: those
/// of the root, wherever they stand among `files`, and those of directories
/// below, in the order of `files`. A directory whose matcher cannot be built
/// goes without.
pub fn build_ignore(root: &FilePath, files: &Vec<IgnoreFile>) -> (result: HierarchicalIgnore)
    ensures
        result.wf(),
        is_loaded(result@, root@, file_views(files@)),
{
    let ghost all = file_views(files@);
    let ghost first = root_rules(root@, all);
    let candidates = root_files(root);
    proof {
        let views = candidates@.map_values(|f: FilePath| f@);
        assert(candidates@.len() == views.len());
        assert(views[0] == candidates@[0]@ && views[1] == candidates@[1]@ && views[2]
            == candidates@[2]@);
    }
    let mut builder = rule_matcher::new_builder(root.to_text().as_str());
    add_file_at(&mut builder, files, &candidates[0]);
    add_file_at(&mut builder, files, &candidates[1]);
    add_file_at(&mut builder, files, &candidates[2]);
    proof {
        assert(rule_matcher::builder_rules(builder) =~= rules_at(all, candidates@[0]@) + rules_at(
            all,
            candidates@[1]@,
        ) + rules_at(all, candidates@[2]@));
        reveal_strlit(".git/");
    }
    rule_matcher::add_line(&mut builder, ".git/");
    let mut builders: Vec<DirBuilder> = Vec::new();
    builders.push(DirBuilder { dir: root.clone(), builder });
    let mut i: usize = 0;
    while i < files.len()
        invariant
            i <= files@.len(),
            all == file_views(files@),
            collected(builders@, root@, first, all.take(i as int)),
            forall|m: int|
                0 <= m < i && nested_dir(root@, (#[trigger] all[m]).path) is Some ==> is_tame(
                    all[m],
                ),
        decreases files@.len() - i,
    {
        let file = &files[i];
        proof {
            assert(all.take(i + 1).drop_last() =~= all.take(i as int));
            assert(all.take(i + 1).last() == file@);
        }
        match nested_ignore_dir(root, &file.path) {
            Some(dir) => {
                add_nested(
                    &mut builders,
                    dir,
                    &file.lines,
                    Ghost(root@),
                    Ghost(first),
                    Ghost(all.take(i + 1)),
                );
            },
            None => {
                proof {
                    lemma_collected_skip(builders@, root@, first, all.take(i + 1));
                }
            },
        }
        i = i + 1;
    }
    proof {
        assert(all.take(i as int) =~= all);
    }
    let ghost expected = workspace_rules(root@, all);
    proof {
        if are_small(all) {
            lemma_root_is_light(root@, all);
        }
    }
    let mut result = HierarchicalIgnore::new(root.clone());
    let mut j: usize = 0;
    while j < builders.len()
        invariant
            j <= builders@.len(),
            collected(builders@, root@, first, all),
            first == root_rules(root@, all),
            expected == workspace_rules(root@, all),
            result.wf(),
            result@.root == root@,
            forall|dir: PathView| #[trigger]
                result@.rules.contains_key(dir) ==> expected.contains_key(dir)
                    && result@.rules[dir] == expected[dir] && exists|m: int|
                    0 <= m < j && (#[trigger] builders@[m]).dir@ == dir,
            forall|m: int|
                0 <= m < j && (rule_matcher::all_simple_rules(
                    rule_matcher::builder_rules((#[trigger] builders@[m]).builder),
                ) || globs::is_light(rule_matcher::builder_rules(builders@[m].builder))
                    || are_small(all)) ==> result@.rules.contains_key(builders@[m].dir@),
            are_small(all) ==> globs::is_light(first),
            forall|m: int|
                0 <= m < all.len() && nested_dir(root@, (#[trigger] all[m]).path) is Some
                    ==> is_tame(all[m]),
        decreases builders@.len() - j,
    {
        let entry = &builders[j];
        let ghost before = result@.rules;
        let built = rule_matcher::build(&entry.builder);
        proof {
            if are_small(all) && j > 0 {
                lemma_nested_size(root@, all, entry.dir@);
            }
            assert(expected.contains_key(entry.dir@));
            assert(expected[entry.dir@] == rule_matcher::builder_rules(entry.builder)) by {
                if j > 0 {
                    assert(builders@[0].dir@ != builders@[j as int].dir@);
                }
            }
        }
        result.add_matcher(entry.dir.clone(), built);
        proof {
            assert forall|dir: PathView| #[trigger]
                result@.rules.contains_key(dir) implies exists|m: int|
                0 <= m < j + 1 && (#[trigger] builders@[m]).dir@ == dir by {
                if dir == entry.dir@ {
                    assert(builders@[j as int].dir@ == dir);
                } else {
                    assert(before.contains_key(dir));
                }
            }
        }
        j = j + 1;
    }
    proof {
        assert forall|dir: PathView|
            expected.contains_key(dir) && (rule_matcher::all_simple_rules(expected[dir])
                || globs::is_light(expected[dir]) || are_small(all)) implies #[trigger]
        result@.rules.contains_key(dir) by {
            if dir == root@ {
                assert(builders@[0].dir@ == dir);
            } else {
                let m = choose|m: int|
                    0 < m < builders@.len() && (#[trigger] builders@[m]).dir@ == dir;
                assert(builders@[m].dir@ == dir);
            }
        }
        if are_small(all) {
            assert(result@.rules =~= expected);
        }
    }
    result
}

/// Everything inside the git directory of the workspace is left out, whatever
/// the rules say.
pub proof fn git_directory_is_always_ignored(ignore: IgnoreView, path: PathView, is_dir: bool)
    requires
        path.absolute == ignore.root.absolute,
        ignore.root.child(".git"@).names.is_prefix_of(path.names),
        path.names.len() > ignore.root.names.len() + 1,
    ensures
        ignore.ignored(path, is_dir),
{
}

/// Outside the git directory the deepest rules that speak of a path win.
pub proof fn deepest_rules_win(ignore: IgnoreView, path: PathView, is_dir: bool, k: int)
    requires
        !ignore.in_git_dir(path),
        ignore.decides(path, is_dir, k),
    ensures
        ignore.ignored(path, is_dir) <==> ignore.verdict_at(path.ancestor(k), path, is_dir)
            == Verdict::Ignore,
{
    if ignore.ignored(path, is_dir) {
        let m = choose|m: int|
            #![trigger path.ancestor(m)]
            ignore.decides(path, is_dir, m) && ignore.verdict_at(path.ancestor(m), path, is_dir)
                == Verdict::Ignore;
        if m < k {
            assert(ignore.verdict_at(path.ancestor(k), path, is_dir) == Verdict::Silent);
        }
        if k < m {
            assert(ignore.verdict_at(path.ancestor(m), path, is_dir) == Verdict::Silent);
        }
    }
}

/// Outside the git directory a path that no rules speak of is kept.
pub proof fn unmentioned_paths_are_kept(ignore: IgnoreView, path: PathView, is_dir: bool)
    requires
        !ignore.in_git_dir(path),
        forall|k: int|
            ignore.asked(path, k) ==> ignore.verdict_at(#[trigger] path.ancestor(k), path, is_dir)
                == Verdict::Silent,
    ensures
        !ignore.ignored(path, is_dir),
{
}

/// The rules of a directory count only for what lies below it, and those of a
/// directory above the root not even there: other rules for `dir` change
/// nothing for a path unless `dir` is asked.
pub proof fn rules_stay_in_their_directory(
    ignore: IgnoreView,
    dir: PathView,
    rules: Seq<Seq<char>>,
    path: PathView,
    is_dir: bool,
)
    requires
        forall|k: int| ignore.asked(path, k) ==> #[trigger] path.ancestor(k) != dir,
    ensures
        ignore.ignored(path, is_dir) == (IgnoreView {
            root: ignore.root,
            rules: ignore.rules.insert(dir, rules),
        }).ignored(path, is_dir),
{
    let other = IgnoreView { root: ignore.root, rules: ignore.rules.insert(dir, rules) };
    assert forall|k: int| ignore.asked(path, k) implies ignore.verdict_at(
        #[trigger] path.ancestor(k),
        path,
        is_dir,
    ) == other.verdict_at(path.ancestor(k), path, is_dir) && other.asked(path, k) by {}
    assert forall|k: int| #[trigger] path.ancestor(k) == path.ancestor(k) implies (ignore.decides(
        path,
        is_dir,
        k,
    ) <==> other.decides(path, is_dir, k)) by {
        if ignore.asked(path, k) {
            assert forall|j: int| k < j < path.names.len() implies ignore.asked(
                path,
                j,
            ) && ignore.verdict_at(#[trigger] path.ancestor(j), path, is_dir) == other.verdict_at(
                path.ancestor(j),
                path,
                is_dir,
            ) by {
                assert(ignore.asked(path, j));
            }
        }
    }
}

/// A file gives rules to no directory below the root but its own.
pub proof fn files_speak_for_their_directory(
    root: PathView,
    files: Seq<IgnoreFileView>,
    file: IgnoreFileView,
    dir: PathView,
)
    requires
        dir != root,
        nested_dir(root, file.path) != Some(dir),
    ensures
        workspace_rules(root, files.push(file)).contains_key(dir) == workspace_rules(
            root,
            files,
        ).contains_key(dir),
        workspace_rules(root, files).contains_key(dir) ==> workspace_rules(root, files.push(file))[dir]
            == workspace_rules(root, files)[dir],
{
    assert(files.push(file).drop_last() =~= files);
    lemma_has_nested_step(root, files.push(file), dir);
}

} // verus!
