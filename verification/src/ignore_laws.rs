//! What a workspace leaves out, told by what its ignore files say.

use ignore::gitignore::Gitignore;
use vstd::prelude::*;

use crate::globs;
use crate::ignore_rules::{
    are_small, file_rules, file_views, files_size, is_loaded, made_for, nested_dir, nested_rules,
    plain_line, root_rules, rules_at, workspace_rules, IgnoreFile, IgnoreFileView, IgnoreView,
};
use crate::path::{texts, PathView};
use crate::rule_matcher;
use crate::rule_matcher::Verdict;
use crate::server_laws;
use crate::text;

verus! {

/// The rules of a directory speak of a path as the matcher of these rules does,
/// relative to the directory; a directory without rules is silent.
pub proof fn directories_speak_by_their_rules(
    ignore: IgnoreView,
    dir: PathView,
    path: PathView,
    is_dir: bool,
)
    ensures
        !ignore.rules.contains_key(dir) ==> ignore.verdict_at(dir, path, is_dir) == Verdict::Silent,
        ignore.rules.contains_key(dir) && ignore.rules[dir].len() == 0 ==> ignore.verdict_at(
            dir,
            path,
            is_dir,
        ) == Verdict::Silent,
        ignore.rules.contains_key(dir) && ignore.rules[dir].len() > 0 ==> ignore.verdict_at(
            dir,
            path,
            is_dir,
        ) == rule_matcher::rules_verdict(
            rule_matcher::without_dot_slash(dir.text()),
            ignore.rules[dir],
            path.text(),
            is_dir,
        ),
{
}

/// Whether a path has the names of the root, then `.git`, and then more.
pub open spec fn lies_in_git(root: PathView, path: PathView) -> bool {
    &&& path.absolute == root.absolute
    &&& path.names.len() > root.names.len() + 1
    &&& forall|i: int| 0 <= i < root.names.len() ==> #[trigger] path.names[i] == root.names[i]
    &&& path.names[root.names.len() as int] == ".git"@
}

proof fn lemma_lies_in_git(ignore: IgnoreView, path: PathView)
    ensures
        ignore.in_git_dir(path) == lies_in_git(ignore.root, path),
{
    let git = ignore.root.child(".git"@);
    let n = ignore.root.names.len() as int;
    if git.names.is_prefix_of(path.names) {
        assert forall|i: int| 0 <= i < git.names.len() implies path.names[i] == git.names[i] by {
            assert(path.names.take(git.names.len() as int)[i] == path.names[i]);
        }
        assert(path.names[n] == git.names[n]);
        assert forall|i: int| 0 <= i < n implies #[trigger] path.names[i]
            == ignore.root.names[i] by {
            assert(git.names[i] == ignore.root.names[i]);
        }
    }
    if lies_in_git(ignore.root, path) {
        assert(git.names =~= path.names.take(git.names.len() as int));
    }
}

/// Everything inside the git directory of the root is left out, whatever rules
/// there are.
pub proof fn git_entries_are_left_out(
    root: PathView,
    rules: Map<PathView, Seq<Seq<char>>>,
    below: Seq<Seq<char>>,
    is_dir: bool,
)
    requires
        below.len() > 0,
    ensures
        (IgnoreView { root, rules }).ignored(
            PathView { absolute: root.absolute, names: root.names.push(".git"@) + below },
            is_dir,
        ),
{
    let path = PathView { absolute: root.absolute, names: root.names.push(".git"@) + below };
    lemma_lies_in_git(IgnoreView { root, rules }, path);
}

/// Outside the git directory, where the rules of a directory on the way to a path
/// ignore it, and the directories between the two are silent and none of them is
/// the root, the path is left out; where they keep it, it is kept. What the rules
/// of directories further up say makes no difference.
pub proof fn deepest_directory_that_speaks_decides(
    ignore: IgnoreView,
    path: PathView,
    is_dir: bool,
    k: int,
)
    requires
        !lies_in_git(ignore.root, path),
        0 <= k < path.names.len(),
        forall|j: int| #![trigger path.ancestor(j)]
            k < j < path.names.len() ==> path.ancestor(j) != ignore.root && ignore.verdict_at(
                path.ancestor(j),
                path,
                is_dir,
            ) == Verdict::Silent,
    ensures
        ignore.verdict_at(path.ancestor(k), path, is_dir) == Verdict::Ignore ==> ignore.ignored(
            path,
            is_dir,
        ),
        ignore.verdict_at(path.ancestor(k), path, is_dir) == Verdict::Keep ==> !ignore.ignored(
            path,
            is_dir,
        ),
{
    lemma_lies_in_git(ignore, path);
    assert(ignore.asked(path, k));
    if ignore.verdict_at(path.ancestor(k), path, is_dir) == Verdict::Ignore {
        assert(ignore.decides(path, is_dir, k));
    }
    if ignore.verdict_at(path.ancestor(k), path, is_dir) == Verdict::Keep && ignore.ignored(
        path,
        is_dir,
    ) {
        let m = choose|m: int|
            #![trigger path.ancestor(m)]
            ignore.decides(path, is_dir, m) && ignore.verdict_at(path.ancestor(m), path, is_dir)
                == Verdict::Ignore;
        if k < m {
            assert(ignore.verdict_at(path.ancestor(m), path, is_dir) == Verdict::Silent);
        }
        if m < k {
            assert(ignore.verdict_at(path.ancestor(k), path, is_dir) == Verdict::Silent);
        }
    }
}

/// Outside the git directory, a path is kept where the root and every directory
/// between it and the path are silent, or every directory on the way where the
/// root is none of them; what the rules of directories above the root say makes
/// no difference. A path of no names is kept.
pub proof fn unspoken_paths_are_kept(ignore: IgnoreView, path: PathView, is_dir: bool, k: int)
    requires
        !lies_in_git(ignore.root, path),
        path.names.len() > 0 ==> 0 <= k < path.names.len() && (k == 0 || path.ancestor(k)
            == ignore.root),
        forall|j: int| #![trigger path.ancestor(j)]
            k <= j < path.names.len() ==> ignore.verdict_at(path.ancestor(j), path, is_dir)
                == Verdict::Silent,
    ensures
        !ignore.ignored(path, is_dir),
{
    lemma_lies_in_git(ignore, path);
    if ignore.ignored(path, is_dir) {
        let m = choose|m: int|
            #![trigger path.ancestor(m)]
            ignore.decides(path, is_dir, m) && ignore.verdict_at(path.ancestor(m), path, is_dir)
                == Verdict::Ignore;
        if m >= k {
            assert(ignore.verdict_at(path.ancestor(m), path, is_dir) == Verdict::Silent);
        } else {
            assert(path.ancestor(k) == ignore.root);
        }
    }
}

/// A path that begins with `./` is taken without it, and any other as it is.
pub proof fn leading_dot_slashes_do_not_count(text: Seq<char>)
    ensures
        rule_matcher::without_dot_slash(seq!['.', '/'] + text) == text,
        !(text.len() >= 2 && text.take(2) == seq!['.', '/']) ==> rule_matcher::without_dot_slash(
            text,
        ) == text,
{
    assert((seq!['.', '/'] + text).skip(2) =~= text);
    if text.len() >= 2 && text[0] == '.' && text[1] == '/' {
        assert(text.take(2) =~= seq!['.', '/']);
    }
}

/// A line adds its rule behind those there are, and which one that is does not
/// depend on them. Empty lines and comments add none; a simple line adds itself.
pub proof fn lines_add_their_rules(rules: Seq<Seq<char>>, line: Seq<char>)
    ensures
        line.len() == 0 ==> rule_matcher::with_line(rules, line) == rules,
        line.len() > 0 && line[0] == '#' ==> rule_matcher::with_line(rules, line) == rules,
        line.len() > 0 && line[0] != '#' ==> {
            ||| rule_matcher::is_simple_rule(line) && rule_matcher::with_line(rules, line)
                == rules.push(line)
            ||| !rule_matcher::is_simple_rule(line) && match rule_matcher::rule_of_line(line) {
                Some(rule) => rule_matcher::with_line(rules, line) == rules.push(rule),
                None => rule_matcher::with_line(rules, line) == rules,
            }
        },
{
}

/// The lines of a file add their rules one after the other, the first one without
/// the byte order marks in front of it.
pub proof fn files_add_the_rules_of_their_lines(lines: Seq<Seq<char>>, line: Seq<char>) -> (n: int)
    ensures
        file_rules(Seq::empty()) == Seq::<Seq<char>>::empty(),
        lines.len() > 0 ==> file_rules(lines.push(line)) == rule_matcher::with_line(
            file_rules(lines),
            line,
        ),
        0 <= n <= line.len(),
        forall|i: int| 0 <= i < n ==> #[trigger] line[i] == '\u{feff}',
        n < line.len() ==> line[n] != '\u{feff}',
        file_rules(seq![line]) == rule_matcher::with_line(Seq::empty(), line.skip(n)),
{
    assert(lines.push(line).drop_last() =~= lines);
    assert(seq![line].drop_last() =~= Seq::empty());
    assert(file_rules(seq![line].drop_last()) =~= Seq::empty());
    assert(plain_line(seq![line], 0) == text::without_leading(line, '\u{feff}'));
    server_laws::lemma_leading(line, '\u{feff}')
}

/// Of the files at a path the first one counts; without one there are no rules.
pub proof fn first_file_at_a_path_counts(files: Seq<IgnoreFileView>, path: PathView, i: int)
    ensures
        (forall|j: int| 0 <= j < files.len() ==> (#[trigger] files[j]).path != path) ==> rules_at(
            files,
            path,
        ) == Seq::<Seq<char>>::empty(),
        0 <= i < files.len() && files[i].path == path && (forall|j: int|
            0 <= j < i ==> (#[trigger] files[j]).path != path) ==> rules_at(files, path)
            == file_rules(files[i].lines),
    decreases files.len(),
{
    if files.len() > 0 {
        let rest = files.skip(1);
        first_file_at_a_path_counts(rest, path, i - 1);
        if forall|j: int| 0 <= j < files.len() ==> (#[trigger] files[j]).path != path {
            assert(files[0].path != path);
            assert forall|j: int| 0 <= j < rest.len() implies (#[trigger] rest[j]).path != path by {
                assert(rest[j] == files[j + 1]);
            }
        }
        if 0 < i < files.len() && files[i].path == path && (forall|j: int|
            0 <= j < i ==> (#[trigger] files[j]).path != path) {
            assert(files[0].path != path);
            assert(rest[i - 1] == files[i]);
            assert forall|j: int| 0 <= j < i - 1 implies (#[trigger] rest[j]).path != path by {
                assert(rest[j] == files[j + 1]);
            }
        }
    }
}

/// The root always has rules: those of its `.gitignore`, then of its `.ignore`,
/// then of the file that the editor keeps, and last the one for the git
/// directory.
pub proof fn root_has_the_rules_of_its_files(root: PathView, files: Seq<IgnoreFileView>)
    ensures
        ({
            let git = PathView {
                absolute: root.absolute,
                names: root.names.push(".gitignore"@),
            };
            let plain = PathView { absolute: root.absolute, names: root.names.push(".ignore"@) };
            let editor = PathView {
                absolute: root.absolute,
                names: root.names.push(".helix"@).push("ignore"@),
            };
            &&& workspace_rules(root, files).contains_key(root)
            &&& workspace_rules(root, files)[root] == rules_at(files, git) + rules_at(files, plain)
                + rules_at(files, editor) + seq![".git/"@]
        }),
{
    assert(workspace_rules(root, files)[root] =~= root_rules(root, files));
    let (a, b, c) = (
        rules_at(files, root.child(".gitignore"@)),
        rules_at(files, root.child(".ignore"@)),
        rules_at(files, root.child(".helix"@).child("ignore"@)),
    );
    assert((a + b + c).push(".git/"@) =~= a + b + c + seq![".git/"@]);
}

/// Whether a file is the `.gitignore` or the `.ignore` of a directory.
pub open spec fn belongs_to(file: PathView, dir: PathView) -> bool {
    file.absolute == dir.absolute && (file.names == dir.names.push(".gitignore"@) || file.names
        == dir.names.push(".ignore"@))
}

proof fn lemma_belongs(root: PathView, file: PathView, dir: PathView)
    requires
        dir != root,
    ensures
        nested_dir(root, file) == Some(dir) <==> belongs_to(file, dir),
{
    if belongs_to(file, dir) {
        assert(file.names.take(file.names.len() - 1) =~= dir.names);
        assert(file.ancestor(file.names.len() - 1) =~= dir);
    }
    if nested_dir(root, file) == Some(dir) {
        assert(dir.names.push(file.names.last()) =~= file.names);
    }
}

/// A file speaks for a directory below the root just where it is the `.gitignore`
/// or the `.ignore` of it.
pub proof fn ignore_files_speak_for_their_directory(root: PathView, file: PathView)
    ensures
        nested_dir(root, file) matches Some(dir) ==> dir != root && belongs_to(file, dir),
        nested_dir(root, file) is None ==> forall|dir: PathView|
            dir != root ==> !#[trigger] belongs_to(file, dir),
{
    match nested_dir(root, file) {
        Some(dir) => {
            lemma_belongs(root, file, dir);
        },
        None => {
            assert forall|dir: PathView| dir != root implies !#[trigger] belongs_to(file, dir) by {
                lemma_belongs(root, file, dir);
            }
        },
    }
}

/// Without files only the root has rules. One more file adds its rules behind
/// those of the directory that it belongs to, if that is not the root, and
/// changes no other directory below the root.
pub proof fn files_add_to_their_directory(
    root: PathView,
    files: Seq<IgnoreFileView>,
    file: IgnoreFileView,
    dir: PathView,
)
    requires
        dir != root,
    ensures
        !workspace_rules(root, Seq::empty()).contains_key(dir),
        ({
            let (before, after) = (
                workspace_rules(root, files),
                workspace_rules(root, files.push(file)),
            );
            if belongs_to(file.path, dir) {
                &&& after.contains_key(dir)
                &&& before.contains_key(dir) ==> after[dir] == before[dir] + file_rules(file.lines)
                &&& !before.contains_key(dir) ==> after[dir] == file_rules(file.lines)
            } else {
                &&& after.contains_key(dir) == before.contains_key(dir)
                &&& before.contains_key(dir) ==> after[dir] == before[dir]
            }
        }),
{
    let more = files.push(file);
    assert(more.drop_last() =~= files);
    assert(more[files.len() as int] == file);
    lemma_belongs(root, file.path, dir);
    let (before, after) = (workspace_rules(root, files), workspace_rules(root, more));
    if before.contains_key(dir) {
        let i = choose|i: int|
            0 <= i < files.len() && nested_dir(root, #[trigger] files[i].path) == Some(dir);
        assert(nested_dir(root, more[i].path) == Some(dir));
    } else {
        lemma_no_rules(root, files, dir);
        assert(nested_rules(root, files, dir) + file_rules(file.lines) =~= file_rules(file.lines));
    }
    if belongs_to(file.path, dir) {
        assert(nested_dir(root, more[files.len() as int].path) == Some(dir));
    }
    if after.contains_key(dir) {
        let i = choose|i: int|
            0 <= i < more.len() && nested_dir(root, #[trigger] more[i].path) == Some(dir);
        if i < files.len() {
            assert(nested_dir(root, files[i].path) == Some(dir));
        }
    }
}

/// Files that belong to other directories give no rules.
proof fn lemma_no_rules(root: PathView, files: Seq<IgnoreFileView>, dir: PathView)
    requires
        forall|i: int|
            0 <= i < files.len() ==> nested_dir(root, #[trigger] files[i].path) != Some(dir),
    ensures
        nested_rules(root, files, dir) == Seq::<Seq<char>>::empty(),
    decreases files.len(),
{
    if files.len() > 0 {
        let front = files.drop_last();
        assert(nested_dir(root, files[files.len() - 1].path) != Some(dir));
        assert forall|i: int| 0 <= i < front.len() implies nested_dir(
            root,
            (#[trigger] front[i]).path,
        ) != Some(dir) by {
            assert(nested_dir(root, files[i].path) != Some(dir));
        }
        lemma_no_rules(root, front, dir);
    }
}

/// A workspace that is loaded has no rules but those of its files, each directory
/// its own. It has all of them where no line is long and the files do not come to
/// much; and those of a directory where none is long and they do not come to
/// much, or all are simple.
pub proof fn loaded_workspaces_have_their_rules(
    ignore: IgnoreView,
    root: PathView,
    files: Seq<IgnoreFileView>,
    dir: PathView,
)
    requires
        is_loaded(ignore, root, files),
    ensures
        ignore.root == root,
        ignore.rules.contains_key(dir) ==> workspace_rules(root, files).contains_key(dir)
            && ignore.rules[dir] == workspace_rules(root, files)[dir],
        workspace_rules(root, files).contains_key(dir) && ({
            let rules = workspace_rules(root, files)[dir];
            ||| forall|i: int| 0 <= i < rules.len() ==> rule_matcher::is_simple_rule(
                #[trigger] rules[i],
            )
            ||| globs::size(rules) <= 10_050 && forall|i: int|
                0 <= i < rules.len() ==> (#[trigger] rules[i]).len() <= 200
        }) ==> ignore.rules.contains_key(dir),
        files_size(files) <= 10_000 && (forall|i: int, j: int|
            0 <= i < files.len() && 0 <= j < files[i].lines.len() ==> (
            #[trigger] files[i].lines[j]).len() <= 200) ==> ignore.rules == workspace_rules(
            root,
            files,
        ),
{
    if files_size(files) <= 10_000 && (forall|i: int, j: int|
        0 <= i < files.len() && 0 <= j < files[i].lines.len() ==> (
        #[trigger] files[i].lines[j]).len() <= 200) {
        assert forall|i: int| 0 <= i < files.len() implies globs::all_short(
            (#[trigger] files[i]).lines,
        ) by {}
        assert(are_small(files));
    }
}

/// What files come to adds up.
pub proof fn file_sizes_add_up(files: Seq<IgnoreFileView>, file: IgnoreFileView)
    ensures
        files_size(Seq::empty()) == 0,
        files_size(files.push(file)) == files_size(files) + globs::size(file.lines),
{
    assert(files.push(file).drop_last() =~= files);
}

/// A rule is simple where it is a plain text that does not begin with a slash, or
/// an extension behind `*.`; `**/` may stand in front of it, or a slash before a
/// plain text, and a `!` in front of it all.
pub proof fn plain_rules_are_simple(keep: bool, front: Seq<char>, body: Seq<char>)
    requires
        ({
            let is_text = body.len() > 0 && body[0] != '/' && forall|i: int|
                0 <= i < body.len() ==> server_laws::is_ordinary(#[trigger] body[i]);
            let is_extension = body.len() > 2 && body[0] == '*' && body[1] == '.' && forall|i: int|
                2 <= i < body.len() ==> server_laws::is_ordinary(#[trigger] body[i]) && body[i]
                    != '.' && body[i] != '/';
            ||| is_text && (front == Seq::<char>::empty() || front == seq!['/'] || front
                == seq!['*', '*', '/'])
            ||| is_extension && (front == Seq::<char>::empty() || front == seq!['*', '*', '/'])
        }),
    ensures
        rule_matcher::is_simple_rule(
            if keep {
                seq!['!'] + front + body
            } else {
                front + body
            },
        ),
{
    let glob = front + body;
    let rule = if keep {
        seq!['!'] + front + body
    } else {
        glob
    };
    if keep {
        assert(rule.skip(1) =~= glob);
    }
    if front == Seq::<char>::empty() {
        assert(glob =~= body);
        if glob.len() >= 3 && glob[0] == '*' && glob[1] == '*' {
            assert(server_laws::is_ordinary(body[0]));
        }
    } else if front == seq!['/'] {
        assert(glob.skip(1) =~= body);
    } else {
        assert(glob.skip(3) =~= body);
    }
    assert(server_laws::is_ordinary(body[0]) || body[0] == '*');
}

/// A matcher is made for a directory where it has no rules or is rooted there.
pub proof fn matchers_are_made_for_directories(matcher: Gitignore, dir: PathView)
    ensures
        made_for(matcher, dir) <==> rule_matcher::matcher_rules(matcher).len() == 0
            || rule_matcher::matcher_root(matcher) == rule_matcher::without_dot_slash(dir.text()),
{
}

/// What is told of ignore files is what they hold, each in its place.
pub proof fn file_models_hold_what_is_there(files: Seq<IgnoreFile>, i: int)
    ensures
        file_views(files).len() == files.len(),
        0 <= i < files.len() ==> file_views(files)[i].path == files[i].path@ && file_views(
            files,
        )[i].lines == texts(files[i].lines@),
{
}

} // verus!
