use file_watch::path::FilePath;

fn at(path: &str) -> FilePath {
    FilePath::parse(path)
}

#[test]
fn paths_are_read_as_std_reads_them() {
    for text in ["", "/", "//", ".", "./", "..", "a", "a/", "/a", "./a", "a/./b", "/./a", "//a//b/",
        "a/../b", ".a", "..a", "a/.", "/..", "././a", "ä/ö"]
    {
        let path = FilePath::parse(text);
        let std: std::path::PathBuf = std::path::Path::new(text).components().collect();
        assert_eq!(path.to_text(), std.to_str().unwrap(), "{}", text);
        let parent = std::path::Path::new(text).parent();
        let parent: Option<std::path::PathBuf> = parent.map(|p| p.components().collect());
        assert_eq!(path.parent().map(|p| p.to_text()), parent.map(|p| p.display().to_string()));
    }
}

#[test]
fn paths_are_joined_as_std_joins_them() {
    let texts = ["", "/", ".", "a", "/a", "./a", "a/b", "/a/b", "..", "../a", "./b/c"];
    for base in texts {
        for rel in texts {
            let joined = at(base).join(&at(rel));
            let std: std::path::PathBuf =
                std::path::Path::new(base).join(rel).components().collect();
            assert_eq!(joined.to_text(), std.to_str().unwrap(), "{} {}", base, rel);
        }
    }
}

#[test]
fn prefixes_are_stripped_as_std_strips_them() {
    let texts = ["", "/", ".", "a", "/a", "./a", "a/b", "/a/b", "/ab", "/a/b/c"];
    for path in texts {
        for base in texts {
            let rest = at(path).strip_prefix(&at(base));
            let std = std::path::Path::new(path).strip_prefix(base);
            let std: Option<std::path::PathBuf> = std.ok().map(|p| p.components().collect());
            assert_eq!(
                rest.map(|p| p.to_text()),
                std.map(|p| p.display().to_string()),
                "{} {}", path, base,
            );
            assert_eq!(
                at(path).starts_with(&at(base)),
                std::path::Path::new(path).starts_with(base),
            );
        }
    }
}

#[test]
fn reading_back_what_is_written_gives_the_path() {
    for text in ["", "/", ".", "./a/b", "/a/b", "../..", "a b/c"] {
        let path = at(text);
        assert_eq!(FilePath::parse(&path.to_text()), path);
        assert_eq!(path.to_text(), text);
    }
}

#[test]
fn children_names_and_depth() {
    let dir = at("/a");
    let child = dir.child("b");
    assert_eq!(child, at("/a/b"));
    assert_eq!(child.last_name().map(|n| n.as_str()), Some("b"));
    assert_eq!(child.depth(), 2);
    assert_eq!(at("/").last_name(), None);
    assert!(child.same(&at("/a//b/")));
    assert!(!child.same(&at("a/b")));
    assert!(!child.same(&at("/a/c")));
    assert!(child.clone().same(&child));
}
