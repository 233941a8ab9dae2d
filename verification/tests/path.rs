use solc_artifacts::ord_map::{MapKey, OrdMap};
use solc_artifacts::order::Rank;
use solc_artifacts::path::SourcePath;
use std::path::Path;

const PATHS: [&str; 24] = [
    "",
    ".",
    "..",
    "/",
    "//",
    "a",
    "a/",
    "a//b",
    "a/b",
    "a/./b",
    "./a/b",
    "a/../b",
    "a-b",
    "/a/b.sol",
    "x.yul",
    "x.yul/",
    "x.yul/.",
    "x.yul/..",
    ".yul",
    "..yul",
    "a.b.yul",
    "a.",
    "a/.hidden.sol",
    "dir.yul/file",
];

#[test]
fn extensions_agree_with_std() {
    for text in PATHS {
        let expected = Path::new(text).extension().map(|e| e.to_str().unwrap().to_string());
        assert_eq!(SourcePath::new(text).extension(), expected, "{:?}", text);
    }
    assert_eq!(SourcePath::new("src/Token.sol").extension(), Some("sol".to_string()));
    assert_eq!(SourcePath::new(".sol").extension(), None);
}

#[test]
fn comparison_agrees_with_std() {
    for a in PATHS {
        for b in PATHS {
            let rank = match Path::new(a).cmp(Path::new(b)) {
                std::cmp::Ordering::Less => Rank::Less,
                std::cmp::Ordering::Equal => Rank::Equal,
                std::cmp::Ordering::Greater => Rank::Greater,
            };
            assert_eq!(SourcePath::new(a).compare(&SourcePath::new(b)), rank, "{:?} {:?}", a, b);
            assert_eq!(SourcePath::new(a) == SourcePath::new(b), Path::new(a) == Path::new(b));
        }
    }
}

#[test]
fn spellings_of_a_path_are_one_key() {
    let mut map = OrdMap::new();
    map.insert(SourcePath::new("a/b"), 1);
    assert_eq!(map.insert(SourcePath::new("a//b/"), 2), Some(1));
    assert_eq!(map.get(&SourcePath::new("a/./b")), Some(&2));
    assert_eq!(map.len(), 1);
    assert_eq!(map.nth(0).0.text, "a/b");
}

#[test]
fn slashes_and_dots_make_no_difference() {
    assert_eq!(SourcePath::new("src/a.sol/"), SourcePath::new("src/a.sol"));
    assert_eq!(SourcePath::new("src//a.sol"), SourcePath::new("src/a.sol"));
    assert_eq!(SourcePath::new("src/./a.sol"), SourcePath::new("src/a.sol"));
    assert!(SourcePath::new("./a.sol") != SourcePath::new("a.sol"));
    assert!(SourcePath::new("/a.sol") != SourcePath::new("a.sol"));
}

#[test]
fn source_files_go_by_extension() {
    assert!(SourcePath::new("a/B.sol").is_source_file());
    assert!(SourcePath::new("a/B.yul").is_source_file());
    assert!(!SourcePath::new("a/B.txt").is_source_file());
    assert!(!SourcePath::new("a/sol").is_source_file());
}
