use solc_artifacts::path::SourcePath;
use solc_artifacts::source::Source;

fn source(text: &str) -> Source {
    Source { content: text.to_string() }
}

#[test]
fn content_hash_is_md5_in_hex() {
    assert_eq!(source("hello world").content_hash(), "5eb63bbbe01eeed093cb22bb8f5acdc3");
    assert_eq!(source("").content_hash(), "d41d8cd98f00b204e9800998ecf8427e");
    assert_eq!(source("é").content_hash().len(), 32);
    assert_eq!(Source::hash_text(&[0x00, 0x0f, 0xa0, 0xff]), "000fa0ff");
}

#[test]
fn all_reads_or_the_first_failure() {
    let reads: Vec<(SourcePath, Result<Source, String>)> = vec![
        (SourcePath::new("b.sol"), Ok(source("b"))),
        (SourcePath::new("a.sol"), Ok(source("a"))),
        (SourcePath::new("./b.sol"), Ok(source("c"))),
        (SourcePath::new("b.sol/"), Ok(source("d"))),
    ];
    let sources = Source::read_all(reads).unwrap();
    assert_eq!(sources.len(), 3);
    assert_eq!(sources.get(&SourcePath::new("a.sol")), Some(&source("a")));
    assert_eq!(sources.get(&SourcePath::new("b.sol")), Some(&source("d")));
    assert_eq!(sources.get(&SourcePath::new("./b.sol")), Some(&source("c")));

    let reads = vec![
        (SourcePath::new("a.sol"), Ok(source("a"))),
        (SourcePath::new("b.sol"), Err("first")),
        (SourcePath::new("c.sol"), Err("second")),
    ];
    assert_eq!(Source::read_all(reads), Err("first"));
    assert!(Source::read_all::<String>(vec![]).unwrap().is_empty());
}

#[test]
fn many_files_are_read_in_parallel() {
    assert_eq!(Source::NUM_READ_PAR, 8);
    assert!(!Source::reads_in_parallel(0));
    assert!(!Source::reads_in_parallel(7));
    assert!(Source::reads_in_parallel(8));
    assert!(Source::reads_in_parallel(9));
}

#[test]
fn imports_are_the_parts_that_were_found() {
    let file = source("import \"é.sol\"; import './b.sol';");
    let text: &str = file.as_ref();
    let first = text.find("é.sol").unwrap();
    let second = text.find("./b.sol").unwrap();
    assert_eq!(file.parse_imports(&vec![(first, first + 6), (second, second + 7), (3, 3)]), ["é.sol", "./b.sol", ""]);
    assert!(file.parse_imports(&vec![]).is_empty());
}
