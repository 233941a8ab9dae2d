use serde_json::Value;
use solc_artifacts::contract::{
    Bytecode, BytecodeObject, CompiledContract, DeployedBytecode, DevDoc, Evm, LosslessAbi, StorageLayout, UserDoc,
};
use solc_artifacts::error::{Error, Severity, SourceLocation};
use solc_artifacts::ord_map::OrdMap;
use solc_artifacts::output::{CompilerOutput, SourceFile};

fn bytecode(byte: u8) -> Bytecode {
    Bytecode {
        function_debug_data: OrdMap::new(),
        object: BytecodeObject::Bytecode(vec![byte]),
        opcodes: None,
        source_map: None,
        generated_sources: vec![],
        link_references: OrdMap::new(),
    }
}

fn contract(byte: u8) -> CompiledContract {
    CompiledContract {
        abi: Some(LosslessAbi::default()),
        metadata: None,
        userdoc: UserDoc::default(),
        devdoc: DevDoc::default(),
        ir: None,
        storage_layout: StorageLayout::default(),
        evm: Some(Evm {
            assembly: None,
            legacy_assembly: None,
            bytecode: Some(bytecode(byte)),
            deployed_bytecode: Some(DeployedBytecode {
                bytecode: Some(bytecode(byte + 100)),
                immutable_references: OrdMap::new(),
            }),
            method_identifiers: OrdMap::new(),
            gas_estimates: None,
        }),
        ewasm: None,
        ir_optimized: None,
    }
}

fn message(severity: Severity, code: Option<u64>, file: Option<&str>) -> Error {
    Error {
        source_location: file.map(|file| SourceLocation { file: file.to_string(), start: 0, end: 1 }),
        secondary_source_locations: vec![],
        error_type: "DeclarationError".to_string(),
        component: "general".to_string(),
        severity,
        error_code: code,
        message: "m".to_string(),
        formatted_message: None,
    }
}

fn output(files: &[(&str, &[(&str, u8)])], errors: Vec<Error>) -> CompilerOutput {
    let mut out = CompilerOutput::default();
    for (i, (path, names)) in files.iter().enumerate() {
        let mut file = OrdMap::new();
        for (name, byte) in names.iter() {
            file.insert(name.to_string(), contract(*byte));
        }
        out.contracts.insert(path.to_string(), file);
        out.sources.insert(path.to_string(), SourceFile { id: i as u32, ast: Value::Null });
    }
    out.errors = errors;
    out
}

fn names(out: &CompilerOutput) -> Vec<(String, CompiledContract)> {
    out.contracts_iter().into_iter().map(|(name, contract)| (name.clone(), contract.clone())).collect()
}

fn sample() -> CompilerOutput {
    output(&[("b.sol", &[("Z", 3), ("A", 4)]), ("a.sol", &[("B", 1), ("A", 2)])], vec![])
}

#[test]
fn contracts_are_listed_by_file_and_name() {
    let expected: Vec<(String, CompiledContract)> = [("A", 2), ("B", 1), ("A", 4), ("Z", 3)]
        .iter()
        .map(|(name, byte)| (name.to_string(), contract(*byte)))
        .collect();
    assert_eq!(names(&sample()), expected);
    assert_eq!(sample().contracts_into_iter(), expected);
    let (_, contracts) = sample().split();
    assert_eq!(contracts.clone().into_contracts(), expected);
    assert_eq!(contracts.contracts_iter().len(), 4);
}

#[test]
fn finds_the_first_contract_of_a_name() {
    let out = sample();
    let found = out.find("A").unwrap();
    assert_eq!(found.bin, Some(&BytecodeObject::Bytecode(vec![2])));
    assert_eq!(found.bin_runtime, Some(&BytecodeObject::Bytecode(vec![102])));
    assert_eq!(found.abi, Some(&ethabi::Contract::default()));
    assert!(out.find("Z").is_some());
    assert!(out.find("Y").is_none());
    let (_, contracts) = sample().split();
    assert_eq!(contracts.find("A"), out.find("A"));
    assert!(contracts.find("a").is_none());
}

#[test]
fn finds_parts_that_are_missing_as_none() {
    let mut out = sample();
    let mut bare = contract(1);
    bare.evm = None;
    bare.abi = None;
    let mut file = OrdMap::new();
    file.insert("Bare".to_string(), bare);
    out.contracts.insert("c.sol".to_string(), file);
    let found = out.find("Bare").unwrap();
    assert_eq!((found.abi, found.bin, found.bin_runtime), (None, None, None));
}

#[test]
fn removes_the_first_contract_of_a_name() {
    let mut out = sample();
    assert_eq!(out.remove("A"), Some(contract(2)));
    assert_eq!(out.find("A").unwrap().bin, Some(&BytecodeObject::Bytecode(vec![4])));
    assert_eq!(out.remove("A"), Some(contract(4)));
    assert_eq!(out.remove("A"), None);
    assert_eq!(out.contracts.len(), 2);
    let left: Vec<String> = names(&out).into_iter().map(|(name, _)| name).collect();
    assert_eq!(left, ["B", "Z"]);
    let (_, mut contracts) = sample().split();
    assert_eq!(contracts.remove("B"), Some(contract(1)));
    assert_eq!(contracts.remove("B"), None);
}

#[test]
fn gets_a_contract_by_path_and_name() {
    let out = sample();
    assert_eq!(out.get("b.sol", "A").unwrap().bin, Some(&BytecodeObject::Bytecode(vec![4])));
    assert!(out.get("b.sol", "B").is_none());
    assert!(out.get("c.sol", "A").is_none());
}

#[test]
fn errors_and_warnings_are_noticed() {
    let with = |errors: Vec<Error>| output(&[], errors);
    assert!(!with(vec![]).has_error());
    assert!(with(vec![message(Severity::Info, None, None), message(Severity::Error, Some(7576), None)]).has_error());
    let warned = with(vec![message(Severity::Warning, Some(5), None)]);
    assert!(!warned.has_error());
    assert!(warned.has_warning(&[]));
    assert!(warned.has_warning(&[4, 6]));
    assert!(!warned.has_warning(&[4, 5]));
    assert!(with(vec![message(Severity::Warning, None, None)]).has_warning(&[]));
    assert!(with(vec![message(Severity::Warning, None, None)]).has_warning(&[5]));
    assert!(!with(vec![message(Severity::Info, None, None)]).has_warning(&[]));
    assert!(!with(vec![message(Severity::Error, Some(5), None)]).has_warning(&[]));
}

#[test]
fn retains_only_the_given_files() {
    let errors = vec![
        message(Severity::Error, Some(1), Some("SRC/a.sol")),
        message(Severity::Error, Some(2), Some("src/b.sol")),
        message(Severity::Error, Some(3), None),
    ];
    let mut out = output(&[("src/A.sol", &[("A", 1)]), ("src/b.sol", &[("B", 2)])], errors);
    out.retain_files(vec!["Src/a.SOL", "other.sol"]);
    assert_eq!(names(&out), [("A".to_string(), contract(1))]);
    assert_eq!(out.sources.len(), 1);
    assert!(out.sources.contains_key(&"src/A.sol".to_string()));
    let codes: Vec<Option<u64>> = out.errors.iter().map(|error| error.error_code).collect();
    assert_eq!(codes, [Some(1), Some(3)]);
    let once = out.clone();
    out.retain_files(vec!["src/a.sol", "OTHER.sol"]);
    assert_eq!(out, once);
    out.retain_files(vec![]);
    assert!(out.contracts.is_empty() && out.sources.is_empty());
    assert_eq!(out.errors.len(), 1);
}

#[test]
fn case_is_ignored_beyond_ascii() {
    let mut out = output(&[("src/Ä.sol", &[("A", 1)])], vec![]);
    out.retain_files(vec!["src/ä.sol"]);
    assert_eq!(out.contracts.len(), 1);
}

#[test]
fn retains_names_that_are_in_lower_case_already() {
    let errors = vec![message(Severity::Error, Some(1), Some("X")), message(Severity::Error, Some(2), None)];
    let mut out = output(&[("A", &[("A", 1)]), ("B", &[("B", 2)])], errors);
    let lower = |texts: &[&str]| texts.iter().map(|text| text.to_string()).collect::<Vec<String>>();
    out.retain_lowercase(&lower(&["b"]), &lower(&["a", "b"]), &lower(&["b", "a"]), &vec![Some("x".to_string()), None]);
    assert_eq!(names(&out), [("B".to_string(), contract(2))]);
    assert!(out.sources.contains_key(&"A".to_string()) && out.sources.len() == 1);
    assert_eq!(out.errors.len(), 1);
    assert_eq!(out.errors[0].error_code, Some(2));
}

#[test]
fn merging_replaces_what_is_said_of_a_file() {
    let mut out = output(
        &[("a.sol", &[("A", 1), ("B", 2)]), ("b.sol", &[("C", 3)])],
        vec![message(Severity::Warning, Some(1), None)],
    );
    let other = output(
        &[("x.sol", &[]), ("a.sol", &[("A", 9)])],
        vec![message(Severity::Error, Some(2), None)],
    );
    out.merge(other);
    assert!(out.has_error() && out.has_warning(&[]));
    assert_eq!(out.errors.len(), 2);
    assert_eq!(out.errors[1].error_code, Some(2));
    assert_eq!(out.get("a.sol", "A").unwrap().bin, Some(&BytecodeObject::Bytecode(vec![9])));
    assert!(out.get("a.sol", "B").is_none());
    assert!(out.get("b.sol", "C").is_some());
    assert_eq!(out.sources.get(&"a.sol".to_string()).unwrap().id, 1);
    assert_eq!(out.contracts.len(), 3);
}

#[test]
fn ids_and_paths_of_source_files() {
    let (files, contracts) = sample().split();
    assert_eq!(contracts.0, sample().contracts);
    assert_eq!(files.clone().into_ids(), [(1, "a.sol".to_string()), (0, "b.sol".to_string())]);
    assert_eq!(files.into_paths(), [("a.sol".to_string(), 1), ("b.sol".to_string(), 0)]);
}

#[test]
fn files_are_retained_in_any_order() {
    let errors = vec![
        message(Severity::Error, Some(1), Some("a.sol")),
        message(Severity::Error, Some(2), Some("b.sol")),
        message(Severity::Error, Some(3), None),
    ];
    let all = output(&[("a.sol", &[("A", 1)]), ("b.sol", &[("B", 2)]), ("c.sol", &[("C", 3)])], errors);
    let (mut first, mut second) = (all.clone(), all);
    first.retain_files(vec!["a.sol", "B.sol"]);
    first.retain_files(vec!["b.sol", "c.sol"]);
    second.retain_files(vec!["b.sol", "c.sol"]);
    second.retain_files(vec!["a.sol", "B.sol"]);
    assert_eq!(first, second);
    assert_eq!(names(&first), [("B".to_string(), contract(2))]);
    assert_eq!(first.errors.len(), 2);
}

#[test]
fn merging_is_associative_and_empty_outputs_add_nothing() {
    let a = output(&[("a.sol", &[("A", 1)]), ("b.sol", &[("B", 2)])], vec![message(Severity::Info, Some(1), None)]);
    let b = output(&[("b.sol", &[("B", 3)]), ("c.sol", &[("C", 4)])], vec![message(Severity::Info, Some(2), None)]);
    let c = output(&[("c.sol", &[("D", 5)]), ("a.sol", &[("E", 6)])], vec![message(Severity::Info, Some(3), None)]);
    let mut left = a.clone();
    left.merge(b.clone());
    left.merge(c.clone());
    let mut right = b;
    right.merge(c);
    let mut whole = a.clone();
    whole.merge(right);
    assert_eq!(left, whole);

    let mut same = a.clone();
    same.merge(CompilerOutput::default());
    assert_eq!(same, a);
    let mut filled = CompilerOutput::default();
    filled.merge(a.clone());
    assert_eq!(filled, a);
}
