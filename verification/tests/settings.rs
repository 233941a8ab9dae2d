use solc_artifacts::evm_version::EvmVersion;
use solc_artifacts::ord_map::OrdMap;
use solc_artifacts::settings::{Optimizer, OutputSelection, Settings};

fn s(text: &str) -> String {
    text.to_string()
}

fn outputs(settings: &Settings, file: &str, contract: &str) -> Option<Vec<String>> {
    settings.output_selection.0.get(&s(file)).and_then(|f| f.get(&s(contract))).cloned()
}

fn empty() -> Settings {
    Settings::new(OutputSelection(OrdMap::new()))
}

#[test]
fn default_settings() {
    let settings = Settings::default();
    assert_eq!(settings.stop_after, None);
    assert!(settings.remappings.is_empty());
    assert_eq!(settings.optimizer, Optimizer { enabled: Some(false), runs: Some(200), details: None });
    assert_eq!(settings.metadata, None);
    assert_eq!(settings.evm_version, Some(EvmVersion::London));
    assert_eq!(settings.via_ir, None);
    assert!(settings.libraries.is_empty());
    assert_eq!(settings.output_selection.0.len(), 1);
    assert_eq!(
        outputs(&settings, "*", "*"),
        Some(vec![s("abi"), s("evm.bytecode"), s("evm.deployedBytecode"), s("evm.methodIdentifiers")])
    );
    assert_eq!(outputs(&settings, "*", ""), Some(vec![s("ast")]));
}

#[test]
fn new_settings_select_what_is_given() {
    let settings = empty();
    assert!(settings.output_selection.0.is_empty());
    assert_eq!(settings.evm_version, Some(EvmVersion::London));
    let settings = Settings::new(OutputSelection::default_output_selection());
    assert_eq!(outputs(&settings, "*", ""), None);
    assert_eq!(settings.with_ast(), Settings::default());
}

#[test]
fn can_push_output_selection() {
    let mut selection = Settings::default();
    selection.push_output_selection(s("metadata"));
    assert_eq!(
        outputs(&selection, "*", "*"),
        Some(vec![s("abi"), s("evm.bytecode"), s("evm.deployedBytecode"), s("evm.methodIdentifiers"), s("metadata")])
    );
    let once = selection.clone();
    selection.push_output_selection(s("metadata"));
    assert_eq!(selection, once);
}

#[test]
fn pushing_adds_to_the_existing_list() {
    let mut settings = empty();
    settings.push_contract_output_selection(s("Token"), s("abi"));
    settings.push_contract_output_selection(s("Token"), s("ir"));
    settings.push_contract_output_selection(s("Token"), s("abi"));
    settings.push_contract_output_selection(s("Other"), s("abi"));
    assert_eq!(outputs(&settings, "*", "Token"), Some(vec![s("abi"), s("ir")]));
    assert_eq!(outputs(&settings, "*", "Other"), Some(vec![s("abi")]));
}

#[test]
fn setting_replaces_the_existing_list() {
    let mut settings = empty();
    settings.push_contract_output_selection(s("Token"), s("abi"));
    settings.set_contract_output_selection(s("Token"), vec![s("ir"), s("ir")]);
    assert_eq!(outputs(&settings, "*", "Token"), Some(vec![s("ir"), s("ir")]));
    settings.set_output_selection(vec![s("metadata")]);
    assert_eq!(outputs(&settings, "*", "*"), Some(vec![s("metadata")]));
    assert_eq!(outputs(&settings, "*", "Token"), Some(vec![s("ir"), s("ir")]));
    settings.set_output_selection(vec![]);
    assert_eq!(outputs(&settings, "*", "*"), Some(vec![]));
}

#[test]
fn other_files_are_left_alone() {
    let mut file = OrdMap::new();
    file.insert(s("*"), vec![s("abi")]);
    let mut files = OrdMap::new();
    files.insert(s("a.sol"), file);
    let mut settings = Settings::new(OutputSelection(files));
    settings.push_output_selection(s("ir"));
    settings = settings.with_ast();
    assert_eq!(outputs(&settings, "a.sol", "*"), Some(vec![s("abi")]));
    assert_eq!(outputs(&settings, "a.sol", ""), None);
    assert_eq!(outputs(&settings, "*", "*"), Some(vec![s("ir")]));
    assert_eq!(outputs(&settings, "*", ""), Some(vec![s("ast")]));
}

#[test]
fn pushes_all_without_duplicates() {
    let extra = vec![s("ir"), s("abi"), s("ir"), s("metadata")];
    let mut settings = empty();
    settings.push_all(extra.clone());
    assert_eq!(outputs(&settings, "*", "*"), Some(vec![s("ir"), s("abi"), s("metadata")]));
    assert_eq!(empty().with_extra_output(extra), settings);
    assert_eq!(empty().with_extra_output(vec![]), empty());
}

#[test]
fn via_ir_is_set() {
    assert_eq!(Settings::default().with_via_ir().via_ir, Some(true));
    assert_eq!(Settings::default().set_via_ir(false).via_ir, Some(false));
}

#[test]
fn optimizer_is_switched() {
    let mut optimizer = Optimizer::default();
    optimizer.runs(5);
    assert_eq!(optimizer, Optimizer { enabled: Some(false), runs: Some(5), details: None });
    optimizer.enable();
    assert_eq!(optimizer.enabled, Some(true));
    optimizer.disable();
    assert_eq!(optimizer, Optimizer { enabled: None, runs: Some(5), details: None });
}
