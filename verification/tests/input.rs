use solc_artifacts::evm_version::EvmVersion;
use solc_artifacts::input::CompilerInput;
use solc_artifacts::ord_map::OrdMap;
use solc_artifacts::path::SourcePath;
use solc_artifacts::settings::{Remapping, Settings};
use solc_artifacts::source::{Source, Sources};
use solc_artifacts::version::Version;

fn sources(paths: &[&str]) -> Sources {
    let mut sources = OrdMap::new();
    for path in paths {
        sources.insert(SourcePath::new(path), Source { content: format!("content of {}", path) });
    }
    sources
}

fn input() -> CompilerInput {
    CompilerInput::with_sources(sources(&["a.sol"])).pop().unwrap()
}

#[test]
fn mixed_sources_make_two_inputs() {
    let inputs = CompilerInput::with_sources(sources(&["b.yul", "src/a.sol", "readme", ".yul", "x.yul/c.sol"]));
    assert_eq!(inputs.len(), 2);
    assert_eq!(inputs[0].language, "Solidity");
    assert_eq!(inputs[0].sources, sources(&[".yul", "readme", "src/a.sol", "x.yul/c.sol"]));
    assert_eq!(inputs[0].settings, Settings::default());
    assert_eq!(inputs[1].language, "Yul");
    assert_eq!(inputs[1].sources, sources(&["b.yul"]));
    assert_eq!(inputs[1].settings, Settings::default());
}

#[test]
fn sources_in_one_language_make_one_input() {
    let inputs = CompilerInput::with_sources(sources(&["a.sol", "b.sol"]));
    assert_eq!(inputs.len(), 1);
    assert_eq!(inputs[0].language, "Solidity");
    assert_eq!(inputs[0].sources, sources(&["a.sol", "b.sol"]));
    let inputs = CompilerInput::with_sources(sources(&["a.yul"]));
    assert_eq!(inputs.len(), 1);
    assert_eq!(inputs[0].language, "Yul");
}

#[test]
fn no_sources_make_no_input() {
    assert!(CompilerInput::with_sources(sources(&[])).is_empty());
}

#[test]
fn inputs_are_made_of_what_was_read() {
    let inputs = CompilerInput::new::<String>(Ok(sources(&["a.sol"]))).unwrap();
    assert_eq!(inputs.len(), 1);
    assert_eq!(inputs[0].sources, sources(&["a.sol"]));
    assert_eq!(CompilerInput::new(Err("gone".to_string())).err(), Some("gone".to_string()));
}

#[test]
fn parts_of_an_input_are_set() {
    let changed = input().settings(Settings::default().with_via_ir());
    assert_eq!(changed.settings.via_ir, Some(true));
    assert_eq!(changed.sources, input().sources);
    assert_eq!(input().evm_version(EvmVersion::Berlin).settings.evm_version, Some(EvmVersion::Berlin));
    assert_eq!(input().optimizer(7).settings.optimizer.runs, Some(7));
    let remappings = vec![Remapping { name: "@oz".to_string(), path: "lib/oz".to_string() }];
    assert_eq!(input().with_remappings(remappings.clone()).settings.remappings, remappings);
}

#[test]
fn evm_version_of_an_input_is_normalized() {
    let normalized = input().normalize_evm_version(&Version::new(0, 5, 6));
    assert_eq!(normalized.settings.evm_version, Some(EvmVersion::Petersburg));
    assert_eq!(input().normalize_evm_version(&Version::new(0, 4, 20)).settings.evm_version, None);
    let mut unset = input();
    unset.settings.evm_version = None;
    assert_eq!(unset.normalize_evm_version(&Version::new(0, 8, 7)).settings.evm_version, None);
}
