use serde_json::Value;
use solc_artifacts::abi_type::check_type_name;
use solc_artifacts::contract::{
    Bytecode, BytecodeObject, CompactBytecode, CompactDeployedBytecode, CompactEvm, DeployedBytecode, Evm, LosslessAbi,
    Offsets, Storage, StorageLayout, StorageType,
};
use solc_artifacts::ord_map::OrdMap;

fn code(byte: u8) -> Bytecode {
    let mut names = OrdMap::new();
    names.insert("L".to_string(), vec![Offsets { start: 1, length: 20 }]);
    let mut link_references = OrdMap::new();
    link_references.insert("lib2.sol".to_string(), names);
    Bytecode {
        function_debug_data: OrdMap::new(),
        object: BytecodeObject::Bytecode(vec![byte]),
        opcodes: Some("STOP".to_string()),
        source_map: Some("1:2:3".to_string()),
        generated_sources: vec![],
        link_references,
    }
}

fn deployed(byte: u8) -> DeployedBytecode {
    let mut immutable_references = OrdMap::new();
    immutable_references.insert("7".to_string(), vec![Offsets { start: 3, length: 32 }]);
    DeployedBytecode { bytecode: Some(code(byte)), immutable_references }
}

fn compact(byte: u8) -> CompactBytecode {
    CompactBytecode {
        object: BytecodeObject::Bytecode(vec![byte]),
        source_map: Some("1:2:3".to_string()),
        link_references: code(byte).link_references,
    }
}

fn evm(bytecode: Option<Bytecode>, deployed_bytecode: Option<DeployedBytecode>) -> Evm {
    let mut method_identifiers = OrdMap::new();
    method_identifiers.insert("f()".to_string(), "26121ff0".to_string());
    Evm {
        assembly: Some("asm".to_string()),
        legacy_assembly: Some(Value::Bool(true)),
        bytecode,
        deployed_bytecode,
        method_identifiers,
        gas_estimates: None,
    }
}

#[test]
fn evm_outputs_are_made_compact() {
    let compact_deployed = CompactDeployedBytecode {
        bytecode: Some(compact(2)),
        immutable_references: deployed(2).immutable_references,
    };
    for (created, runtime) in [(true, true), (true, false), (false, true), (false, false)] {
        let full = evm(created.then_some(code(1)), runtime.then_some(deployed(2)));
        let expected = CompactEvm {
            assembly: Some("asm".to_string()),
            legacy_assembly: Some(Value::Bool(true)),
            bytecode: created.then_some(compact(1)),
            deployed_bytecode: runtime.then_some(compact_deployed.clone()),
            method_identifiers: full.method_identifiers.clone(),
            gas_estimates: None,
        };
        assert_eq!(full.into_compact(), expected);
    }
    let none = DeployedBytecode { bytecode: None, immutable_references: OrdMap::new() };
    assert_eq!(CompactDeployedBytecode::from(none).bytecode, None);
}

#[test]
fn abis_are_written_as_they_were_read() {
    let text = r#"[{"type":"function","name":"f","inputs":[{"name":"s","type":"tuple","components":[{"name":"x","type":"uint256"}]}],"outputs":[],"stateMutability":"view"}]"#;
    let value: Value = serde_json::from_str(text).unwrap();
    let lossless = LosslessAbi::from_value(value.clone()).unwrap();
    assert_eq!(lossless.to_value(), &value);
    assert_eq!(LosslessAbi::from_value(lossless.to_value().clone()), Ok(lossless.clone()));
    assert!(serde_json::to_value(&lossless.abi).unwrap() != value);
    assert!(lossless.abi.functions.contains_key("f"));
    let abi = ethabi::Contract::from(lossless.clone());
    assert_eq!(abi, lossless.abi);
    assert_eq!(abi, serde_json::from_value::<ethabi::Contract>(value).unwrap());
}

#[test]
fn what_is_no_abi_is_refused() {
    let error = LosslessAbi::from_value(Value::Bool(true)).unwrap_err();
    let expected = serde_json::from_value::<ethabi::Contract>(Value::Bool(true)).unwrap_err().to_string();
    assert_eq!(error, expected);
    assert_eq!(LosslessAbi::from_parts(Value::Null, Err("no".to_string())), Err("no".to_string()));
    let parts = LosslessAbi::from_parts(Value::Null, Ok(ethabi::Contract::default())).unwrap();
    assert_eq!(parts, LosslessAbi::default());
}

#[test]
fn storage_layout_without_variables_and_types_is_empty() {
    assert!(StorageLayout::default().is_empty());
    let variable = Storage {
        ast_id: 1,
        contract: "C".to_string(),
        label: "x".to_string(),
        offset: 0,
        slot: "0".to_string(),
        storage_type: "t_uint256".to_string(),
    };
    assert!(!StorageLayout { storage: vec![variable], types: OrdMap::new() }.is_empty());
    let mut types = OrdMap::new();
    types.insert(
        "t_uint256".to_string(),
        StorageType { encoding: "inplace".to_string(), label: "uint256".to_string(), number_of_bytes: "32".to_string() },
    );
    assert!(!StorageLayout { storage: vec![], types }.is_empty());
}

fn json(text: &str) -> Value {
    serde_json::from_str(text).unwrap()
}

fn function(kind: &str, rest: &str) -> Value {
    json(&format!(
        r#"[{{"type":"function","name":"f","inputs":[{{"name":"x","type":"{}"{}}}],"outputs":[]}}]"#,
        kind, rest
    ))
}

fn is_refused(value: Value) -> bool {
    LosslessAbi::from_value(value) == Err("Invalid parameter type".to_string())
}

fn reads_as_ever(value: Value) -> bool {
    let expected = serde_json::from_value::<ethabi::Contract>(value.clone()).map_err(|error| error.to_string());
    LosslessAbi::from_value(value).map(|lossless| lossless.abi) == expected
}

#[test]
fn types_that_cannot_be_read_are_refused() {
    for kind in [
        "]", "5]", "+5]", "é[]", "é[3]", "(é,uint)", "(])", "(5],uint)", "(uint,5])", "((]),uint)", "5][]", "(a[é[]])", "(é)", "ééé[][]",
    ] {
        assert!(is_refused(function(kind, r#","components":[]"#)), "{}", kind);
    }
    for value in [
        r#"[{"type":"constructor","inputs":[{"name":"x","type":"]"}]}]"#,
        r#"[{"type":"event","name":"e","inputs":[{"name":"x","type":"]"}],"anonymous":false}]"#,
        r#"[{"type":"error","name":"e","inputs":[{"name":"x","type":"]"}]}]"#,
        r#"[{"type":"function","name":"f","inputs":[],"outputs":[{"name":"x","type":"]"}]}]"#,
        r#"[{"type":"fallback"},{"type":"function","name":"f","inputs":[],"outputs":[{"name":"x","type":"]"}]}]"#,
        r#"[["function","f",[{"name":"x","type":"]"}],[]]]"#,
        r#"[["event","e",[{"name":"x","type":"]"}],false]]"#,
    ] {
        assert!(is_refused(json(value)), "{}", value);
    }
    assert!(is_refused(function("tuple", r#","components":[{"name":"y","type":"]"}]"#)));
    assert!(is_refused(function(
        "tuple[]",
        r#","components":[{"name":"y","type":"tuple","components":[{"name":"z","type":"]"}]}]"#
    )));
}

#[test]
fn all_other_types_are_read() {
    for kind in [
        "uint256", "uint256[]", "bytes32[3][]", "Lib.Kind", "Lib.Kind[2]", "é", "", "]a", "x]", "x[y]", "[]", "[5]", "uintx",
        "(uint256,bool)", "(uint256,bool)[]", "((uint256,bool)[2],address[])", "()", "(a]b,uint)", "a)", "a)5]",
        "int[99999999999999999999]", "int[0000000000000000000000005]", "int+8", "int+", "uint18446744073709551616[]",
        "((uint,(bool,string[3])[])[],bytes)", "(a,,b)", "((((a))))", "((a)(b),c)", "(](bool),bool)", "(a)5],(b)", "(a)5]",
        "éé[]", "éé[2]", "éééé[][]", "éa[3]", "(éa)", "(aéa,uint)", "(é((bool)Y)", "(uintx,])", "(bytesx,é)", "(5][(bool))",
    ] {
        let value = function(kind, r#","components":[{"name":"y","type":"bool[]"}]"#);
        assert!(reads_as_ever(value), "{}", kind);
        assert!(reads_as_ever(function(kind, "")), "{}", kind);
    }
    for value in [
        "[]", "{}", "null", r#""x""#, "[null]", "[[]]", r#"[["fallback",[{"type":"]"}]]]"#,
        r#"[{"type":"fallback","inputs":[{"name":"x","type":"]"}]}]"#,
        r#"[{"type":"receive","stateMutability":"payable"}]"#,
        r#"[{"type":"error","name":"e","inputs":[],"outputs":[{"name":"x","type":"]"}]}]"#,
        r#"[{"type":"other","inputs":[{"name":"x","type":"]"}]}]"#,
        r#"[{"inputs":[{"name":"x","type":"]"}]}]"#,
        r#"[["function","f",[{"name":"x","type":"uint8[]"}],[],null,"view"]]"#,
        r#"[{"type":"function","name":"f","inputs":[{"name":"x","type":5}],"outputs":[]}]"#,
    ] {
        assert!(reads_as_ever(json(value)), "{}", value);
    }
}

#[test]
fn short_names_that_can_be_read_are_read() {
    let letters = ['(', ')', '[', ']', ',', '5', 'a', 'é'];
    let mut names = vec![String::new()];
    let mut longest = names.clone();
    for _ in 0..6 {
        longest = longest.iter().flat_map(|name| letters.iter().map(move |c| format!("{}{}", name, c))).collect();
        names.extend(longest.iter().cloned());
    }
    let mut refused = 0;
    for name in names {
        if check_type_name(&name) {
            let _ = ethabi::param_type::Reader::read(&name);
        } else {
            refused += 1;
        }
    }
    assert!(refused > 0);
}

#[test]
fn nesting_is_limited() {
    assert!(reads_as_ever(function(&format!("uint{}", "[]".repeat(511)), "")));
    assert!(is_refused(function(&format!("uint{}", "[]".repeat(512)), "")));

    let nested = |kind: &str, levels: usize| {
        let mut param = serde_json::Map::new();
        param.insert("name".to_string(), Value::from("x"));
        param.insert("type".to_string(), Value::from(kind));
        for _ in 0..levels {
            let mut outer = serde_json::Map::new();
            outer.insert("name".to_string(), Value::from("x"));
            outer.insert("type".to_string(), Value::from("tuple"));
            outer.insert("components".to_string(), Value::Array(vec![Value::Object(param)]));
            param = outer;
        }
        let mut entry = serde_json::Map::new();
        entry.insert("type".to_string(), Value::from("constructor"));
        entry.insert("inputs".to_string(), Value::Array(vec![Value::Object(param)]));
        Value::Array(vec![Value::Object(entry)])
    };
    assert!(reads_as_ever(nested("bool", 127)));
    assert!(reads_as_ever(nested(&format!("bool{}", "[]".repeat(511)), 127)));
    assert!(is_refused(nested("bool", 128)));
    assert!(serde_json::from_str::<Value>(&nested("bool", 61).to_string()).is_ok());
    assert!(serde_json::from_str::<Value>(&nested("bool", 62).to_string()).is_err());
}
