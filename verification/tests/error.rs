use solc_artifacts::error::{Colour, Error, Severity, SeverityError, SourceLocation};
use std::str::FromStr;

fn message(severity: Severity, formatted: Option<&str>) -> Error {
    Error {
        source_location: Some(SourceLocation {
            file: "/Users/src/utils/UpgradeProxy.sol".to_string(),
            start: 1617,
            end: 1623,
        }),
        secondary_source_locations: vec![],
        error_type: "DeclarationError".to_string(),
        component: "general".to_string(),
        severity,
        error_code: Some(7576),
        message: "Undeclared identifier. Did you mean \"revert\"?".to_string(),
        formatted_message: formatted.map(|text| text.to_string()),
    }
}

#[test]
fn severities_read_back() {
    for (severity, word, label) in
        [(Severity::Error, "error", "Error"), (Severity::Warning, "warning", "Warning"), (Severity::Info, "info", "Info")]
    {
        assert_eq!(severity.as_str(), word);
        assert_eq!(severity.to_string(), label);
        assert_eq!(Severity::from_str(word), Ok(severity.clone()));
        assert_eq!(severity.is_error(), word == "error");
        assert_eq!(severity.is_warning(), word == "warning");
        assert_eq!(severity.is_info(), word == "info");
    }
    assert_eq!(Severity::from_str("Error"), Err("Invalid severity: Error".to_string()));
    assert_eq!(Severity::from_str(""), Err("Invalid severity: ".to_string()));
}

#[test]
fn unformatted_messages_show_the_severity() {
    assert_eq!(
        message(Severity::Error, None).to_string(),
        "Error: Undeclared identifier. Did you mean \"revert\"?\n"
    );
    assert_eq!(
        message(Severity::Warning, None).to_string(),
        "Warning: Undeclared identifier. Did you mean \"revert\"?\n"
    );
}

#[test]
fn formatted_messages_are_coloured_where_colours_are_on() {
    colored::control::set_override(true);
    assert_eq!(message(Severity::Error, Some("oops")).to_string(), "\u{1b}[31moops\u{1b}[0m");
    assert_eq!(message(Severity::Warning, Some("hm")).to_string(), "\u{1b}[33mhm\u{1b}[0m");
    assert_eq!(message(Severity::Info, Some("so")).to_string(), "\u{1b}[33mso\u{1b}[0m");
    let ended = message(Severity::Error, Some("a\u{1b}[0mb")).to_string();
    assert_eq!(ended, "\u{1b}[31ma\u{1b}[0m\u{1b}[31mb\u{1b}[0m");
    let twice = message(Severity::Warning, Some("\u{1b}[0m\u{1b}[0m[0m")).to_string();
    assert_eq!(twice, "\u{1b}[33m\u{1b}[0m\u{1b}[33m\u{1b}[0m\u{1b}[33m[0m\u{1b}[0m");
    colored::control::set_override(false);
    assert_eq!(message(Severity::Error, Some("oops")).to_string(), "oops");
    assert_eq!(message(Severity::Info, Some("so")).to_string(), "so");
}

#[test]
fn severities_are_read_from_json_strings() {
    for severity in [Severity::Error, Severity::Warning, Severity::Info] {
        let value = serde_json::Value::String(severity.as_str().to_string());
        assert_eq!(Severity::from_value(&value), Ok(severity));
    }
    let unknown = serde_json::Value::String("fatal".to_string());
    assert_eq!(Severity::from_value(&unknown), Err(SeverityError::Unknown("Invalid severity: fatal".to_string())));
    for value in [serde_json::Value::Null, serde_json::Value::Bool(true), serde_json::Value::from(1)] {
        assert_eq!(Severity::from_value(&value), Err(SeverityError::NotText));
    }
    let list = serde_json::Value::Array(vec![serde_json::Value::String("error".to_string())]);
    assert_eq!(Severity::from_value(&list), Err(SeverityError::NotText));
}

#[test]
fn errors_are_red_and_all_else_is_yellow() {
    assert_eq!(Severity::Error.colour(), Colour::Red);
    assert_eq!(Severity::Warning.colour(), Colour::Yellow);
    assert_eq!(Severity::Info.colour(), Colour::Yellow);
}
