use solc_artifacts::evm_version::EvmVersion;
use solc_artifacts::version::Version;
use std::str::FromStr;

fn version(text: &str) -> Version {
    let parsed = semver::Version::from_str(text).unwrap();
    Version::with_prerelease(parsed.major, parsed.minor, parsed.patch, parsed.pre.as_str()).unwrap()
}

#[test]
fn test_evm_version_normalization() {
    for (solc_version, evm_version, expected) in &[
        // Ensure 0.4.21 it always returns None
        ("0.4.20", EvmVersion::Homestead, None),
        // Constantinople clipping
        ("0.4.21", EvmVersion::Homestead, Some(EvmVersion::Homestead)),
        ("0.4.21", EvmVersion::Constantinople, Some(EvmVersion::Constantinople)),
        ("0.4.21", EvmVersion::London, Some(EvmVersion::Constantinople)),
        // Petersburg
        ("0.5.5", EvmVersion::Homestead, Some(EvmVersion::Homestead)),
        ("0.5.5", EvmVersion::Petersburg, Some(EvmVersion::Petersburg)),
        ("0.5.5", EvmVersion::London, Some(EvmVersion::Petersburg)),
        // Istanbul
        ("0.5.14", EvmVersion::Homestead, Some(EvmVersion::Homestead)),
        ("0.5.14", EvmVersion::Istanbul, Some(EvmVersion::Istanbul)),
        ("0.5.14", EvmVersion::London, Some(EvmVersion::Istanbul)),
        // Berlin
        ("0.8.5", EvmVersion::Homestead, Some(EvmVersion::Homestead)),
        ("0.8.5", EvmVersion::Berlin, Some(EvmVersion::Berlin)),
        ("0.8.5", EvmVersion::London, Some(EvmVersion::Berlin)),
        // London
        ("0.8.7", EvmVersion::Homestead, Some(EvmVersion::Homestead)),
        ("0.8.7", EvmVersion::London, Some(EvmVersion::London)),
        ("0.8.7", EvmVersion::London, Some(EvmVersion::London)),
    ] {
        assert_eq!(&evm_version.normalize_version(&version(solc_version)), expected)
    }
}

const ALL: [EvmVersion; 9] = [
    EvmVersion::Homestead,
    EvmVersion::TangerineWhistle,
    EvmVersion::SpuriousDragon,
    EvmVersion::Byzantium,
    EvmVersion::Constantinople,
    EvmVersion::Petersburg,
    EvmVersion::Istanbul,
    EvmVersion::Berlin,
    EvmVersion::London,
];

#[test]
fn forks_are_ordered_from_oldest_to_newest() {
    for i in 0..ALL.len() {
        for j in 0..ALL.len() {
            assert_eq!(ALL[i] < ALL[j], i < j);
            assert_eq!(ALL[i] == ALL[j], i == j);
            assert_eq!(ALL[i].cmp(&ALL[j]), i.cmp(&j));
        }
    }
}

#[test]
fn pre_releases_come_before_their_release() {
    assert_eq!(EvmVersion::London.normalize_version(&version("0.8.7-alpha.1")), Some(EvmVersion::Berlin));
    assert_eq!(EvmVersion::London.normalize_version(&version("0.4.21-rc1")), None);
    assert_eq!(EvmVersion::London.normalize_version(&version("0.8.8-alpha")), Some(EvmVersion::London));
    assert_eq!(EvmVersion::London.normalize_version(&version("0.8.7+commit.e28d00a7")), Some(EvmVersion::London));
}

#[test]
fn comparison_agrees_with_semver() {
    let texts = [
        "0.4.20", "0.4.21-a", "0.4.21", "0.4.21+b", "0.5.4", "0.5.5-x.1", "0.5.5", "0.5.13", "0.8.4", "0.8.7-0", "0.8.7",
        "0.8.6+0", "1.0.0", "0.9.0", "0.3.99",
    ];
    for text in texts {
        for release in [(0, 4, 21), (0, 5, 5), (0, 5, 14), (0, 8, 5), (0, 8, 7)] {
            let expected =
                semver::Version::parse(text).unwrap() >= semver::Version::new(release.0, release.1, release.2);
            assert_eq!(version(text).at_least(release), expected, "{} {:?}", text, release);
        }
    }
}

#[test]
fn only_valid_pre_releases_make_versions() {
    for (pre, ok) in [
        ("", true),
        ("alpha", true),
        ("alpha.1", true),
        ("0", true),
        ("01", false),
        ("0a", true),
        ("a..b", false),
        (".a", false),
        ("a.", false),
        ("a_b", false),
        ("-", true),
        ("nightly.2022.6.1", true),
    ] {
        assert_eq!(Version::with_prerelease(0, 8, 7, pre).is_some(), ok, "{}", pre);
    }
    assert_eq!(Version::new(0, 8, 7), Version::with_prerelease(0, 8, 7, "").unwrap());
    assert_eq!(Version::new(0, 8, 7).clone(), Version::new(0, 8, 7));
}

#[test]
fn normalizing_twice_changes_nothing() {
    for text in ["0.4.21", "0.5.5", "0.5.14", "0.8.5", "0.8.7"] {
        for v in ALL {
            let once = v.normalize_version(&version(text)).unwrap();
            assert!(once <= v);
            assert_eq!(once.normalize_version(&version(text)), Some(once));
        }
    }
}

#[test]
fn names_read_back() {
    let names = [
        "homestead",
        "tangerineWhistle",
        "spuriousDragon",
        "byzantium",
        "constantinople",
        "petersburg",
        "istanbul",
        "berlin",
        "london",
    ];
    for i in 0..ALL.len() {
        assert_eq!(ALL[i].to_string(), names[i]);
        assert_eq!(EvmVersion::from_str(names[i]), Ok(ALL[i]));
    }
    assert_eq!(EvmVersion::from_str("paris"), Err("Unknown evm version: paris".to_string()));
    assert_eq!(EvmVersion::from_str("London"), Err("Unknown evm version: London".to_string()));
    assert_eq!(EvmVersion::from_str(""), Err("Unknown evm version: ".to_string()));
}

#[test]
fn default_fork_is_london() {
    assert_eq!(EvmVersion::default(), EvmVersion::London);
}
