use rmdigest::config::{default_annot, default_backend, default_digest};
use rmdigest::config::{Config, ConfigError, Deploy, Output};

fn config(paths: Vec<String>) -> Config {
    Config {
        device: "x".into(),
        watched_paths: paths,
        deploy: Default::default(),
        output: Default::default(),
    }
}

#[test]
fn parses_minimal() {
    let text = r#"
device = "paper-pro-move"
watched_paths = ["/Books", "/Documents"]
"#;
    let table: toml::Table = toml::from_str(text).unwrap();
    let paths: Vec<String> = table["watched_paths"]
        .as_array()
        .unwrap()
        .iter()
        .map(|p| p.as_str().unwrap().to_string())
        .collect();
    assert!(table.get("deploy").is_none());
    assert!(table.get("output").is_none());
    let c = Config {
        device: table["device"].as_str().unwrap().to_string(),
        watched_paths: paths,
        deploy: Deploy::default(),
        output: Output::default(),
    };
    c.validate().unwrap();
    assert_eq!(c.deploy.backend, "rmapi");
    assert_eq!(c.output.annotated_suffix, " — Annotated");
}

#[test]
fn rejects_empty_paths() {
    let c = Config {
        device: "x".into(),
        watched_paths: vec![],
        deploy: Default::default(),
        output: Default::default(),
    };
    assert!(c.validate().is_err());
}

#[test]
fn rejects_bad_backend() {
    let mut c = Config {
        device: "x".into(),
        watched_paths: vec!["/Books".into()],
        deploy: Default::default(),
        output: Default::default(),
    };
    c.deploy.backend = "ftp".into();
    assert!(c.validate().is_err());
}

#[test]
fn rejects_equal_suffixes() {
    let mut c = Config {
        device: "x".into(),
        watched_paths: vec!["/Books".into()],
        deploy: Default::default(),
        output: Default::default(),
    };
    c.output.digest_suffix = c.output.annotated_suffix.clone();
    assert!(c.validate().is_err());
}

#[test]
fn defaults_are_accepted() {
    assert_eq!(default_backend(), "rmapi");
    assert_eq!(default_annot(), " — Annotated");
    assert_eq!(default_digest(), " — Digest");
    assert_eq!(config(vec!["/Books".into()]).validate(), Ok(()));
}

#[test]
fn none_is_a_backend() {
    let mut c = config(vec!["/Books".into()]);
    c.deploy.backend = "none".into();
    assert_eq!(c.validate(), Ok(()));
}

#[test]
fn faults_are_told_in_their_order() {
    let mut c = config(vec![]);
    c.deploy.backend = "ftp".into();
    c.output.digest_suffix = c.output.annotated_suffix.clone();
    let e = c.validate().unwrap_err();
    assert_eq!(e, ConfigError::NoPaths);
    assert_eq!(e.message(), "watched_paths must not be empty");
    c.watched_paths.push("/Books".into());
    let e = c.validate().unwrap_err();
    assert_eq!(e, ConfigError::BadBackend);
    assert_eq!(e.message(), "deploy.backend must be \"rmapi\" or \"none\"");
    c.deploy.backend = "none".into();
    let e = c.validate().unwrap_err();
    assert_eq!(e, ConfigError::SameSuffix);
    assert_eq!(e.message(), "annotated_suffix and digest_suffix must differ");
}
