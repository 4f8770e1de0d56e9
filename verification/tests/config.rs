use gong_cli::config::{
    default_overlap_days, missing_file_reads_empty, required, CliSettings, Config, ConfigError,
    FileConfig, SyncConfig,
};
use std::path::PathBuf;

fn file() -> FileConfig {
    FileConfig {
        access_key: Some("file-key".to_owned()),
        access_key_secret: Some("file-secret".to_owned()),
        base_url: Some("https://file.example//".to_owned()),
        output_dir: Some(PathBuf::from("/file/output")),
        status_file: Some(PathBuf::from("/file/status")),
        sync: SyncConfig::default_settings(),
    }
}

fn no_flags() -> CliSettings {
    CliSettings { access_key: None, access_key_secret: None, base_url: None, output_dir: None }
}

#[test]
fn the_file_supplies_every_setting_when_nothing_overrides_it() {
    let config = Config::resolve(no_flags(), file()).unwrap();
    assert_eq!(config.access_key, "file-key");
    assert_eq!(config.access_key_secret, "file-secret");
    assert_eq!(config.base_url, "https://file.example");
    assert_eq!(config.output_dir, PathBuf::from("/file/output"));
    assert_eq!(config.status_file, Some(PathBuf::from("/file/status")));
    assert_eq!(config.overlap_days, 3);
}

#[test]
fn flags_and_environment_override_every_file_setting() {
    let cli = CliSettings {
        access_key: Some("env-key".to_owned()),
        access_key_secret: Some("env-secret".to_owned()),
        base_url: Some("http://127.0.0.1:1".to_owned()),
        output_dir: Some(PathBuf::from("environment-output")),
    };
    let config = Config::resolve(cli, file()).unwrap();
    assert_eq!(config.access_key, "env-key");
    assert_eq!(config.access_key_secret, "env-secret");
    assert_eq!(config.base_url, "http://127.0.0.1:1");
    assert_eq!(config.output_dir, PathBuf::from("environment-output"));
}

#[test]
fn missing_secret_names_the_setting_and_each_way_to_fix_it() {
    let mut f = file();
    f.access_key_secret = Some("   ".to_owned());
    let error = Config::resolve(no_flags(), f).unwrap_err();
    assert_eq!(error, ConfigError::MissingAccessKeySecret);
    let message = error.message();
    assert!(message.contains("missing setting access_key_secret"));
    assert!(message.contains("GONG_ACCESS_KEY_SECRET"));
    assert!(message.contains("--access-key-secret"));
}

#[test]
fn the_first_missing_setting_is_reported() {
    let empty = FileConfig {
        access_key: None,
        access_key_secret: None,
        base_url: None,
        output_dir: None,
        status_file: None,
        sync: SyncConfig { overlap_days: 5 },
    };
    assert_eq!(Config::resolve(no_flags(), empty).unwrap_err(), ConfigError::MissingAccessKey);
    let mut f = file();
    f.output_dir = None;
    let error = Config::resolve(no_flags(), f).unwrap_err();
    assert_eq!(error, ConfigError::MissingOutputDir);
    assert_eq!(
        error.message(),
        "missing setting output_dir; set it in the config file, GONG_OUTPUT_DIR, or --output-dir"
    );
    let mut g = file();
    g.base_url = None;
    assert_eq!(Config::resolve(no_flags(), g).unwrap_err().setting(), "base_url");
}

#[test]
fn settings_and_defaults() {
    assert_eq!(default_overlap_days(), 3);
    assert_eq!(required(Some(" x ".to_owned())), Some(" x ".to_owned()));
    assert_eq!(required(Some(" \t".to_owned())), None);
    assert_eq!(required(None), None);
    assert!(missing_file_reads_empty(false, false));
    assert!(!missing_file_reads_empty(true, false));
    assert!(!missing_file_reads_empty(false, true));
}
