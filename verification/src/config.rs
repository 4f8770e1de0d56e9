//! Settings: each core setting comes from a flag, an environment variable or
//! the config file, in that order of precedence.
use vstd::prelude::*;
use crate::text::{chars_of, push_str, string_from_chars, trim};

verus! {

#[verifier::external_type_specification]
#[verifier::external_body]
pub struct ExPathBuf(std::path::PathBuf);

/// The resolved configuration.
#[derive(Debug)]
pub struct Config {
    pub access_key: String,
    pub access_key_secret: String,
    pub base_url: String,
    pub output_dir: std::path::PathBuf,
    pub status_file: Option<std::path::PathBuf>,
    pub overlap_days: u64,
}

/// The `[sync]` table of the config file.
#[derive(Debug, Clone, Copy)]
pub struct SyncConfig {
    pub overlap_days: u64,
}

/// The config file's settings, each absent unless the file sets it.
#[derive(Debug)]
pub struct FileConfig {
    pub access_key: Option<String>,
    pub access_key_secret: Option<String>,
    pub base_url: Option<String>,
    pub output_dir: Option<std::path::PathBuf>,
    pub status_file: Option<std::path::PathBuf>,
    pub sync: SyncConfig,
}

/// The settings given as flags or environment variables (a flag wins over
/// its environment variable before they reach here).
#[derive(Debug)]
pub struct CliSettings {
    pub access_key: Option<String>,
    pub access_key_secret: Option<String>,
    pub base_url: Option<String>,
    pub output_dir: Option<std::path::PathBuf>,
}

/// A required setting that no source provides.
#[derive(Debug, Clone, Copy, PartialEq, Eq, Structural)]
pub enum ConfigError {
    MissingAccessKey,
    MissingAccessKeySecret,
    MissingBaseUrl,
    MissingOutputDir,
}

/// The Overlap Window when the config file does not set one: 3 days.
pub fn default_overlap_days() -> (r: u64)
    ensures
        r == 3,
{
    3
}

impl SyncConfig {
    /// The `[sync]` table when the file has none.
    pub fn default_settings() -> (r: SyncConfig)
        ensures
            r.overlap_days == 3,
    {
        SyncConfig { overlap_days: default_overlap_days() }
    }
}

/// Whether a config file that does not exist reads as empty: only at the
/// default path, and only for commands that do not require the file.
pub fn missing_file_reads_empty(explicit_path: bool, require_file: bool) -> (r: bool)
    ensures
        r == (!explicit_path && !require_file),
{
    !explicit_path && !require_file
}

/// The flag or environment value when there is one, else the file's.
pub open spec fn first_of(cli: Option<String>, file: Option<String>) -> Option<String> {
    match cli {
        Some(v) => Some(v),
        None => file,
    }
}

/// A setting is present when its chosen value has a non-blank text.
pub open spec fn present(v: Option<String>) -> bool {
    v matches Some(s) && trim(s@).len() > 0
}

/// Drops every trailing `/`.
pub open spec fn trim_trailing_slashes(s: Seq<char>) -> Seq<char>
    decreases s.len(),
{
    if s.len() > 0 && s.last() == '/' {
        trim_trailing_slashes(s.drop_last())
    } else {
        s
    }
}

/// `required`: the value when it is present.
pub fn required(value: Option<String>) -> (r: Option<String>)
    ensures
        present(value) ==> r == value,
        !present(value) ==> r is None,
{
    match value {
        Some(v) => {
            let t = crate::text::trim_str(v.as_str());
            if t.as_str().is_empty() {
                None
            } else {
                Some(v)
            }
        },
        None => None,
    }
}

fn pick(cli: Option<String>, file: Option<String>) -> (r: Option<String>)
    ensures
        r == first_of(cli, file),
{
    match cli {
        Some(v) => Some(v),
        None => file,
    }
}

fn strip_trailing_slashes(s: &str) -> (r: String)
    ensures
        r@ == trim_trailing_slashes(s@),
{
    let chars = chars_of(s);
    let mut k: usize = chars.len();
    assert(chars@.take(k as int) =~= chars@);
    while k > 0 && chars[k - 1] == '/'
        invariant
            k <= chars.len(),
            trim_trailing_slashes(chars@) == trim_trailing_slashes(chars@.take(k as int)),
        decreases k,
    {
        assert(chars@.take(k as int).drop_last() =~= chars@.take(k as int - 1));
        k = k - 1;
    }
    let mut r: Vec<char> = Vec::new();
    let mut i: usize = 0;
    while i < k
        invariant
            i <= k <= chars.len(),
            r@ == chars@.take(i as int),
        decreases k - i,
    {
        r.push(chars[i]);
        assert(chars@.take(i as int + 1) =~= chars@.take(i as int).push(chars@[i as int]));
        i = i + 1;
    }
    string_from_chars(&r)
}

impl Config {
    /// Resolves the configuration (the decisions of `load`): each of
    /// `access_key`, `access_key_secret` and `base_url` is the flag or
    /// environment value when there is one, else the file's, and must not be
    /// blank; `output_dir` likewise must be given somewhere.  The base URL
    /// loses its trailing slashes.  `status_file` and the Overlap Window come
    /// from the file.  The first missing setting, in that order, is the error.
    pub fn resolve(cli: CliSettings, file: FileConfig) -> (r: Result<Config, ConfigError>)
        ensures
            match r {
                Ok(c) => {
                    &&& present(first_of(cli.access_key, file.access_key))
                    &&& present(first_of(cli.access_key_secret, file.access_key_secret))
                    &&& present(first_of(cli.base_url, file.base_url))
                    &&& Some(c.access_key) == first_of(cli.access_key, file.access_key)
                    &&& Some(c.access_key_secret) == first_of(
                        cli.access_key_secret,
                        file.access_key_secret,
                    )
                    &&& c.base_url@ == trim_trailing_slashes(
                        first_of(cli.base_url, file.base_url).unwrap()@,
                    )
                    &&& c.output_dir == match cli.output_dir {
                        Some(d) => d,
                        None => file.output_dir.unwrap(),
                    }
                    &&& (cli.output_dir is Some || file.output_dir is Some)
                    &&& c.status_file == file.status_file
                    &&& c.overlap_days == file.sync.overlap_days
                },
                Err(ConfigError::MissingAccessKey) => !present(
                    first_of(cli.access_key, file.access_key),
                ),
                Err(ConfigError::MissingAccessKeySecret) => present(
                    first_of(cli.access_key, file.access_key),
                ) && !present(first_of(cli.access_key_secret, file.access_key_secret)),
                Err(ConfigError::MissingBaseUrl) => present(first_of(cli.access_key, file.access_key))
                    && present(first_of(cli.access_key_secret, file.access_key_secret)) && !present(
                    first_of(cli.base_url, file.base_url),
                ),
                Err(ConfigError::MissingOutputDir) => present(
                    first_of(cli.access_key, file.access_key),
                ) && present(first_of(cli.access_key_secret, file.access_key_secret)) && present(
                    first_of(cli.base_url, file.base_url),
                ) && cli.output_dir is None && file.output_dir is None,
            },
    {
        let access_key = match required(pick(cli.access_key, file.access_key)) {
            Some(v) => v,
            None => return Err(ConfigError::MissingAccessKey),
        };
        let access_key_secret = match required(pick(cli.access_key_secret, file.access_key_secret)) {
            Some(v) => v,
            None => return Err(ConfigError::MissingAccessKeySecret),
        };
        let base_url = match required(pick(cli.base_url, file.base_url)) {
            Some(v) => v,
            None => return Err(ConfigError::MissingBaseUrl),
        };
        let output_dir = match cli.output_dir {
            Some(d) => d,
            None => match file.output_dir {
                Some(d) => d,
                None => return Err(ConfigError::MissingOutputDir),
            },
        };
        Ok(
            Config {
                access_key,
                access_key_secret,
                base_url: strip_trailing_slashes(base_url.as_str()),
                output_dir,
                status_file: file.status_file,
                overlap_days: file.sync.overlap_days,
            },
        )
    }
}

/// `missing setting <name>; <how to set it>`.
pub open spec fn missing_message(name: Seq<char>, help: Seq<char>) -> Seq<char> {
    "missing setting "@ + name + "; "@ + help
}

impl ConfigError {
    /// The setting's name.
    pub fn setting(&self) -> (r: &'static str)
        ensures
            *self == ConfigError::MissingAccessKey ==> r@ == "access_key"@,
            *self == ConfigError::MissingAccessKeySecret ==> r@ == "access_key_secret"@,
            *self == ConfigError::MissingBaseUrl ==> r@ == "base_url"@,
            *self == ConfigError::MissingOutputDir ==> r@ == "output_dir"@,
    {
        match self {
            ConfigError::MissingAccessKey => "access_key",
            ConfigError::MissingAccessKeySecret => "access_key_secret",
            ConfigError::MissingBaseUrl => "base_url",
            ConfigError::MissingOutputDir => "output_dir",
        }
    }

    /// How to provide the setting.
    pub fn help(&self) -> (r: &'static str)
        ensures
            *self == ConfigError::MissingAccessKey ==> r@
                == "set access_key in the config file, GONG_ACCESS_KEY, or --access-key"@,
            *self == ConfigError::MissingAccessKeySecret ==> r@
                == "set access_key_secret in the config file, GONG_ACCESS_KEY_SECRET, or --access-key-secret"@,
            *self == ConfigError::MissingBaseUrl ==> r@
                == "set base_url in the config file, GONG_BASE_URL, or --base-url"@,
            *self == ConfigError::MissingOutputDir ==> r@
                == "set it in the config file, GONG_OUTPUT_DIR, or --output-dir"@,
    {
        match self {
            ConfigError::MissingAccessKey => "set access_key in the config file, GONG_ACCESS_KEY, or --access-key",
            ConfigError::MissingAccessKeySecret => "set access_key_secret in the config file, GONG_ACCESS_KEY_SECRET, or --access-key-secret",
            ConfigError::MissingBaseUrl => "set base_url in the config file, GONG_BASE_URL, or --base-url",
            ConfigError::MissingOutputDir => "set it in the config file, GONG_OUTPUT_DIR, or --output-dir",
        }
    }

    /// `missing setting <name>; <how to set it>`.
    pub fn message(&self) -> (r: String)
        ensures
            r@ == missing_message(self.setting_spec(), self.help_spec()),
    {
        let mut m = String::new();
        push_str(&mut m, "missing setting ");
        push_str(&mut m, self.setting());
        push_str(&mut m, "; ");
        push_str(&mut m, self.help());
        m
    }

    pub open spec fn setting_spec(&self) -> Seq<char> {
        match self {
            ConfigError::MissingAccessKey => "access_key"@,
            ConfigError::MissingAccessKeySecret => "access_key_secret"@,
            ConfigError::MissingBaseUrl => "base_url"@,
            ConfigError::MissingOutputDir => "output_dir"@,
        }
    }

    pub open spec fn help_spec(&self) -> Seq<char> {
        match self {
            ConfigError::MissingAccessKey => "set access_key in the config file, GONG_ACCESS_KEY, or --access-key"@,
            ConfigError::MissingAccessKeySecret => "set access_key_secret in the config file, GONG_ACCESS_KEY_SECRET, or --access-key-secret"@,
            ConfigError::MissingBaseUrl => "set base_url in the config file, GONG_BASE_URL, or --base-url"@,
            ConfigError::MissingOutputDir => "set it in the config file, GONG_OUTPUT_DIR, or --output-dir"@,
        }
    }
}

} // verus!
