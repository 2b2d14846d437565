//! The configuration: which folders are watched, where the results go and how they
//! are named.

use crate::text::same_text;
use vstd::prelude::*;
use vstd::string::*;

verus! {

/// The configuration.
#[derive(Debug, Clone)]
pub struct Config {
    /// The device that the digests are made for.
    pub device: String,
    /// The folders of the cloud whose documents are digested.
    pub watched_paths: Vec<String>,
    pub deploy: Deploy,
    pub output: Output,
}

/// Where the results go.
#[derive(Debug, Clone)]
pub struct Deploy {
    /// Either "rmapi" or "none".
    pub backend: String,
}

/// How the results are named: as their document, with a suffix.
#[derive(Debug, Clone)]
pub struct Output {
    pub annotated_suffix: String,
    pub digest_suffix: String,
}

impl Default for Deploy {
    fn default() -> (r: Self)
        ensures
            r.backend@ == "rmapi"@,
    {
        Deploy { backend: default_backend() }
    }
}

impl Default for Output {
    fn default() -> (r: Self)
        ensures
            r.annotated_suffix@ == " — Annotated"@,
            r.digest_suffix@ == " — Digest"@,
    {
        Output { annotated_suffix: default_annot(), digest_suffix: default_digest() }
    }
}

/// The backend where none is given.
pub fn default_backend() -> (r: String)
    ensures
        r@ == "rmapi"@,
{
    "rmapi".to_owned()
}

/// The suffix of an annotated document where none is given.
pub fn default_annot() -> (r: String)
    ensures
        r@ == " — Annotated"@,
{
    " — Annotated".to_owned()
}

/// The suffix of a digest where none is given.
pub fn default_digest() -> (r: String)
    ensures
        r@ == " — Digest"@,
{
    " — Digest".to_owned()
}

/// What is wrong with a configuration.
#[derive(Debug, Clone, Copy, PartialEq, Eq, Structural)]
pub enum ConfigError {
    /// No folder is watched.
    NoPaths,
    /// The backend is neither of the two.
    BadBackend,
    /// An annotated document and a digest would have the same name.
    SameSuffix,
}

impl ConfigError {
    /// The sentence that tells what is wrong.
    pub fn message(&self) -> (r: &'static str)
        ensures
            r@ == match self {
                ConfigError::NoPaths => "watched_paths must not be empty"@,
                ConfigError::BadBackend => "deploy.backend must be \"rmapi\" or \"none\""@,
                ConfigError::SameSuffix => "annotated_suffix and digest_suffix must differ"@,
            },
    {
        match self {
            ConfigError::NoPaths => "watched_paths must not be empty",
            ConfigError::BadBackend => "deploy.backend must be \"rmapi\" or \"none\"",
            ConfigError::SameSuffix => "annotated_suffix and digest_suffix must differ",
        }
    }
}

impl Config {
    /// The first thing that is wrong with the configuration.
    pub open spec fn fault(&self) -> Option<ConfigError> {
        if self.watched_paths@.len() == 0 {
            Some(ConfigError::NoPaths)
        } else if self.deploy.backend@ != "rmapi"@ && self.deploy.backend@ != "none"@ {
            Some(ConfigError::BadBackend)
        } else if self.output.annotated_suffix@ == self.output.digest_suffix@ {
            Some(ConfigError::SameSuffix)
        } else {
            None
        }
    }

    /// Tells the first thing that is wrong with the configuration.
    pub fn validate(&self) -> (r: Result<(), ConfigError>)
        ensures
            match r {
                Ok(_) => self.fault() is None,
                Err(e) => self.fault() == Some(e),
            },
    {
        if self.watched_paths.len() == 0 {
            return Err(ConfigError::NoPaths);
        }
        let backend = self.deploy.backend.as_str();
        if !same_text(backend, "rmapi") && !same_text(backend, "none") {
            return Err(ConfigError::BadBackend);
        }
        if same_text(self.output.annotated_suffix.as_str(), self.output.digest_suffix.as_str()) {
            return Err(ConfigError::SameSuffix);
        }
        Ok(())
    }
}

/// The defaults are in order: a configuration that watches a folder and leaves the
/// rest out is accepted.
pub proof fn defaults_are_valid(config: Config)
    requires
        config.watched_paths@.len() > 0,
        config.deploy.backend@ == "rmapi"@,
        config.output.annotated_suffix@ == " — Annotated"@,
        config.output.digest_suffix@ == " — Digest"@,
    ensures
        config.fault() is None,
{
    reveal_strlit(" — Annotated");
    reveal_strlit(" — Digest");
    assert(" — Annotated"@.len() != " — Digest"@.len());
}

} // verus!
