//! The global configuration for the application.

use vstd::prelude::*;

verus! {

/// The global configuration.
#[derive(Debug, Clone, PartialEq, Eq)]
pub struct StConfig {
    /// Personal access token used to talk to the remote review service.
    pub github_token: String,
}

/// Error type for [`StConfig`] operations.
#[derive(Debug, Clone, PartialEq, Eq)]
pub enum StConfigError {
    /// The configuration file could not be loaded; carries a description of
    /// the failure.
    FailedToLoad(String),
    /// A required field is missing; carries the field name.
    MissingField(String),
}

impl StConfig {
    /// Validates the configuration: the token must be non-empty.
    pub fn validate(&self) -> (r: Result<(), StConfigError>)
        ensures
            r is Ok <==> self.github_token@.len() > 0,
            r matches Err(e) ==> e matches StConfigError::MissingField(f) && f@ == "github_token"@,
    {
        if self.github_token.as_str().is_empty() {
            return Err(StConfigError::MissingField("github_token".to_owned()));
        }
        Ok(())
    }
}

} // verus!
