use vstd::prelude::*;

verus! {

/// `std::path::PathBuf`, a path on the machine the compiler runs on. The library only carries
/// such paths; Verus sees nothing inside one, and nothing is claimed of it.
#[verifier::external_type_specification]
#[verifier::external_body]
pub struct ExPathBuf(std::path::PathBuf);

/// Where the compiler looks for literals and the schema, and where it writes artifacts.
#[derive(Debug)]
pub struct CompilerConfig {
    /// The folder where the compiler should look for Isograph literals
    pub project_root: std::path::PathBuf,
    /// The folder where the compiler should create artifacts
    pub artifact_directory: std::path::PathBuf,
    /// The absolute path to the GraphQL schema
    pub schema: std::path::PathBuf,
    /// The absolute path to the schema extensions
    pub schema_extensions: Vec<std::path::PathBuf>,
    /// Various options that are of lesser importance
    pub options: ConfigOptions,
}

/// Options of lesser importance.
#[derive(Debug, Clone, Copy, PartialEq, Eq, Structural)]
pub struct ConfigOptions {
    pub on_invalid_id_type: OptionalValidationLevel,
}

impl Default for ConfigOptions {
    fn default() -> (r: Self)
        ensures
            r.on_invalid_id_type == OptionalValidationLevel::Ignore,
    {
        ConfigOptions { on_invalid_id_type: OptionalValidationLevel::Ignore }
    }
}

/// How seriously a failed optional validation is taken.
#[derive(Debug, Clone, Copy, PartialEq, Eq, Structural)]
pub enum OptionalValidationLevel {
    /// If this validation error is encountered, it will be ignored
    Ignore,
    /// If this validation error is encountered, a warning will be issued
    Warn,
    /// If this validation error is encountered, the compilation will fail
    Error,
}

impl Default for OptionalValidationLevel {
    fn default() -> (r: Self)
        ensures
            r == OptionalValidationLevel::Ignore,
    {
        OptionalValidationLevel::Ignore
    }
}

/// What a failed optional validation leads to: nothing, a warning and then success, or a
/// failure carrying the error.
#[derive(Debug, Clone, Copy, PartialEq, Eq, Structural)]
pub enum ValidationFailureAction {
    Continue,
    WarnAndContinue,
    Fail,
}

impl OptionalValidationLevel {
    /// What a failed validation at this level leads to.
    pub fn on_failure(self) -> (r: ValidationFailureAction)
        ensures
            self == OptionalValidationLevel::Ignore ==> r == ValidationFailureAction::Continue,
            self == OptionalValidationLevel::Warn ==> r == ValidationFailureAction::WarnAndContinue,
            self == OptionalValidationLevel::Error ==> r == ValidationFailureAction::Fail,
    {
        match self {
            OptionalValidationLevel::Ignore => ValidationFailureAction::Continue,
            OptionalValidationLevel::Warn => ValidationFailureAction::WarnAndContinue,
            OptionalValidationLevel::Error => ValidationFailureAction::Fail,
        }
    }
}

} // verus!
