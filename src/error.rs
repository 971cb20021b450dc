use vstd::prelude::*;

verus! {

/// Why a configuration could not be turned into rendered templates.
pub enum ConfigError {
    /// No colorscheme is named `default`.
    NoDefaultColorscheme,
    /// A template or an inherit list names a colorscheme that does not exist.
    UnknownColorscheme(String),
    /// The inherit graph has no valid order; one edge of a cycle is given.
    CyclicDependency { dependent: String, dependency: String },
    /// A rename names a color that is absent when the rename is applied.
    RenameSourceMissing(String),
    /// A template names a source file that the templates directory lacks.
    TemplateSourceMissing(String),
    /// The `settings` entry of a colorscheme is not a settings table.
    InvalidSettings,
    /// The entry with this key is not a color value.
    InvalidColor(String),
}

} // verus!
