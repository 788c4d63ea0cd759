//! The errors that loading and generating report.
use vstd::prelude::*;

verus! {

/// Why a variable declaration breaks an invariant of its kind.
#[derive(Debug, Clone, Copy, PartialEq, Eq, Structural)]
pub enum InvalidVariableError {
    /// A string variable declares both a pattern and choices.
    PatternWithChoices,
    /// An integer range is empty or reversed, or the default lies outside it.
    UnreasonableRange,
    /// A non-empty string default does not match the pattern.
    DefaultMismatchPattern,
    /// The choices are empty, or a non-empty default is not among them.
    DefaultOutsideChoices,
}

/// Why a declaration matches no variable shape.
#[derive(Debug, Clone, Copy, PartialEq, Eq, Structural)]
pub enum SchemaError {
    /// The declaration is not a table of fields.
    NotATable,
    /// The declaration has no `prompt` text.
    MissingPrompt,
    /// The `default` is missing, or of a type no shape takes.
    NoShape,
    /// A field carries a value of the wrong type for the shape.
    WrongType,
    /// A field that the shape does not have.
    UnknownField,
}

/// An error of loading a template or of generating from it.
#[derive(Debug)]
pub enum Error {
    /// A reserved key that names no metadata field.
    UnknownMetadata { key: String },
    /// A required metadata field is missing.
    MissingMetadata { key: String },
    /// A metadata field holds a value of the wrong type.
    InvalidMetadata { key: String },
    /// The url does not have the shape of a url.
    InvalidUrl { url: String },
    /// A copy or exclude pattern is no valid glob pattern.
    InvalidGlob { pattern: String, message: String },
    /// Two declarations share a name.
    DuplicateVariable { name: String },
    /// A declaration matches no variable shape; `field` names the field at fault.
    Schema { name: String, field: String, cause: SchemaError },
    /// A declared pattern is no valid regular expression.
    InvalidPattern { name: String, message: String },
    /// A variable breaks an invariant of its kind.
    ValidateVariable { name: String, source: InvalidVariableError },
    /// A condition is no valid expression.
    Condition { name: String, message: String },
    /// The base path leaves the template root or is absolute.
    BasePath { base: String },
    /// A text file of the template is not valid UTF-8.
    Encoding { path: String },
    /// A text file of the template is no valid template.
    TemplateSyntax { path: String, message: String },
    /// A path or a file failed to render.
    Render { path: String, message: String },
    /// The condition of a variable failed to evaluate.
    Evaluate { name: String, message: String },
    /// No entry of the tree is the base path.
    MissingBasename,
}

} // verus!
