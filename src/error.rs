//! Typed failures of the core.
use vstd::prelude::*;

verus! {

/// The class of a failure, as contracts speak of it.
#[derive(PartialEq, Eq, Structural)]
pub enum ErrorKind {
    Schema,
    UnknownKey,
    TypeMismatch,
    Range,
    MissingAttribute,
    MissingEnvVar,
}

/// A failure of evaluation, encoding or loading; the text names what was at fault.
#[derive(Debug, Clone)]
pub enum AbacError {
    /// Malformed policy, entity or schema structure.
    SchemaError(String),
    /// An attribute name or attribute value absent from the fixed keys or the schema.
    UnknownKey(String),
    /// An operator or encoder given operands of the wrong variant.
    TypeMismatch(String),
    /// A number outside its declared bounds or target width.
    RangeError(String),
    /// A referenced attribute absent on the entity.
    MissingAttribute(String),
    /// A referenced environment variable absent from the environment.
    MissingEnvVar(String),
}

impl AbacError {
    pub open spec fn kind(&self) -> ErrorKind {
        match self {
            AbacError::SchemaError(_) => ErrorKind::Schema,
            AbacError::UnknownKey(_) => ErrorKind::UnknownKey,
            AbacError::TypeMismatch(_) => ErrorKind::TypeMismatch,
            AbacError::RangeError(_) => ErrorKind::Range,
            AbacError::MissingAttribute(_) => ErrorKind::MissingAttribute,
            AbacError::MissingEnvVar(_) => ErrorKind::MissingEnvVar,
        }
    }
}

/// The kind of an error result, or the mapped success value.
pub open spec fn err_kind<T>(r: Result<T, AbacError>) -> Option<ErrorKind> {
    match r {
        Ok(_) => None,
        Err(e) => Some(e.kind()),
    }
}

} // verus!
