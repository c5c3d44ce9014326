//! The errors that the storage operations report.
use vstd::prelude::*;

use crate::model::ModelError;
use crate::text::concat;

verus! {

/// Why a storage operation failed.
#[derive(Clone, Debug, PartialEq, Eq)]
pub enum DbError {
    /// The store could not be reached or refused the credentials.
    ConnectionError { message: String },
    /// The store rejected a query; `message` is its own text.
    QueryError { message: String },
    /// Ranking was asked for by a field that packages cannot be ranked by.
    UnsupportedField { field: String },
    /// No package of that name is stored.
    NotFound { name: String },
    /// A stored record could not be decoded.
    Model(ModelError),
}


/// The kinds of error that a caller can tell apart.
#[derive(Clone, Copy, Debug, PartialEq, Eq, Structural)]
pub enum ErrorKind {
    ConnectionError,
    QueryError,
    UnsupportedField,
    NotFound,
    ParseError,
    MissingSourceData,
}

pub open spec fn error_kind(e: DbError) -> ErrorKind {
    match e {
        DbError::ConnectionError { .. } => ErrorKind::ConnectionError,
        DbError::QueryError { .. } => ErrorKind::QueryError,
        DbError::UnsupportedField { .. } => ErrorKind::UnsupportedField,
        DbError::NotFound { .. } => ErrorKind::NotFound,
        DbError::Model(ModelError::ParseError { .. }) => ErrorKind::ParseError,
        DbError::Model(ModelError::MissingSourceData { .. }) => ErrorKind::MissingSourceData,
    }
}

/// The text that describes a decoding error.
pub open spec fn model_error_text(e: ModelError) -> Seq<char> {
    match e {
        ModelError::MissingSourceData { field } =>
            "Source lacks of data required to create struct. Missing field: "@ + field@,
        ModelError::ParseError { field } => "Cannot parse data for "@ + field@ + " field"@,
    }
}

/// The text that describes an error to a user.
pub open spec fn error_text(e: DbError) -> Seq<char> {
    match e {
        DbError::ConnectionError { message } => message@,
        DbError::QueryError { message } => message@,
        DbError::UnsupportedField { field } => "Unsupported field: "@ + field@,
        DbError::NotFound { name } => "Package not found: "@ + name@,
        DbError::Model(m) => model_error_text(m),
    }
}

impl ModelError {
    pub fn message(&self) -> (r: String)
        ensures
            r@ == model_error_text(*self),
    {
        match self {
            ModelError::MissingSourceData { field } => concat(
                "Source lacks of data required to create struct. Missing field: ",
                field,
            ),
            ModelError::ParseError { field } => {
                let mut s = concat("Cannot parse data for ", field);
                s.append(" field");
                s
            },
        }
    }
}

impl DbError {
    pub fn kind(&self) -> (r: ErrorKind)
        ensures
            r == error_kind(*self),
    {
        match self {
            DbError::ConnectionError { .. } => ErrorKind::ConnectionError,
            DbError::QueryError { .. } => ErrorKind::QueryError,
            DbError::UnsupportedField { .. } => ErrorKind::UnsupportedField,
            DbError::NotFound { .. } => ErrorKind::NotFound,
            DbError::Model(ModelError::ParseError { .. }) => ErrorKind::ParseError,
            DbError::Model(ModelError::MissingSourceData { .. }) => ErrorKind::MissingSourceData,
        }
    }

    pub fn message(&self) -> (r: String)
        ensures
            r@ == error_text(*self),
    {
        match self {
            DbError::ConnectionError { message } => message.clone(),
            DbError::QueryError { message } => message.clone(),
            DbError::UnsupportedField { field } => concat("Unsupported field: ", field.as_str()),
            DbError::NotFound { name } => concat("Package not found: ", name.as_str()),
            DbError::Model(m) => m.message(),
        }
    }
}

} // verus!
