//! What a front end hands in and gets back: which store to use, a custom
//! query for it, and errors as text.
use vstd::prelude::*;

use crate::error::{error_kind, error_text, DbError, ErrorKind};

verus! {

/// The three stores.
#[derive(Clone, Copy, Debug, PartialEq, Eq, Structural)]
pub enum Db {
    SurrealDb,
    Redis,
    Skytable,
}

/// A custom query and the store to run it on.
#[derive(Clone, Debug, PartialEq, Eq)]
pub struct QueryCommand {
    target_db: Db,
    query: String,
}

impl QueryCommand {
    pub fn new(target_db: Db, query: String) -> (r: QueryCommand)
        ensures
            r.target_db() == target_db,
            r.query()@ == query@,
    {
        QueryCommand { target_db, query }
    }

    pub closed spec fn target_db(&self) -> Db {
        self.target_db
    }

    pub closed spec fn query(&self) -> String {
        self.query
    }

    pub fn get_target_db(&self) -> (r: Db)
        ensures
            r == self.target_db(),
    {
        self.target_db
    }

    pub fn get_query(&self) -> (r: &str)
        ensures
            r@ == self.query()@,
    {
        self.query.as_str()
    }
}

/// An error as a front end shows it: its kind and its text.
#[derive(Clone, Debug, PartialEq, Eq)]
pub struct FrontendError {
    kind: ErrorKind,
    message: String,
}

impl FrontendError {
    pub closed spec fn text(&self) -> Seq<char> {
        self.message@
    }

    pub closed spec fn spec_kind(&self) -> ErrorKind {
        self.kind
    }

    pub fn from_db_error(error: &DbError) -> (r: FrontendError)
        ensures
            r.text() == error_text(*error),
            r.spec_kind() == error_kind(*error),
    {
        FrontendError { kind: error.kind(), message: error.message() }
    }

    pub fn kind(&self) -> (r: ErrorKind)
        ensures
            r == self.spec_kind(),
    {
        self.kind
    }

    pub fn message(&self) -> (r: String)
        ensures
            r@ == self.text(),
    {
        self.message.clone()
    }
}

} // verus!
