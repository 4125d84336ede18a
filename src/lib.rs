//! A lexer and a recursive-descent parser for a small `SELECT` dialect of SQL.
use vstd::prelude::*;

pub mod chars;
pub mod parser;
pub mod tokenizer;

use crate::tokenizer::{Token, TokenView};

verus! {

/// A query: a kind name and the token it was built from.
#[derive(Debug)]
pub struct Query {
    _type: String,
    body: Token,
}

impl Query {
    pub closed spec fn kind(&self) -> Seq<char> {
        self._type@
    }

    pub closed spec fn body(&self) -> TokenView {
        self.body@
    }

    pub fn new(body: Token) -> (r: Self)
        ensures
            r.kind() == "Query"@,
            r.body() == body@,
    {
        Self { _type: String::from_str("Query"), body }
    }
}

} // verus!
