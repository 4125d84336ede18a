//! The parser: recognises `SELECT <items> [FROM <table>] [WHERE <expr>]` and builds its tree.
//!
//! The statement opens with the `SELECT` keyword, as its very first token. Projection
//! items are separated by commas: `select a b` is rejected. After the keyword,
//! whitespace tokens may stand anywhere between the others.
use vstd::prelude::*;
use crate::chars::{number_text, signed_decimal};
use crate::tokenizer::{lex, tokens_view, Keyword, LexError, Token, TokenView, Tokenizer};

verus! {

#[derive(Debug, PartialEq, Eq)]
pub enum Statement {
    Select(Select),
}

#[derive(Debug, PartialEq, Eq)]
pub enum SelectItem {
    UnnamedExpr(Expr),
}

#[derive(Debug, PartialEq, Eq)]
pub enum Expr {
    Identifier(Ident),
}

#[derive(Debug, PartialEq, Eq)]
pub struct Ident {
    pub value: String,
}

impl Ident {
    pub fn new(value: String) -> (r: Self)
        ensures
            r.value == value,
    {
        Self { value }
    }
}

#[derive(Debug, PartialEq, Eq)]
pub struct Table {
    pub name: String,
}

impl Table {
    pub fn new(name: String) -> (r: Self)
        ensures
            r.name == name,
    {
        Self { name }
    }
}

#[derive(Debug, PartialEq, Eq)]
pub struct Select {
    /// The `WHERE` predicate.
    pub selection: Option<Expr>,
    /// The selected columns, in output order.
    pub projection: Vec<SelectItem>,
    /// The table queried.
    pub from: Option<Table>,
}

impl Select {
    pub fn new(selection: Option<Expr>, projection: Vec<SelectItem>, from: Option<Table>) -> (r:
        Self)
        ensures
            r.selection == selection,
            r.projection == projection,
            r.from == from,
    {
        Self { selection, projection, from }
    }
}

/// What the parser looked for where it met an unexpected token.
#[derive(Debug, Clone, Copy, PartialEq, Eq, Structural)]
pub enum Expected {
    /// An identifier or a number.
    Expression,
    /// An identifier naming a table.
    TableName,
    /// The end of the statement, or a clause that may still follow.
    EndOfStatement,
}

/// Why a statement could not be parsed. Indices count tokens from the start.
#[derive(Debug, PartialEq, Eq)]
pub enum ParseError {
    /// The text could not be tokenized.
    Lex(LexError),
    /// The statement does not open with a token that begins a statement.
    UnexpectedTopLevelToken { index: usize, found: Token },
    /// A token that the clause being read cannot hold at that place.
    UnexpectedTokenInClause { index: usize, expected: Expected, found: Token },
}

/// A parse error as a mathematical value.
pub enum ParseErrorView {
    Lex(LexError),
    UnexpectedTopLevelToken { index: int, found: TokenView },
    UnexpectedTokenInClause { index: int, expected: Expected, found: TokenView },
}

impl View for ParseError {
    type V = ParseErrorView;

    open spec fn view(&self) -> ParseErrorView {
        match self {
            ParseError::Lex(e) => ParseErrorView::Lex(*e),
            ParseError::UnexpectedTopLevelToken { index, found } => {
                ParseErrorView::UnexpectedTopLevelToken { index: *index as int, found: found@ }
            },
            ParseError::UnexpectedTokenInClause { index, expected, found } => {
                ParseErrorView::UnexpectedTokenInClause {
                    index: *index as int,
                    expected: *expected,
                    found: found@,
                }
            },
        }
    }
}

impl View for Expr {
    type V = Seq<char>;

    open spec fn view(&self) -> Seq<char> {
        match self {
            Expr::Identifier(id) => id.value@,
        }
    }
}

impl View for SelectItem {
    type V = Seq<char>;

    open spec fn view(&self) -> Seq<char> {
        match self {
            SelectItem::UnnamedExpr(e) => e@,
        }
    }
}

pub open spec fn items_view(v: Seq<SelectItem>) -> Seq<Seq<char>> {
    v.map_values(|x: SelectItem| x@)
}

/// A `SELECT` statement as a mathematical value: identifier texts and a table name.
pub struct SelectView {
    pub projection: Seq<Seq<char>>,
    pub from: Option<Seq<char>>,
    pub selection: Option<Seq<char>>,
}

pub enum StatementView {
    Select(SelectView),
}

impl View for Select {
    type V = SelectView;

    open spec fn view(&self) -> SelectView {
        SelectView {
            projection: items_view(self.projection@),
            from: match self.from {
                Some(t) => Some(t.name@),
                None => None,
            },
            selection: match self.selection {
                Some(e) => Some(e@),
                None => None,
            },
        }
    }
}

impl View for Statement {
    type V = StatementView;

    open spec fn view(&self) -> StatementView {
        match self {
            Statement::Select(s) => StatementView::Select(s@),
        }
    }
}

/// A token sequence as the lexer hands it out: closed by the end marker.
pub open spec fn closed_by_eof(t: Seq<TokenView>) -> bool {
    t.len() > 0 && t.last() is EOF
}

/// The first position from `i` on that holds no whitespace token.
pub open spec fn skip_ws(t: Seq<TokenView>, i: int) -> int
    decreases t.len() - i,
{
    if 0 <= i < t.len() && t[i] is Whitespace {
        skip_ws(t, i + 1)
    } else {
        i
    }
}

/// The text of an expression token: an identifier, or a number written in decimal.
pub open spec fn expr_text(tok: TokenView) -> Option<Seq<char>> {
    match tok {
        TokenView::Word(v, Keyword::NoKeyword) => Some(v),
        TokenView::Number(n) => Some(signed_decimal(n)),
        _ => None,
    }
}

/// The text of a table name token.
pub open spec fn table_text(tok: TokenView) -> Option<Seq<char>> {
    match tok {
        TokenView::Word(v, Keyword::NoKeyword) => Some(v),
        _ => None,
    }
}

pub open spec fn is_keyword(tok: TokenView, k: Keyword) -> bool {
    tok matches TokenView::Word(_, kw) && kw == k
}

/// The comma-separated expressions from position `i` on, with the position after them.
pub open spec fn projection_from(t: Seq<TokenView>, i: int) -> Result<
    (Seq<Seq<char>>, int),
    ParseErrorView,
>
    decreases t.len() - i,
{
    let a = skip_ws(t, i);
    if 0 <= a < t.len() && expr_text(t[a]) is Some {
        let x = expr_text(t[a])->Some_0;
        let k = skip_ws(t, a + 1);
        if i <= k < t.len() && t[k] is Comma {
            match projection_from(t, k + 1) {
                Ok((xs, e)) => Ok((seq![x] + xs, e)),
                Err(err) => Err(err),
            }
        } else {
            Ok((seq![x], k))
        }
    } else {
        Err(ParseErrorView::UnexpectedTokenInClause { index: a, expected: Expected::Expression, found: t[a] })
    }
}

/// An optional `FROM <table>` at position `k`, with the position after it.
pub open spec fn from_clause(t: Seq<TokenView>, k: int) -> Result<
    (Option<Seq<char>>, int),
    ParseErrorView,
> {
    if 0 <= k < t.len() && is_keyword(t[k], Keyword::From) {
        let m = skip_ws(t, k + 1);
        if 0 <= m < t.len() && table_text(t[m]) is Some {
            Ok((table_text(t[m]), skip_ws(t, m + 1)))
        } else {
            Err(
                ParseErrorView::UnexpectedTokenInClause {
                    index: m,
                    expected: Expected::TableName,
                    found: t[m],
                },
            )
        }
    } else {
        Ok((None, k))
    }
}

/// An optional `WHERE <expr>` at position `k`, with the position after it.
pub open spec fn where_clause(t: Seq<TokenView>, k: int) -> Result<
    (Option<Seq<char>>, int),
    ParseErrorView,
> {
    if 0 <= k < t.len() && is_keyword(t[k], Keyword::Where) {
        let m = skip_ws(t, k + 1);
        if 0 <= m < t.len() && expr_text(t[m]) is Some {
            Ok((expr_text(t[m]), skip_ws(t, m + 1)))
        } else {
            Err(
                ParseErrorView::UnexpectedTokenInClause {
                    index: m,
                    expected: Expected::Expression,
                    found: t[m],
                },
            )
        }
    } else {
        Ok((None, k))
    }
}

/// The rest of a `SELECT` statement whose keyword stands just before position `i`.
pub open spec fn select_from(t: Seq<TokenView>, i: int) -> Result<SelectView, ParseErrorView> {
    match projection_from(t, i) {
        Err(e) => Err(e),
        Ok((items, k)) => match from_clause(t, k) {
            Err(e) => Err(e),
            Ok((table, k2)) => match where_clause(t, k2) {
                Err(e) => Err(e),
                Ok((filter, k3)) => if 0 <= k3 < t.len() && t[k3] is EOF {
                    Ok(SelectView { projection: items, from: table, selection: filter })
                } else {
                    Err(
                        ParseErrorView::UnexpectedTokenInClause {
                            index: k3,
                            expected: Expected::EndOfStatement,
                            found: t[k3],
                        },
                    )
                },
            },
        },
    }
}

/// The statement that a token sequence spells: it must open with the `SELECT` keyword.
pub open spec fn parse_tokens(t: Seq<TokenView>) -> Result<StatementView, ParseErrorView> {
    if t.len() > 0 && is_keyword(t[0], Keyword::Select) {
        match select_from(t, 1) {
            Ok(s) => Ok(StatementView::Select(s)),
            Err(e) => Err(e),
        }
    } else {
        Err(ParseErrorView::UnexpectedTopLevelToken { index: 0, found: t[0] })
    }
}

/// The statement that a text spells.
pub open spec fn parse_text(s: Seq<char>) -> Result<StatementView, ParseErrorView> {
    match lex(s) {
        Err(e) => Err(ParseErrorView::Lex(e)),
        Ok(t) => parse_tokens(t),
    }
}

pub proof fn lemma_skip_ws(t: Seq<TokenView>, i: int)
    requires
        closed_by_eof(t),
        0 <= i < t.len(),
    ensures
        i <= skip_ws(t, i) < t.len(),
        t[skip_ws(t, i)] !is Whitespace,
    decreases t.len() - i,
{
    if t[i] is Whitespace {
        lemma_skip_ws(t, i + 1);
    }
}

/// Prepends `p` to the items of a successful result and passes an error on.
pub open spec fn with_items(
    p: Seq<Seq<char>>,
    r: Result<(Seq<Seq<char>>, int), ParseErrorView>,
) -> Result<(Seq<Seq<char>>, int), ParseErrorView> {
    match r {
        Ok((xs, e)) => Ok((p + xs, e)),
        Err(err) => Err(err),
    }
}

/// A parser that owns its tokenizer and the tokens of the statement being read.
pub struct Parser {
    tokenizer: Tokenizer,
    tokens: Vec<Token>,
}

impl Parser {
    pub closed spec fn wf(&self) -> bool {
        self.tokenizer.wf()
    }

    closed spec fn ready(&self) -> bool {
        closed_by_eof(tokens_view(self.tokens@))
    }

    closed spec fn t(&self) -> Seq<TokenView> {
        tokens_view(self.tokens@)
    }

    pub fn new() -> (r: Self)
        ensures
            r.wf(),
    {
        Self { tokenizer: Tokenizer::new(), tokens: Vec::new() }
    }

    /// The first position from `i` on that holds no whitespace token.
    fn scan(&self, i: usize) -> (r: usize)
        requires
            self.ready(),
            i < self.t().len(),
        ensures
            r == skip_ws(self.t(), i as int),
            i <= r < self.t().len(),
    {
        proof {
            lemma_skip_ws(self.t(), i as int);
        }
        let mut j = i;
        while j < self.tokens.len() && matches!(self.tokens[j], Token::Whitespace)
            invariant
                self.ready(),
                i <= j <= self.tokens.len(),
                skip_ws(self.t(), i as int) == skip_ws(self.t(), j as int),
            decreases self.tokens.len() - j,
        {
            j = j + 1;
        }
        j
    }

    /// The expression that the token at `j` stands for, if it is one.
    fn expr_at(&self, j: usize) -> (r: Option<Expr>)
        requires
            j < self.t().len(),
        ensures
            match r {
                Some(e) => expr_text(self.t()[j as int]) == Some(e@),
                None => expr_text(self.t()[j as int]) is None,
            },
    {
        match &self.tokens[j] {
            Token::Word(w) => {
                if let Keyword::NoKeyword = w.keyword {
                    Some(Expr::Identifier(Ident::new(w.value.clone())))
                } else {
                    None
                }
            },
            Token::Number(n) => Some(Expr::Identifier(Ident::new(number_text(*n)))),
            _ => None,
        }
    }

    fn is_keyword_at(&self, j: usize, k: Keyword) -> (r: bool)
        requires
            j < self.t().len(),
        ensures
            r == is_keyword(self.t()[j as int], k),
    {
        match &self.tokens[j] {
            Token::Word(w) => w.keyword == k,
            _ => false,
        }
    }

    /// Reads the comma-separated expressions that start at `i`.
    fn parse_projection(&self, i: usize) -> (r: Result<(Vec<SelectItem>, usize), ParseError>)
        requires
            self.ready(),
            i < self.t().len(),
        ensures
            match r {
                Ok((v, e)) => projection_from(self.t(), i as int) == Ok::<
                    (Seq<Seq<char>>, int),
                    ParseErrorView,
                >((items_view(v@), e as int)) && e < self.t().len(),
                Err(x) => projection_from(self.t(), i as int) == Err::<
                    (Seq<Seq<char>>, int),
                    ParseErrorView,
                >(x@),
            },
    {
        let ghost t = self.t();
        let mut items: Vec<SelectItem> = Vec::new();
        let mut j = i;
        assert(with_items(items_view(items@), projection_from(t, i as int)) == projection_from(
            t,
            i as int,
        )) by {
            assert(items_view(items@) =~= Seq::<Seq<char>>::empty());
            match projection_from(t, i as int) {
                Ok((xs, e)) => {
                    assert(Seq::<Seq<char>>::empty() + xs =~= xs);
                },
                Err(_) => {},
            }
        }
        loop
            invariant
                self.ready(),
                t == self.t(),
                j < t.len(),
                projection_from(t, i as int) == with_items(
                    items_view(items@),
                    projection_from(t, j as int),
                ),
            decreases t.len() - j,
        {
            let a = self.scan(j);
            match self.expr_at(a) {
                None => {
                    return Err(
                        ParseError::UnexpectedTokenInClause {
                            index: a,
                            expected: Expected::Expression,
                            found: self.tokens[a].duplicate(),
                        },
                    );
                },
                Some(x) => {
                    let ghost xv = x@;
                    let ghost before = items_view(items@);
                    items.push(SelectItem::UnnamedExpr(x));
                    assert(items_view(items@) =~= before.push(xv));
                    assert(a + 1 < t.len() && t.len() == self.tokens.len());
                    let k = self.scan(a + 1);
                    if matches!(self.tokens[k], Token::Comma) {
                        proof {
                            match projection_from(t, k + 1) {
                                Ok((xs, e)) => {
                                    assert(before + (seq![xv] + xs) =~= before.push(xv) + xs);
                                },
                                Err(_) => {},
                            }
                        }
                        j = k + 1;
                    } else {
                        assert(before + seq![xv] =~= before.push(xv));
                        return Ok((items, k));
                    }
                },
            }
        }
    }
}

impl Parser {
    /// Reads an optional `FROM <table>` at `k`.
    fn parse_from(&self, k: usize) -> (r: Result<(Option<Table>, usize), ParseError>)
        requires
            self.ready(),
            k < self.t().len(),
        ensures
            match r {
                Ok((table, e)) => from_clause(self.t(), k as int) == Ok::<
                    (Option<Seq<char>>, int),
                    ParseErrorView,
                >(
                    (
                        match table {
                            Some(x) => Some(x.name@),
                            None => None,
                        },
                        e as int,
                    ),
                ) && e < self.t().len(),
                Err(x) => from_clause(self.t(), k as int) == Err::<
                    (Option<Seq<char>>, int),
                    ParseErrorView,
                >(x@),
            },
    {
        if !self.is_keyword_at(k, Keyword::From) {
            return Ok((None, k));
        }
        assert(k + 1 < self.t().len() && self.t().len() == self.tokens.len());
        let m = self.scan(k + 1);
        match &self.tokens[m] {
            Token::Word(w) => {
                if let Keyword::NoKeyword = w.keyword {
                    assert(m + 1 < self.t().len());
                    let e = self.scan(m + 1);
                    return Ok((Some(Table::new(w.value.clone())), e));
                }
            },
            _ => {},
        }
        Err(
            ParseError::UnexpectedTokenInClause {
                index: m,
                expected: Expected::TableName,
                found: self.tokens[m].duplicate(),
            },
        )
    }

    /// Reads an optional `WHERE <expr>` at `k`.
    fn parse_filter(&self, k: usize) -> (r: Result<(Option<Expr>, usize), ParseError>)
        requires
            self.ready(),
            k < self.t().len(),
        ensures
            match r {
                Ok((filter, e)) => where_clause(self.t(), k as int) == Ok::<
                    (Option<Seq<char>>, int),
                    ParseErrorView,
                >(
                    (
                        match filter {
                            Some(x) => Some(x@),
                            None => None,
                        },
                        e as int,
                    ),
                ) && e < self.t().len(),
                Err(x) => where_clause(self.t(), k as int) == Err::<
                    (Option<Seq<char>>, int),
                    ParseErrorView,
                >(x@),
            },
    {
        if !self.is_keyword_at(k, Keyword::Where) {
            return Ok((None, k));
        }
        assert(k + 1 < self.t().len() && self.t().len() == self.tokens.len());
        let m = self.scan(k + 1);
        match self.expr_at(m) {
            Some(x) => {
                assert(m + 1 < self.t().len());
                let e = self.scan(m + 1);
                Ok((Some(x), e))
            },
            None => Err(
                ParseError::UnexpectedTokenInClause {
                    index: m,
                    expected: Expected::Expression,
                    found: self.tokens[m].duplicate(),
                },
            ),
        }
    }

    /// Reads the rest of a `SELECT` statement whose keyword stands just before `i`.
    fn parse_select(&self, i: usize) -> (r: Result<Select, ParseError>)
        requires
            self.ready(),
            i < self.t().len(),
        ensures
            match r {
                Ok(s) => select_from(self.t(), i as int) == Ok::<SelectView, ParseErrorView>(s@),
                Err(x) => select_from(self.t(), i as int) == Err::<SelectView, ParseErrorView>(x@),
            },
    {
        let (projection, k) = match self.parse_projection(i) {
            Ok(p) => p,
            Err(x) => {
                return Err(x);
            },
        };
        let (from, k2) = match self.parse_from(k) {
            Ok(p) => p,
            Err(x) => {
                return Err(x);
            },
        };
        let (selection, k3) = match self.parse_filter(k2) {
            Ok(p) => p,
            Err(x) => {
                return Err(x);
            },
        };
        if matches!(self.tokens[k3], Token::EOF) {
            Ok(Select::new(selection, projection, from))
        } else {
            Err(
                ParseError::UnexpectedTokenInClause {
                    index: k3,
                    expected: Expected::EndOfStatement,
                    found: self.tokens[k3].duplicate(),
                },
            )
        }
    }

    /// Dispatches on the first token.
    fn parse_query(&self) -> (r: Result<Statement, ParseError>)
        requires
            self.ready(),
        ensures
            match r {
                Ok(s) => parse_tokens(self.t()) == Ok::<StatementView, ParseErrorView>(s@),
                Err(x) => parse_tokens(self.t()) == Err::<StatementView, ParseErrorView>(x@),
            },
    {
        if self.is_keyword_at(0, Keyword::Select) {
            assert(1 < self.t().len() && self.t().len() == self.tokens.len());
            match self.parse_select(1) {
                Ok(s) => Ok(Statement::Select(s)),
                Err(x) => Err(x),
            }
        } else {
            Err(ParseError::UnexpectedTopLevelToken { index: 0, found: self.tokens[0].duplicate() })
        }
    }

    /// Tokenizes `input` and parses the statement it holds.
    pub fn parse(&mut self, input: &str) -> (r: Result<Statement, ParseError>)
        requires
            old(self).wf(),
        ensures
            final(self).wf(),
            match r {
                Ok(s) => parse_text(input@) == Ok::<StatementView, ParseErrorView>(s@),
                Err(x) => parse_text(input@) == Err::<StatementView, ParseErrorView>(x@),
            },
    {
        self.tokenizer.init(input);
        match self.tokenizer.tokenize() {
            Ok(tokens) => {
                self.tokens = tokens;
                self.parse_query()
            },
            Err(e) => Err(ParseError::Lex(e)),
        }
    }
}

} // verus!
