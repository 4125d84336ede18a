//! The lexer: turns text into a sequence of tokens.
use vstd::prelude::*;
use vstd::std_specs::iter::IteratorSpec;
use vstd::string::StrSliceExecFns;
use crate::chars::{
    continues_word, digit_value, digits_value, is_decimal_digit, is_digit, is_word_char,
    is_word_start, starts_word, upper_of, uppercase,
};

verus! {

broadcast use vstd::string::group_string_axioms;

/// The keywords that a word may stand for; `NoKeyword` marks an ordinary identifier.
#[derive(Debug, Clone, Copy, PartialEq, Eq, Structural)]
pub enum Keyword {
    Select,
    From,
    Where,
    Group,
    Order,
    Having,
    NoKeyword,
}

/// The keyword that an upper-cased word stands for.
///
/// `GROUP` and `ORDER` are reserved for `GROUP BY` and `ORDER BY`, which take two words,
/// and are not recognised yet.
pub open spec fn keyword_of(w: Seq<char>) -> Keyword {
    if w == "SELECT"@ {
        Keyword::Select
    } else if w == "FROM"@ {
        Keyword::From
    } else if w == "WHERE"@ {
        Keyword::Where
    } else if w == "HAVING"@ {
        Keyword::Having
    } else {
        Keyword::NoKeyword
    }
}

impl Keyword {
    /// Looks an upper-cased word up in the keyword table.
    pub fn from_word(w: &str) -> (r: Keyword)
        ensures
            r == keyword_of(w@),
    {
        let w = String::from_str(w);
        if w == String::from_str("SELECT") {
            Keyword::Select
        } else if w == String::from_str("FROM") {
            Keyword::From
        } else if w == String::from_str("WHERE") {
            Keyword::Where
        } else if w == String::from_str("HAVING") {
            Keyword::Having
        } else {
            Keyword::NoKeyword
        }
    }
}

/// A word of the input: its upper-cased text and the keyword it stands for.
#[derive(Debug, PartialEq, Eq)]
pub struct Word {
    pub value: String,
    pub keyword: Keyword,
}

impl Word {
    pub fn new(value: String, keyword: Keyword) -> (r: Self)
        ensures
            r.value == value,
            r.keyword == keyword,
    {
        Self { value, keyword }
    }
}

/// A lexical unit. `EOF` closes the sequence that `Tokenizer::tokenize` returns.
#[derive(Debug, PartialEq, Eq)]
pub enum Token {
    Word(Word),
    Number(i64),
    LeftParen,
    RightParen,
    Plus,
    Minus,
    Asterisk,
    Comma,
    Whitespace,
    EOF,
}

/// A token as a mathematical value.
pub enum TokenView {
    Word(Seq<char>, Keyword),
    Number(int),
    LeftParen,
    RightParen,
    Plus,
    Minus,
    Asterisk,
    Comma,
    Whitespace,
    EOF,
}

impl View for Token {
    type V = TokenView;

    open spec fn view(&self) -> TokenView {
        match self {
            Token::Word(w) => TokenView::Word(w.value@, w.keyword),
            Token::Number(n) => TokenView::Number(*n as int),
            Token::LeftParen => TokenView::LeftParen,
            Token::RightParen => TokenView::RightParen,
            Token::Plus => TokenView::Plus,
            Token::Minus => TokenView::Minus,
            Token::Asterisk => TokenView::Asterisk,
            Token::Comma => TokenView::Comma,
            Token::Whitespace => TokenView::Whitespace,
            Token::EOF => TokenView::EOF,
        }
    }
}

pub open spec fn tokens_view(v: Seq<Token>) -> Seq<TokenView> {
    v.map_values(|t: Token| t@)
}

impl Token {
    /// A copy of the token.
    pub fn duplicate(&self) -> (r: Token)
        ensures
            r@ == self@,
    {
        match self {
            Token::Word(w) => Token::Word(Word::new(w.value.clone(), w.keyword)),
            Token::Number(n) => Token::Number(*n),
            Token::LeftParen => Token::LeftParen,
            Token::RightParen => Token::RightParen,
            Token::Plus => Token::Plus,
            Token::Minus => Token::Minus,
            Token::Asterisk => Token::Asterisk,
            Token::Comma => Token::Comma,
            Token::Whitespace => Token::Whitespace,
            Token::EOF => Token::EOF,
        }
    }
}

/// Why the input could not be tokenized. Positions count characters from the start.
#[derive(Debug, Clone, Copy, PartialEq, Eq, Structural)]
pub enum LexError {
    /// A run of digits whose value does not fit in an `i64`.
    LexOverflow { position: usize },
    /// A character that starts no token.
    LexUnrecognizedCharacter { ch: char, position: usize },
}

/// The three kinds of runs that the lexer consumes in one go.
#[derive(Debug, Clone, Copy, PartialEq, Eq, Structural)]
pub enum CharClass {
    WordChar,
    Digit,
    Space,
}

pub open spec fn in_class(k: CharClass, c: char) -> bool {
    match k {
        CharClass::WordChar => continues_word(c),
        CharClass::Digit => is_digit(c),
        CharClass::Space => c == ' ',
    }
}

/// Where the maximal run of characters of class `k` that starts at `i` ends.
pub open spec fn run_end(s: Seq<char>, i: int, k: CharClass) -> int
    decreases s.len() - i,
{
    if 0 <= i < s.len() && in_class(k, s[i]) {
        run_end(s, i + 1, k)
    } else {
        i
    }
}

/// The token of a single punctuation character.
pub open spec fn punctuation(c: char) -> Option<TokenView> {
    if c == '*' {
        Some(TokenView::Asterisk)
    } else if c == '-' {
        Some(TokenView::Minus)
    } else if c == '+' {
        Some(TokenView::Plus)
    } else if c == '(' {
        Some(TokenView::LeftParen)
    } else if c == ')' {
        Some(TokenView::RightParen)
    } else if c == ',' {
        Some(TokenView::Comma)
    } else {
        None
    }
}

/// The token that starts at position `i` of `s`, with the position just past it.
pub open spec fn step(s: Seq<char>, i: int) -> Result<(TokenView, int), LexError> {
    let c = s[i];
    if starts_word(c) {
        let e = run_end(s, i, CharClass::WordChar);
        let text = upper_of(s.subrange(i, e));
        Ok((TokenView::Word(text, keyword_of(text)), e))
    } else if is_digit(c) {
        let e = run_end(s, i, CharClass::Digit);
        let v = digits_value(s.subrange(i, e));
        if v <= i64::MAX {
            Ok((TokenView::Number(v as int), e))
        } else {
            Err(LexError::LexOverflow { position: i as usize })
        }
    } else if c == ' ' {
        Ok((TokenView::Whitespace, run_end(s, i, CharClass::Space)))
    } else if let Some(t) = punctuation(c) {
        Ok((t, i + 1))
    } else {
        Err(LexError::LexUnrecognizedCharacter { ch: c, position: i as usize })
    }
}

/// The tokens of `s` from position `i` on, without an end marker.
pub open spec fn lex_from(s: Seq<char>, i: int) -> Result<Seq<TokenView>, LexError>
    decreases s.len() - i,
{
    if 0 <= i < s.len() {
        match step(s, i) {
            Err(e) => Err(e),
            Ok((t, e)) => if i < e <= s.len() {
                match lex_from(s, e) {
                    Ok(rest) => Ok(seq![t] + rest),
                    Err(x) => Err(x),
                }
            } else {
                Ok(seq![])
            },
        }
    } else {
        Ok(seq![])
    }
}

/// The tokens of `s`, closed by the end marker.
pub open spec fn lex(s: Seq<char>) -> Result<Seq<TokenView>, LexError> {
    match lex_from(s, 0) {
        Ok(ts) => Ok(ts.push(TokenView::EOF)),
        Err(e) => Err(e),
    }
}

/// Prepends `p` to a successful result and passes an error on.
pub open spec fn prepend(p: Seq<TokenView>, r: Result<Seq<TokenView>, LexError>) -> Result<
    Seq<TokenView>,
    LexError,
> {
    match r {
        Ok(x) => Ok(p + x),
        Err(e) => Err(e),
    }
}

pub proof fn lemma_run_end(s: Seq<char>, i: int, k: CharClass)
    requires
        0 <= i <= s.len(),
    ensures
        i <= run_end(s, i, k) <= s.len(),
        forall|j: int| i <= j < run_end(s, i, k) ==> in_class(k, #[trigger] s[j]),
        run_end(s, i, k) == s.len() || !in_class(k, s[run_end(s, i, k)]),
    decreases s.len() - i,
{
    if i < s.len() && in_class(k, s[i]) {
        lemma_run_end(s, i + 1, k);
    }
}

/// A token covers at least one character, and is never the end marker.
pub proof fn lemma_step_advances(s: Seq<char>, i: int)
    requires
        0 <= i < s.len(),
    ensures
        step(s, i) matches Ok((t, e)) ==> i < e <= s.len() && t !is EOF,
{
    lemma_run_end(s, i, CharClass::WordChar);
    lemma_run_end(s, i, CharClass::Digit);
    lemma_run_end(s, i, CharClass::Space);
}

/// A longer run of digits has a value at least as large.
proof fn lemma_digits_value_grows(s: Seq<char>, i: int, j: int, m: int)
    requires
        0 <= i <= j <= m <= s.len(),
    ensures
        digits_value(s.subrange(i, j)) <= digits_value(s.subrange(i, m)),
    decreases m - j,
{
    if j < m {
        lemma_digits_value_grows(s, i, j, m - 1);
        assert(s.subrange(i, m).drop_last() =~= s.subrange(i, m - 1));
    }
}

/// A lexer over one text, with a cursor for pulling tokens one at a time.
///
/// `tokenize` reads the whole text at once; `next_iter` hands out the token at the
/// cursor and moves the cursor past it. `init` binds a new text and resets the cursor.
pub struct Tokenizer {
    text: String,
    input: Vec<char>,
    cursor: usize,
}

impl Tokenizer {
    /// The characters being tokenized.
    pub closed spec fn source(&self) -> Seq<char> {
        self.input@
    }

    /// The position of the next token that `next_iter` hands out.
    pub closed spec fn position(&self) -> int {
        self.cursor as int
    }

    pub closed spec fn wf(&self) -> bool {
        &&& self.input@ == self.text@
        &&& self.cursor <= self.input.len()
    }

    pub fn new() -> (r: Self)
        ensures
            r.wf(),
            r.source() == Seq::<char>::empty(),
            r.position() == 0,
    {
        Self { text: String::new(), input: Vec::new(), cursor: 0 }
    }

    /// Binds the tokenizer to `input` and moves the cursor back to the start.
    pub fn init(&mut self, input: &str)
        ensures
            final(self).wf(),
            final(self).source() == input@,
            final(self).position() == 0,
    {
        let mut chars = input.chars();
        let mut v: Vec<char> = Vec::new();
        loop
            invariant
                v@ + chars.remaining() == input@,
                chars.decrease() is Some,
            ensures
                v@ == input@,
            decreases chars.decrease()->0,
        {
            match chars.next() {
                Some(c) => {
                    v.push(c);
                    assert(v@ + chars.remaining() =~= input@);
                },
                None => {
                    assert(v@ =~= input@);
                    break ;
                },
            }
        }
        self.text = String::from_str(input);
        self.input = v;
        self.cursor = 0;
    }
}

fn char_in_class(c: char, k: CharClass) -> (r: bool)
    ensures
        r == in_class(k, c),
{
    match k {
        CharClass::WordChar => is_word_char(c),
        CharClass::Digit => is_decimal_digit(c),
        CharClass::Space => c == ' ',
    }
}

impl Tokenizer {
    /// Where the maximal run of characters of class `k` that starts at `start` ends.
    fn eat_while(&self, start: usize, k: CharClass) -> (e: usize)
        requires
            self.wf(),
            start <= self.source().len(),
        ensures
            e == run_end(self.source(), start as int, k),
            start <= e <= self.source().len(),
    {
        proof {
            lemma_run_end(self.input@, start as int, k);
        }
        let mut j = start;
        while j < self.input.len() && char_in_class(self.input[j], k)
            invariant
                self.wf(),
                start <= j <= self.input.len(),
                run_end(self.input@, start as int, k) == run_end(self.input@, j as int, k),
            decreases self.input.len() - j,
        {
            j = j + 1;
        }
        j
    }

    /// The value of the digits from `start` up to `end`, or an overflow at `start`.
    fn number_value(&self, start: usize, end: usize) -> (r: Result<i64, LexError>)
        requires
            self.wf(),
            start <= end <= self.source().len(),
            forall|j: int| start <= j < end ==> is_digit(#[trigger] self.source()[j]),
        ensures
            match r {
                Ok(v) => v as int == digits_value(self.source().subrange(start as int, end as int)),
                Err(e) => digits_value(self.source().subrange(start as int, end as int))
                    > i64::MAX && e == LexError::LexOverflow { position: start },
            },
    {
        let ghost s = self.input@;
        let mut v: i64 = 0;
        let mut j = start;
        assert(s.subrange(start as int, start as int) =~= Seq::<char>::empty());
        while j < end
            invariant
                self.wf(),
                s == self.input@,
                start <= j <= end <= s.len(),
                forall|j: int| start <= j < end ==> is_digit(#[trigger] s[j]),
                0 <= v,
                v as int == digits_value(s.subrange(start as int, j as int)),
            decreases end - j,
        {
            let c = self.input[j];
            let d = (c as u32 - 48) as i64;
            assert(s.subrange(start as int, j + 1).drop_last() =~= s.subrange(start as int, j as int));
            let next: u128 = (v as u128) * 10 + (d as u128);
            if next > 9223372036854775807u128 {
                proof {
                    lemma_digits_value_grows(s, start as int, j + 1, end as int);
                }
                return Err(LexError::LexOverflow { position: start });
            }
            v = next as i64;
            j = j + 1;
        }
        Ok(v)
    }

    /// The token that starts at `i`, with the position just past it.
    fn scan_token(&self, i: usize) -> (r: Result<(Token, usize), LexError>)
        requires
            self.wf(),
            i < self.source().len(),
        ensures
            match r {
                Ok((t, e)) => step(self.source(), i as int) == Ok::<(TokenView, int), LexError>(
                    (t@, e as int),
                ) && i < e <= self.source().len(),
                Err(x) => step(self.source(), i as int) == Err::<(TokenView, int), LexError>(x),
            },
    {
        let c = self.input[i];
        if is_word_start(c) {
            let e = self.eat_while(i, CharClass::WordChar);
            proof {
                lemma_run_end(self.input@, i as int, CharClass::WordChar);
                assert(in_class(CharClass::WordChar, c));
            }
            let text = uppercase(self.text.as_str().substring_char(i, e));
            let keyword = Keyword::from_word(text.as_str());
            Ok((Token::Word(Word::new(text, keyword)), e))
        } else if is_decimal_digit(c) {
            let e = self.eat_while(i, CharClass::Digit);
            proof {
                lemma_run_end(self.input@, i as int, CharClass::Digit);
            }
            match self.number_value(i, e) {
                Ok(v) => Ok((Token::Number(v), e)),
                Err(x) => Err(x),
            }
        } else if c == ' ' {
            let e = self.eat_while(i, CharClass::Space);
            proof {
                lemma_run_end(self.input@, i as int, CharClass::Space);
            }
            Ok((Token::Whitespace, e))
        } else if c == '*' {
            Ok((Token::Asterisk, i + 1))
        } else if c == '-' {
            Ok((Token::Minus, i + 1))
        } else if c == '+' {
            Ok((Token::Plus, i + 1))
        } else if c == '(' {
            Ok((Token::LeftParen, i + 1))
        } else if c == ')' {
            Ok((Token::RightParen, i + 1))
        } else if c == ',' {
            Ok((Token::Comma, i + 1))
        } else {
            Err(LexError::LexUnrecognizedCharacter { ch: c, position: i })
        }
    }
}

impl Tokenizer {
    /// Tokenizes the whole input, closing the sequence with `Token::EOF`.
    ///
    /// The result depends on the input alone: the tokenizer is left as it was.
    pub fn tokenize(&mut self) -> (r: Result<Vec<Token>, LexError>)
        requires
            old(self).wf(),
        ensures
            *final(self) == *old(self),
            match r {
                Ok(v) => lex(old(self).source()) == Ok::<Seq<TokenView>, LexError>(tokens_view(v@)),
                Err(e) => lex(old(self).source()) == Err::<Seq<TokenView>, LexError>(e),
            },
    {
        let ghost s = self.input@;
        let mut tokens: Vec<Token> = Vec::new();
        let mut i: usize = 0;
        assert(tokens_view(tokens@) =~= Seq::<TokenView>::empty());
        while i < self.input.len()
            invariant
                self.wf(),
                s == self.input@,
                i <= s.len(),
                lex_from(s, 0) == prepend(tokens_view(tokens@), lex_from(s, i as int)),
            decreases s.len() - i,
        {
            match self.scan_token(i) {
                Ok((t, e)) => {
                    let ghost tv = t@;
                    let ghost before = tokens_view(tokens@);
                    tokens.push(t);
                    proof {
                        assert(tokens_view(tokens@) =~= before.push(tv));
                        match lex_from(s, e as int) {
                            Ok(rest) => {
                                assert(before + (seq![tv] + rest) =~= before.push(tv) + rest);
                            },
                            Err(_) => {},
                        }
                    }
                    i = e;
                },
                Err(x) => {
                    return Err(x);
                },
            }
        }
        assert(tokens_view(tokens@) + Seq::<TokenView>::empty() =~= tokens_view(tokens@));
        let ghost before = tokens_view(tokens@);
        tokens.push(Token::EOF);
        assert(tokens_view(tokens@) =~= before.push(TokenView::EOF));
        Ok(tokens)
    }

    /// Hands out the next token and moves the cursor just past it; at the end of the
    /// input, hands out `Token::EOF` and leaves the cursor where it is. On an error
    /// the cursor does not move.
    pub fn next_iter(&mut self) -> (r: Result<Token, LexError>)
        requires
            old(self).wf(),
        ensures
            final(self).wf(),
            final(self).source() == old(self).source(),
            old(self).position() >= old(self).source().len() ==> (r matches Ok(t) && t@
                == TokenView::EOF) && final(self).position() == old(self).position(),
            old(self).position() < old(self).source().len() ==> match r {
                Ok(t) => step(old(self).source(), old(self).position()) == Ok::<
                    (TokenView, int),
                    LexError,
                >((t@, final(self).position())),
                Err(x) => step(old(self).source(), old(self).position()) == Err::<
                    (TokenView, int),
                    LexError,
                >(x) && final(self).position() == old(self).position(),
            },
    {
        if self.cursor >= self.input.len() {
            return Ok(Token::EOF);
        }
        match self.scan_token(self.cursor) {
            Ok((t, e)) => {
                self.cursor = e;
                Ok(t)
            },
            Err(x) => Err(x),
        }
    }

    /// Pulls tokens from the cursor on until the input is used up. The sequence has
    /// no end marker, and pulling again gives nothing until the tokenizer is bound anew.
    pub fn tokenize_iter(&mut self) -> (r: Result<Vec<Token>, LexError>)
        requires
            old(self).wf(),
        ensures
            final(self).wf(),
            final(self).source() == old(self).source(),
            match r {
                Ok(v) => lex_from(old(self).source(), old(self).position()) == Ok::<
                    Seq<TokenView>,
                    LexError,
                >(tokens_view(v@)) && final(self).position() == old(self).source().len(),
                Err(e) => lex_from(old(self).source(), old(self).position()) == Err::<
                    Seq<TokenView>,
                    LexError,
                >(e),
            },
    {
        let ghost s = self.input@;
        let ghost start = self.cursor as int;
        let mut tokens: Vec<Token> = Vec::new();
        assert(tokens_view(tokens@) + lex_from(s, start)->Ok_0 =~= lex_from(s, start)->Ok_0);
        loop
            invariant
                self.wf(),
                s == self.input@,
                s == old(self).source(),
                start == old(self).position(),
                lex_from(s, start) == prepend(tokens_view(tokens@), lex_from(s, self.cursor as int)),
            decreases s.len() - self.cursor,
        {
            let ghost pos = self.cursor as int;
            proof {
                if pos < s.len() {
                    lemma_step_advances(s, pos);
                }
            }
            match self.next_iter() {
                Ok(t) => {
                    if let Token::EOF = t {
                        assert(tokens_view(tokens@) + Seq::<TokenView>::empty() =~= tokens_view(tokens@));
                        return Ok(tokens);
                    }
                    let ghost tv = t@;
                    let ghost before = tokens_view(tokens@);
                    tokens.push(t);
                    proof {
                        assert(tokens_view(tokens@) =~= before.push(tv));
                        match lex_from(s, self.cursor as int) {
                            Ok(rest) => {
                                assert(before + (seq![tv] + rest) =~= before.push(tv) + rest);
                            },
                            Err(_) => {},
                        }
                    }
                },
                Err(x) => {
                    return Err(x);
                },
            }
        }
    }
}

/// The tokens that `tokenize` returns are `lex` of the bound text (its `ensures`), and
/// `lex` is a function of the text: so two tokenizers bound to the same text, or one
/// tokenizer bound to it twice, give the same tokens.
pub proof fn lemma_tokenize_idempotent(first: Tokenizer, second: Tokenizer)
    requires
        first.wf(),
        second.wf(),
        first.source() == second.source(),
    ensures
        lex(first.source()) == lex(second.source()),
{
}

/// A run of spaces is read as one whitespace token that takes in the whole run,
/// however long it is.
pub proof fn lemma_whitespace_run(s: Seq<char>, i: int)
    requires
        0 <= i < s.len(),
        s[i] == ' ',
    ensures
        step(s, i) == Ok::<(TokenView, int), LexError>(
            (TokenView::Whitespace, run_end(s, i, CharClass::Space)),
        ),
        forall|j: int| i <= j < run_end(s, i, CharClass::Space) ==> #[trigger] s[j] == ' ',
        run_end(s, i, CharClass::Space) == s.len() || s[run_end(s, i, CharClass::Space)] != ' ',
{
    lemma_run_end(s, i, CharClass::Space);
}

proof fn lemma_no_adjacent_whitespace_from(s: Seq<char>, i: int)
    requires
        0 <= i <= s.len(),
    ensures
        lex_from(s, i) matches Ok(ts) ==> {
            &&& forall|k: int|
                0 <= k < ts.len() - 1 && #[trigger] ts[k] is Whitespace ==> ts[k + 1] !is Whitespace
            &&& ts.len() > 0 && ts[0] is Whitespace ==> i < s.len() && s[i] == ' '
        },
    decreases s.len() - i,
{
    if i < s.len() {
        lemma_step_advances(s, i);
        if let Ok((t, e)) = step(s, i) {
            lemma_no_adjacent_whitespace_from(s, e);
            if t is Whitespace {
                lemma_run_end(s, i, CharClass::Space);
            }
            if let Ok(rest) = lex_from(s, e) {
                let ts = seq![t] + rest;
                assert forall|k: int|
                    0 <= k < ts.len() - 1 && #[trigger] ts[k] is Whitespace implies ts[k
                    + 1] !is Whitespace by {
                    if k > 0 {
                        assert(ts[k] == rest[k - 1]);
                    }
                }
            }
        }
    }
}

/// Two whitespace tokens never follow each other: each maximal run of spaces gives
/// exactly one.
pub proof fn lemma_no_adjacent_whitespace(s: Seq<char>)
    ensures
        lex(s) matches Ok(ts) ==> forall|k: int|
            0 <= k < ts.len() - 1 && #[trigger] ts[k] is Whitespace ==> ts[k + 1] !is Whitespace,
{
    lemma_no_adjacent_whitespace_from(s, 0);
    if let Ok(ts0) = lex_from(s, 0) {
        let ts = ts0.push(TokenView::EOF);
        assert forall|k: int|
            0 <= k < ts.len() - 1 && #[trigger] ts[k] is Whitespace implies ts[k + 1] !is Whitespace by {
            assert(ts[k] == ts0[k]);
            if k + 1 < ts0.len() {
                assert(ts[k + 1] == ts0[k + 1]);
            }
        }
    }
}

/// Whether a maximal run of spaces starts at position `j`.
pub open spec fn space_run_starts_at(s: Seq<char>, j: int) -> bool {
    0 <= j < s.len() && s[j] == ' ' && (j == 0 || s[j - 1] != ' ')
}

/// The number of maximal runs of spaces that start at position `i` or later.
pub open spec fn space_runs_from(s: Seq<char>, i: int) -> nat
    decreases s.len() - i,
{
    if 0 <= i < s.len() {
        (if space_run_starts_at(s, i) {
            1nat
        } else {
            0nat
        }) + space_runs_from(s, i + 1)
    } else {
        0
    }
}

/// The number of whitespace tokens in a sequence.
pub open spec fn whitespace_count(ts: Seq<TokenView>) -> nat
    decreases ts.len(),
{
    if ts.len() == 0 {
        0
    } else {
        (if ts[0] is Whitespace {
            1nat
        } else {
            0nat
        }) + whitespace_count(ts.drop_first())
    }
}

proof fn lemma_space_runs_skip(s: Seq<char>, i: int, e: int)
    requires
        0 <= i <= e <= s.len(),
        forall|j: int| i <= j < e ==> !space_run_starts_at(s, j),
    ensures
        space_runs_from(s, i) == space_runs_from(s, e),
    decreases e - i,
{
    if i < e {
        lemma_space_runs_skip(s, i + 1, e);
    }
}

proof fn lemma_whitespace_count_push(ts: Seq<TokenView>, t: TokenView)
    requires
        t !is Whitespace,
    ensures
        whitespace_count(ts.push(t)) == whitespace_count(ts),
    decreases ts.len(),
{
    if ts.len() > 0 {
        lemma_whitespace_count_push(ts.drop_first(), t);
        assert(ts.push(t).drop_first() =~= ts.drop_first().push(t));
        assert(ts.push(t)[0] == ts[0]);
    } else {
        assert(ts.push(t).drop_first() =~= Seq::<TokenView>::empty());
        assert(whitespace_count(Seq::<TokenView>::empty()) == 0);
        assert(ts.push(t)[0] == t);
    }
}

proof fn lemma_whitespace_count_from(s: Seq<char>, i: int)
    requires
        0 <= i <= s.len(),
        !(0 < i < s.len() && s[i - 1] == ' ' && s[i] == ' '),
    ensures
        lex_from(s, i) matches Ok(ts) ==> whitespace_count(ts) == space_runs_from(s, i),
    decreases s.len() - i,
{
    if i < s.len() {
        lemma_step_advances(s, i);
        if let Ok((t, e)) = step(s, i) {
            lemma_run_end(s, i, CharClass::WordChar);
            lemma_run_end(s, i, CharClass::Digit);
            lemma_run_end(s, i, CharClass::Space);
            if t is Whitespace {
                assert(s[i] == ' ');
                assert(space_run_starts_at(s, i));
                lemma_space_runs_skip(s, i + 1, e);
            } else {
                assert forall|j: int| i <= j < e implies s[j] != ' ' by {
                    if starts_word(s[i]) {
                        assert(in_class(CharClass::WordChar, s[j]));
                    } else if is_digit(s[i]) {
                        assert(in_class(CharClass::Digit, s[j]));
                    }
                }
                lemma_space_runs_skip(s, i, e);
            }
            lemma_whitespace_count_from(s, e);
            if let Ok(rest) = lex_from(s, e) {
                assert((seq![t] + rest).drop_first() =~= rest);
            }
        }
    }
}

/// Each maximal run of spaces, whatever its length, gives exactly one whitespace token:
/// a text that tokenizes has as many whitespace tokens as it has runs of spaces.
pub proof fn lemma_whitespace_count(s: Seq<char>)
    ensures
        lex(s) matches Ok(ts) ==> whitespace_count(ts) == space_runs_from(s, 0),
{
    lemma_whitespace_count_from(s, 0);
    if let Ok(ts) = lex_from(s, 0) {
        lemma_whitespace_count_push(ts, TokenView::EOF);
    }
}

/// `n` spaces.
pub open spec fn spaces(n: nat) -> Seq<char> {
    Seq::new(n, |_j: int| ' ')
}

/// Two lexing results that both succeed with the same tokens, or both fail (the
/// positions that their errors name may differ).
pub open spec fn same_tokens(
    a: Result<Seq<TokenView>, LexError>,
    b: Result<Seq<TokenView>, LexError>,
) -> bool {
    &&& (a is Ok <==> b is Ok)
    &&& a is Ok ==> a == b
}

proof fn lemma_suffix_split(s1: Seq<char>, i1: int, s2: Seq<char>, i2: int, n: int)
    requires
        0 <= i1 <= s1.len(),
        0 <= i2 <= s2.len(),
        s1.subrange(i1, s1.len() as int) == s2.subrange(i2, s2.len() as int),
        0 <= n <= s1.len() - i1,
    ensures
        s1.len() - i1 == s2.len() - i2,
        s1.subrange(i1 + n, s1.len() as int) == s2.subrange(i2 + n, s2.len() as int),
        s1.subrange(i1, i1 + n) == s2.subrange(i2, i2 + n),
{
    let t1 = s1.subrange(i1, s1.len() as int);
    let t2 = s2.subrange(i2, s2.len() as int);
    assert(t1.len() == t2.len());
    assert(s1.len() - i1 == s2.len() - i2);
    assert forall|x: int| 0 <= x < s1.len() - i1 - n implies #[trigger] s1.subrange(
        i1 + n,
        s1.len() as int,
    )[x] == s2.subrange(i2 + n, s2.len() as int)[x] by {
        assert(t1[n + x] == t2[n + x]);
        assert(t1[n + x] == s1[i1 + n + x]);
        assert(t2[n + x] == s2[i2 + n + x]);
    }
    assert forall|x: int| 0 <= x < n implies #[trigger] s1.subrange(i1, i1 + n)[x] == s2.subrange(
        i2,
        i2 + n,
    )[x] by {
        assert(t1[x] == t2[x]);
        assert(t1[x] == s1[i1 + x]);
        assert(t2[x] == s2[i2 + x]);
    }
    assert(s1.subrange(i1 + n, s1.len() as int) =~= s2.subrange(i2 + n, s2.len() as int));
    assert(s1.subrange(i1, i1 + n) =~= s2.subrange(i2, i2 + n));
}

proof fn lemma_run_end_shift(s1: Seq<char>, i1: int, s2: Seq<char>, i2: int, k: CharClass)
    requires
        0 <= i1 <= s1.len(),
        0 <= i2 <= s2.len(),
        s1.subrange(i1, s1.len() as int) == s2.subrange(i2, s2.len() as int),
    ensures
        run_end(s1, i1, k) - i1 == run_end(s2, i2, k) - i2,
    decreases s1.len() - i1,
{
    lemma_suffix_split(s1, i1, s2, i2, 0);
    if i1 < s1.len() {
        lemma_suffix_split(s1, i1, s2, i2, 1);
        assert(s1[i1] == s1.subrange(i1, i1 + 1)[0]);
        assert(s2[i2] == s2.subrange(i2, i2 + 1)[0]);
        if in_class(k, s1[i1]) {
            lemma_run_end_shift(s1, i1 + 1, s2, i2 + 1, k);
        }
    }
}

/// Lexing from a position looks at what follows it alone.
proof fn lemma_lex_from_shift(s1: Seq<char>, i1: int, s2: Seq<char>, i2: int)
    requires
        0 <= i1 <= s1.len(),
        0 <= i2 <= s2.len(),
        s1.subrange(i1, s1.len() as int) == s2.subrange(i2, s2.len() as int),
    ensures
        same_tokens(lex_from(s1, i1), lex_from(s2, i2)),
    decreases s1.len() - i1,
{
    lemma_suffix_split(s1, i1, s2, i2, 0);
    if i1 < s1.len() {
        lemma_suffix_split(s1, i1, s2, i2, 1);
        lemma_step_advances(s1, i1);
        lemma_step_advances(s2, i2);
        assert(s1[i1] == s1.subrange(i1, i1 + 1)[0]);
        assert(s2[i2] == s2.subrange(i2, i2 + 1)[0]);
        let c = s1[i1];
        lemma_run_end_shift(s1, i1, s2, i2, CharClass::WordChar);
        lemma_run_end_shift(s1, i1, s2, i2, CharClass::Digit);
        lemma_run_end_shift(s1, i1, s2, i2, CharClass::Space);
        lemma_run_end(s1, i1, CharClass::WordChar);
        lemma_run_end(s1, i1, CharClass::Digit);
        if starts_word(c) {
            lemma_suffix_split(s1, i1, s2, i2, run_end(s1, i1, CharClass::WordChar) - i1);
        } else if is_digit(c) {
            lemma_suffix_split(s1, i1, s2, i2, run_end(s1, i1, CharClass::Digit) - i1);
        }
        if let Ok((t1, e1)) = step(s1, i1) {
            let e2 = e1 - i1 + i2;
            assert(step(s2, i2) == Ok::<(TokenView, int), LexError>((t1, e2)));
            lemma_suffix_split(s1, i1, s2, i2, e1 - i1);
            lemma_lex_from_shift(s1, e1, s2, e2);
        }
    }
}

proof fn lemma_run_end_agree(s1: Seq<char>, s2: Seq<char>, i: int, j: int, k: CharClass)
    requires
        0 <= i <= j,
        j < s1.len(),
        j < s2.len(),
        !in_class(k, s1[j]),
        forall|x: int| i <= x <= j ==> s1[x] == s2[x],
    ensures
        run_end(s1, i, k) == run_end(s2, i, k) <= j,
    decreases j - i,
{
    if i < j && in_class(k, s1[i]) {
        lemma_run_end_agree(s1, s2, i + 1, j, k);
    }
}

/// Before a run of spaces that both texts share in place, the two texts are read alike.
proof fn lemma_lex_from_prefix(s1: Seq<char>, s2: Seq<char>, i: int, n: int)
    requires
        0 <= i <= n,
        n < s1.len(),
        n < s2.len(),
        forall|x: int| 0 <= x <= n ==> s1[x] == s2[x],
        s1[n] == ' ',
        n == 0 || s1[n - 1] != ' ',
        same_tokens(lex_from(s1, n), lex_from(s2, n)),
    ensures
        same_tokens(lex_from(s1, i), lex_from(s2, i)),
    decreases n - i,
{
    if i < n {
        let c = s1[i];
        lemma_step_advances(s1, i);
        lemma_run_end(s1, i, CharClass::WordChar);
        lemma_run_end(s1, i, CharClass::Digit);
        if starts_word(c) {
            lemma_run_end_agree(s1, s2, i, n, CharClass::WordChar);
            assert(s1.subrange(i, run_end(s1, i, CharClass::WordChar)) =~= s2.subrange(
                i,
                run_end(s2, i, CharClass::WordChar),
            ));
        } else if is_digit(c) {
            lemma_run_end_agree(s1, s2, i, n, CharClass::Digit);
            assert(s1.subrange(i, run_end(s1, i, CharClass::Digit)) =~= s2.subrange(
                i,
                run_end(s2, i, CharClass::Digit),
            ));
        } else if c == ' ' {
            lemma_run_end_agree(s1, s2, i, n - 1, CharClass::Space);
        }
        assert(step(s1, i) == step(s2, i));
        if let Ok((t, e)) = step(s1, i) {
            lemma_lex_from_prefix(s1, s2, e, n);
        }
    }
}

proof fn lemma_space_run_to(s: Seq<char>, i: int, e: int)
    requires
        0 <= i <= e <= s.len(),
        forall|j: int| i <= j < e ==> s[j] == ' ',
        e == s.len() || s[e] != ' ',
    ensures
        run_end(s, i, CharClass::Space) == e,
    decreases e - i,
{
    if i < e {
        lemma_space_run_to(s, i + 1, e);
    }
}

/// The length of a run of spaces is discarded: replacing one maximal run of spaces by a
/// run of another length leaves the tokens as they were.
pub proof fn lemma_space_run_length_ignored(p: Seq<char>, q: Seq<char>, k: nat, m: nat)
    requires
        k >= 1,
        m >= 1,
        p.len() == 0 || p.last() != ' ',
        q.len() == 0 || q[0] != ' ',
    ensures
        same_tokens(lex(p + spaces(k) + q), lex(p + spaces(m) + q)),
{
    let s1 = p + spaces(k) + q;
    let s2 = p + spaces(m) + q;
    let n = p.len() as int;
    assert forall|j: int| n <= j < n + k implies s1[j] == ' ' by {
        assert(s1[j] == spaces(k)[j - n]);
    }
    assert forall|j: int| n <= j < n + m implies s2[j] == ' ' by {
        assert(s2[j] == spaces(m)[j - n]);
    }
    if q.len() > 0 {
        assert(s1[n + k] == q[0]);
        assert(s2[n + m] == q[0]);
    }
    lemma_space_run_to(s1, n, n + k);
    lemma_space_run_to(s2, n, n + m);
    assert(s1.subrange(n + k, s1.len() as int) =~= q);
    assert(s2.subrange(n + m, s2.len() as int) =~= q);
    lemma_lex_from_shift(s1, n + k, s2, n + m);
    assert(step(s1, n) == Ok::<(TokenView, int), LexError>((TokenView::Whitespace, n + k)));
    assert(step(s2, n) == Ok::<(TokenView, int), LexError>((TokenView::Whitespace, n + m)));
    assert forall|x: int| 0 <= x <= n implies s1[x] == s2[x] by {
        if x < n {
            assert(s1[x] == p[x]);
            assert(s2[x] == p[x]);
        }
    }
    if n > 0 {
        assert(s1[n - 1] == p.last());
    }
    lemma_lex_from_prefix(s1, s2, 0, n);
}

} // verus!
