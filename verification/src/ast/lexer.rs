//! Splits the text of a formula into tokens.

use crate::error::Error;
use crate::text::{alphanumeric, chars_of, whitespace};
use vstd::prelude::*;

verus! {

/// The kinds of token. The three families of bracket are not told apart:
/// `(`, `{` and `[` all open, and `)`, `}` and `]` all close.
#[derive(Debug, PartialEq, Eq, Clone, Copy, Structural)]
pub enum TokenType {
    ForAll,
    Exists,
    And,
    Or,
    Not,
    Implies,
    Iff,
    Identifier,
    Equals,
    NotEquals,
    ParenOpen,
    ParenClose,
    Comma,
    Colon,
}

/// One token: its kind and the text it was read from.
#[derive(Debug)]
pub struct Token {
    pub kind: TokenType,
    pub value: String,
}

/// A token as the contracts see it.
pub struct TokenView {
    pub kind: TokenType,
    pub value: Seq<char>,
}

impl View for Token {
    type V = TokenView;

    open spec fn view(&self) -> TokenView {
        TokenView { kind: self.kind, value: self.value@ }
    }
}

/// The views of a run of tokens.
pub open spec fn token_views(tokens: Seq<Token>) -> Seq<TokenView> {
    tokens.map_values(|t: Token| t@)
}

impl Token {
    pub fn new(kind: TokenType, value: String) -> (token: Self)
        ensures
            token.kind == kind,
            token.value == value,
    {
        Self { kind, value }
    }
}

/// `text` with every occurrence of `pattern` replaced by `symbol`, found
/// from left to right; an occurrence starts only after the previous one ends.
pub open spec fn replace_all(text: Seq<char>, pattern: Seq<char>, symbol: char) -> Seq<char>
    decreases text.len(),
{
    if pattern.len() == 0 || text.len() < pattern.len() {
        text
    } else if text.take(pattern.len() as int) == pattern {
        seq![symbol] + replace_all(text.skip(pattern.len() as int), pattern, symbol)
    } else {
        seq![text[0]] + replace_all(text.skip(1), pattern, symbol)
    }
}

/// The text that is scanned: the ASCII spellings `<=>`, `=>` and `~=` give
/// way to the symbols they stand for, in that order.
pub open spec fn normalize(text: Seq<char>) -> Seq<char> {
    replace_all(
        replace_all(replace_all(text, seq!['<', '=', '>'], '⇔'), seq!['=', '>'], '⇒'),
        seq!['~', '='],
        '≠',
    )
}

/// The kind of the token that the single character `c` makes, if it makes one.
pub open spec fn symbol_kind(c: char) -> Option<TokenType> {
    if c == '∀' || c == '!' {
        Some(TokenType::ForAll)
    } else if c == '∃' || c == '?' {
        Some(TokenType::Exists)
    } else if c == '∧' || c == '&' {
        Some(TokenType::And)
    } else if c == '∨' || c == '|' {
        Some(TokenType::Or)
    } else if c == '¬' || c == '~' {
        Some(TokenType::Not)
    } else if c == '⇒' {
        Some(TokenType::Implies)
    } else if c == '⇔' {
        Some(TokenType::Iff)
    } else if c == '(' || c == '{' || c == '[' {
        Some(TokenType::ParenOpen)
    } else if c == ')' || c == '}' || c == ']' {
        Some(TokenType::ParenClose)
    } else if c == ',' {
        Some(TokenType::Comma)
    } else if c == ':' {
        Some(TokenType::Colon)
    } else if c == '=' {
        Some(TokenType::Equals)
    } else if c == '≠' {
        Some(TokenType::NotEquals)
    } else {
        None
    }
}

/// The first position from `pos` on that holds no whitespace, or the end.
pub open spec fn skip_whitespace(text: Seq<char>, pos: nat) -> nat
    decreases text.len() - pos,
{
    if pos < text.len() && whitespace(text[pos as int]) {
        skip_whitespace(text, pos + 1)
    } else {
        pos
    }
}

/// The first position from `pos` on that holds no letter or digit, or the end.
pub open spec fn identifier_end(text: Seq<char>, pos: nat) -> nat
    decreases text.len() - pos,
{
    if pos < text.len() && alphanumeric(text[pos as int]) {
        identifier_end(text, pos + 1)
    } else {
        pos
    }
}

/// What one step of scanning from `pos` gives: `Ok(None)` at the end of the
/// text, else the next token with the position behind it, or the character
/// that starts no token.
pub open spec fn scan(text: Seq<char>, pos: nat) -> Result<Option<(TokenView, nat)>, Error> {
    let start = skip_whitespace(text, pos);
    if start >= text.len() {
        Ok(None)
    } else {
        let c = text[start as int];
        if symbol_kind(c) is Some {
            Ok(Some((TokenView { kind: symbol_kind(c)->0, value: seq![c] }, start + 1)))
        } else if alphanumeric(c) {
            let end = identifier_end(text, start);
            Ok(
                Some(
                    (
                        TokenView {
                            kind: TokenType::Identifier,
                            value: text.subrange(start as int, end as int),
                        },
                        end,
                    ),
                ),
            )
        } else {
            Err(Error::UnexpectedCharacter { character: c, position: start as usize })
        }
    }
}

/// Skipping whitespace moves forward and stays inside the text.
pub proof fn lemma_skip_whitespace_bounds(text: Seq<char>, pos: nat)
    requires
        pos <= text.len(),
    ensures
        pos <= skip_whitespace(text, pos) <= text.len(),
    decreases text.len() - pos,
{
    if pos < text.len() && whitespace(text[pos as int]) {
        lemma_skip_whitespace_bounds(text, pos + 1);
    }
}

/// An identifier ends behind its start and inside the text.
pub proof fn lemma_identifier_end_bounds(text: Seq<char>, pos: nat)
    requires
        pos <= text.len(),
    ensures
        pos <= identifier_end(text, pos) <= text.len(),
        pos < text.len() && alphanumeric(text[pos as int]) ==> pos < identifier_end(text, pos),
    decreases text.len() - pos,
{
    if pos < text.len() && alphanumeric(text[pos as int]) {
        lemma_identifier_end_bounds(text, pos + 1);
    }
}

/// A token that `scan` finds ends behind `pos` and inside the text.
pub proof fn lemma_scan_advances(text: Seq<char>, pos: nat)
    requires
        pos <= text.len(),
    ensures
        scan(text, pos) matches Ok(Some((_, next))) ==> pos < next <= text.len(),
{
    lemma_skip_whitespace_bounds(text, pos);
    lemma_identifier_end_bounds(text, skip_whitespace(text, pos));
}

/// The tokens of `text` from `pos` on, or the first character that starts
/// no token.
pub open spec fn scan_all(text: Seq<char>, pos: nat) -> Result<Seq<TokenView>, Error>
    decreases text.len() - pos,
{
    if pos <= text.len() {
        match scan(text, pos) {
            Ok(None) => Ok(Seq::empty()),
            Ok(Some((token, next))) => {
                proof {
                    lemma_scan_advances(text, pos);
                }
                match scan_all(text, next) {
                    Ok(rest) => Ok(seq![token] + rest),
                    Err(e) => Err(e),
                }
            },
            Err(e) => Err(e),
        }
    } else {
        Ok(Seq::empty())
    }
}

/// The tokens of a formula, or the first character of its normalized text
/// that starts no token.
pub open spec fn tokens_of(input: Seq<char>) -> Result<Seq<TokenView>, Error> {
    scan_all(normalize(input), 0)
}

/// A cursor over the normalized text of a formula.
pub struct Lexer {
    input: Vec<char>,
    current_pos: usize,
}

/// The one-character token kinds, as `symbol_kind` lists them.
fn symbol(c: char) -> (kind: Option<TokenType>)
    ensures
        kind == symbol_kind(c),
{
    match c {
        '∀' | '!' => Some(TokenType::ForAll),
        '∃' | '?' => Some(TokenType::Exists),
        '∧' | '&' => Some(TokenType::And),
        '∨' | '|' => Some(TokenType::Or),
        '¬' | '~' => Some(TokenType::Not),
        '⇒' => Some(TokenType::Implies),
        '⇔' => Some(TokenType::Iff),
        '(' | '{' | '[' => Some(TokenType::ParenOpen),
        ')' | '}' | ']' => Some(TokenType::ParenClose),
        ',' => Some(TokenType::Comma),
        ':' => Some(TokenType::Colon),
        '=' => Some(TokenType::Equals),
        '≠' => Some(TokenType::NotEquals),
        _ => None,
    }
}

/// Whether `pattern` stands in `text` at `at`.
fn matches_at(text: &Vec<char>, at: usize, pattern: &Vec<char>) -> (found: bool)
    requires
        at <= text.len(),
    ensures
        found == (pattern.len() <= text.len() - at && text@.skip(at as int).take(
            pattern.len() as int,
        ) == pattern@),
{
    if pattern.len() > text.len() - at {
        return false;
    }
    let mut k: usize = 0;
    while k < pattern.len()
        invariant
            at + pattern.len() <= text.len(),
            k <= pattern.len(),
            forall|j: int| 0 <= j < k ==> text@[at + j] == pattern@[j],
        decreases pattern.len() - k,
    {
        if text[at + k] != pattern[k] {
            assert(text@.skip(at as int).take(pattern.len() as int)[k as int]
                != pattern@[k as int]);
            return false;
        }
        k += 1;
    }
    assert(text@.skip(at as int).take(pattern.len() as int) =~= pattern@);
    true
}

/// Replaces each occurrence of `pattern` in `text` by `symbol`.
fn replace(text: &Vec<char>, pattern: &Vec<char>, symbol: char) -> (replaced: Vec<char>)
    requires
        pattern.len() > 0,
    ensures
        replaced@ == replace_all(text@, pattern@, symbol),
{
    let mut replaced: Vec<char> = Vec::new();
    let mut i: usize = 0;
    assert(text@.skip(0) =~= text@);
    assert(replaced@ + replace_all(text@, pattern@, symbol) =~= replace_all(
        text@,
        pattern@,
        symbol,
    ));
    while i < text.len()
        invariant
            i <= text.len(),
            pattern.len() > 0,
            replaced@ + replace_all(text@.skip(i as int), pattern@, symbol) == replace_all(
                text@,
                pattern@,
                symbol,
            ),
        decreases text.len() - i,
    {
        let ghost rest = text@.skip(i as int);
        let ghost before = replaced@;
        if matches_at(text, i, pattern) {
            replaced.push(symbol);
            i += pattern.len();
            proof {
                assert(rest.skip(pattern.len() as int) =~= text@.skip(i as int));
                assert(replaced@ + replace_all(text@.skip(i as int), pattern@, symbol) =~= before
                    + replace_all(rest, pattern@, symbol));
            }
        } else {
            replaced.push(text[i]);
            i += 1;
            proof {
                assert(rest.skip(1) =~= text@.skip(i as int));
                assert(replaced@ + replace_all(text@.skip(i as int), pattern@, symbol) =~= before
                    + replace_all(rest, pattern@, symbol));
            }
        }
    }
    assert(text@.skip(i as int) =~= Seq::<char>::empty());
    assert(replaced@ + Seq::<char>::empty() =~= replaced@);
    replaced
}

impl Lexer {
    #[verifier::type_invariant]
    spec fn cursor_in_text(self) -> bool {
        self.current_pos <= self.input.len()
    }

    /// The normalized text that is scanned.
    pub closed spec fn text(&self) -> Seq<char> {
        self.input@
    }

    /// How many characters lie behind the cursor.
    pub closed spec fn position(&self) -> nat {
        self.current_pos as nat
    }

    /// A lexer at the start of the normalized text of `input`.
    pub fn new(input: &str) -> (lexer: Self)
        ensures
            lexer.text() == normalize(input@),
            lexer.position() == 0,
    {
        let raw = chars_of(input);
        let iff = replace(&raw, &vec!['<', '=', '>'], '⇔');
        let implies = replace(&iff, &vec!['=', '>'], '⇒');
        let not_equals = replace(&implies, &vec!['~', '='], '≠');
        Self { input: not_equals, current_pos: 0 }
    }

    /// All the tokens from the cursor on, which then stands at the end.
    /// When a character starts no token, nothing is returned but that
    /// failure, and the cursor stops at the character.
    pub fn tokenize(&mut self) -> (result: Result<Vec<Token>, Error>)
        ensures
            final(self).text() == old(self).text(),
            match scan_all(old(self).text(), old(self).position()) {
                Ok(tokens) => {
                    &&& result is Ok
                    &&& token_views(result->Ok_0@) == tokens
                    &&& final(self).position() == old(self).text().len()
                },
                Err(e) => {
                    &&& result == Err::<Vec<Token>, Error>(e)
                    &&& e matches Error::UnexpectedCharacter { character, position }
                    &&& final(self).position() == position
                    &&& position < old(self).text().len()
                    &&& character == old(self).text()[position as int]
                },
            },
    {
        let mut tokens: Vec<Token> = Vec::new();
        proof {
            use_type_invariant(&*self);
        }
        loop
            invariant
                self.text() == old(self).text(),
                self.position() <= self.text().len(),
                match scan_all(self.text(), self.position()) {
                    Ok(rest) => scan_all(old(self).text(), old(self).position()) == Ok::<
                        Seq<TokenView>,
                        Error,
                    >(token_views(tokens@) + rest),
                    Err(e) => scan_all(old(self).text(), old(self).position()) == Err::<
                        Seq<TokenView>,
                        Error,
                    >(e),
                },
            decreases self.text().len() - self.position(),
        {
            let ghost before = self.position();
            let ghost seen = token_views(tokens@);
            proof {
                lemma_scan_advances(self.text(), before);
            }
            match self.next_token() {
                Ok(Some(token)) => {
                    tokens.push(token);
                    proof {
                        assert(token_views(tokens@) =~= seen.push(token@));
                        match scan_all(self.text(), self.position()) {
                            Ok(rest) => {
                                assert(seen + (seq![token@] + rest) =~= token_views(tokens@)
                                    + rest);
                            },
                            Err(e) => {},
                        }
                    }
                },
                Ok(None) => {
                    proof {
                        assert(seen + Seq::<TokenView>::empty() =~= seen);
                    }
                    return Ok(tokens);
                },
                Err(e) => {
                    return Err(e);
                },
            }
        }
    }

    /// The next token behind any whitespace, `Ok(None)` at the end of the
    /// text, or the character that starts no token. The cursor moves behind
    /// the token; on a failure it stops at the offending character.
    pub fn next_token(&mut self) -> (result: Result<Option<Token>, Error>)
        ensures
            final(self).text() == old(self).text(),
            match scan(old(self).text(), old(self).position()) {
                Ok(Some((token, next))) => {
                    &&& result matches Ok(Some(found))
                    &&& found@ == token
                    &&& final(self).position() == next
                },
                Ok(None) => {
                    &&& result matches Ok(None)
                    &&& final(self).position() == old(self).text().len()
                },
                Err(e) => {
                    &&& result == Err::<Option<Token>, Error>(e)
                    &&& final(self).position() == skip_whitespace(
                        old(self).text(),
                        old(self).position(),
                    )
                },
            },
    {
        proof {
            use_type_invariant(&*self);
            lemma_skip_whitespace_bounds(self.text(), self.position());
        }
        self.drop_spaces();
        match self.current_char() {
            None => Ok(None),
            Some(c) => match symbol(c) {
                Some(kind) => Ok(Some(Token::new(kind, self.consume()))),
                None => if c.is_alphanumeric() {
                    Ok(Some(self.read_identifier()))
                } else {
                    Err(Error::UnexpectedCharacter { character: c, position: self.current_pos })
                },
            },
        }
    }

    /// The character under the cursor, if the text has not ended.
    fn current_char(&self) -> (c: Option<char>)
        ensures
            c == if self.position() < self.text().len() {
                Some(self.text()[self.position() as int])
            } else {
                None
            },
    {
        if self.current_pos < self.input.len() {
            Some(self.input[self.current_pos])
        } else {
            None
        }
    }

    /// Moves the cursor over any whitespace.
    fn drop_spaces(&mut self)
        ensures
            final(self).text() == old(self).text(),
            final(self).position() == skip_whitespace(old(self).text(), old(self).position()),
    {
        proof {
            use_type_invariant(&*self);
        }
        while self.current_pos < self.input.len() && self.input[self.current_pos].is_whitespace()
            invariant
                self.input == old(self).input,
                self.current_pos <= self.input.len(),
                skip_whitespace(self.input@, self.current_pos as nat) == skip_whitespace(
                    old(self).input@,
                    old(self).current_pos as nat,
                ),
            decreases self.input.len() - self.current_pos,
        {
            self.current_pos += 1;
        }
    }

    /// Reads the run of letters and digits under the cursor.
    fn read_identifier(&mut self) -> (token: Token)
        ensures
            final(self).text() == old(self).text(),
            final(self).position() == identifier_end(old(self).text(), old(self).position()),
            token.kind == TokenType::Identifier,
            token.value@ == old(self).text().subrange(
                old(self).position() as int,
                final(self).position() as int,
            ),
    {
        proof {
            use_type_invariant(&*self);
        }
        let mut string = String::new();
        while self.current_pos < self.input.len() && self.input[self.current_pos].is_alphanumeric()
            invariant
                self.input@ == old(self).input@,
                old(self).current_pos <= self.current_pos <= self.input.len(),
                identifier_end(self.input@, self.current_pos as nat) == identifier_end(
                    old(self).input@,
                    old(self).current_pos as nat,
                ),
                string@ == self.input@.subrange(
                    old(self).current_pos as int,
                    self.current_pos as int,
                ),
            decreases self.input.len() - self.current_pos,
        {
            let ghost before = string@;
            let piece = self.consume();
            string.append(piece.as_str());
            assert(string@ =~= self.input@.subrange(
                old(self).current_pos as int,
                self.current_pos as int,
            ));
        }
        Token::new(TokenType::Identifier, string)
    }

    /// Steps over the character under the cursor and returns it as a string.
    fn consume(&mut self) -> (piece: String)
        requires
            old(self).position() < old(self).text().len(),
        ensures
            final(self).text() == old(self).text(),
            final(self).position() == old(self).position() + 1,
            piece@ == seq![old(self).text()[old(self).position() as int]],
    {
        assert(self.current_pos < self.input.len());
        let c = self.input[self.current_pos];
        self.current_pos += 1;
        let mut piece = String::new();
        piece.push(c);
        assert(piece@ =~= seq![c]);
        piece
    }
}

} // verus!
