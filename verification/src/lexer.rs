//! The lexer: turns markup text into a sequence of typed tokens carrying
//! zero-based source positions.  A single mode flag (`in_tag`) decides whether
//! an identifier run may include plain spaces (free text between tags) or is
//! terminated by them (names inside a tag).

use vstd::prelude::*;

verus! {

broadcast use vstd::seq::group_seq_axioms, vstd::seq_lib::group_seq_lib_default;

/// A zero-based (line, column) source position.  The column is advanced once
/// per consumed character and reset to 0 on each newline.
#[derive(Debug, Clone, Copy, PartialEq, Eq, Structural)]
pub struct Position {
    pub line: usize,
    pub col: usize,
}

/// The closed set of token kinds the lexer produces.
#[derive(Debug, Clone, Copy, PartialEq, Eq, Structural)]
pub enum TokenType {
    LeftAngle,
    RightAngle,
    Stroke,
    Equals,
    Identifier,
    Literal,
    Bang,
    Dash,
}

/// One lexed token: its kind, the position of its first character, and the
/// consumed text (without quotes, for literals).
#[derive(Debug, Clone)]
pub struct Token {
    pub token_type: TokenType,
    pub position: Position,
    pub content: String,
}

/// The mathematical image of a [`Token`]: the content is a character sequence.
pub struct TokenV {
    pub kind: TokenType,
    pub pos: Position,
    pub content: Seq<char>,
}

impl View for Token {
    type V = TokenV;

    open spec fn view(&self) -> TokenV {
        TokenV { kind: self.token_type, pos: self.position, content: self.content@ }
    }
}

impl Token {
    pub fn new(token_type: TokenType, position: Position, content: String) -> (t: Token)
        ensures
            t@ == (TokenV { kind: token_type, pos: position, content: content@ }),
    {
        Token { token_type, position, content }
    }
}

/// The view of a whole token list.
pub open spec fn tokens_view(ts: Seq<Token>) -> Seq<TokenV> {
    ts.map_values(|t: Token| t@)
}

/// Everything that can make lexing fail.
#[derive(Debug, Clone, PartialEq, Eq)]
pub enum TokenizeError {
    /// A quoted literal ran into a raw newline or the end of input before
    /// its closing quote.
    UnclosedLiteral,
    /// A backslash-escaped newline appeared inside a quoted literal.
    UnexpectedEndOfLine,
    /// A character matched no lexing rule.
    UnexpectedChar(char, Position),
    /// Input ended inside a construct (such as a comment) that needs more.
    UnexpectedEndOfFile,
}

/// What `char::is_alphanumeric` returns: a function of the character alone.
pub uninterp spec fn alphanumeric(c: char) -> bool;

/// Relies on `char::is_alphanumeric` (core): whether the character is in the
/// Unicode classes Alphabetic or Nd/Nl/No; the result depends on the
/// character alone.
pub assume_specification[ char::is_alphanumeric ](c: char) -> (r: bool)
    ensures
        r == alphanumeric(c),
;

/// Relies on `String::push` (alloc): appends exactly the given character.
#[verifier::external_body]
fn push_char(s: &mut String, c: char)
    ensures
        final(s)@ == old(s)@.push(c),
{
    s.push(c);
}

/// A character that may stand inside an identifier run.  Outside a tag, plain
/// spaces are included, so free text lexes as one identifier token.
pub open spec fn is_ident_char(c: char, in_tag: bool) -> bool {
    alphanumeric(c) || c == '_' || (!in_tag && c == ' ')
}

/// The first index at or after `i` that does not hold an identifier character
/// (or the end of the text).
pub open spec fn ident_end(text: Seq<char>, i: int, in_tag: bool) -> int
    decreases text.len() - i,
{
    if i < 0 || i >= text.len() {
        i
    } else if is_ident_char(text[i], in_tag) {
        ident_end(text, i + 1, in_tag)
    } else {
        i
    }
}

pub proof fn lemma_ident_end_bounds(text: Seq<char>, i: int, in_tag: bool)
    requires
        0 <= i <= text.len(),
    ensures
        i <= ident_end(text, i, in_tag) <= text.len(),
    decreases text.len() - i,
{
    if i < text.len() && is_ident_char(text[i], in_tag) {
        lemma_ident_end_bounds(text, i + 1, in_tag);
    }
}

/// Whether the four-character comment opener stands at index `i`.
pub open spec fn comment_opens(text: Seq<char>, i: int) -> bool {
    &&& i + 4 <= text.len()
    &&& text[i] == '<'
    &&& text[i + 1] == '!'
    &&& text[i + 2] == '-'
    &&& text[i + 3] == '-'
}

/// Whether the three-character comment closer stands at index `j`.
pub open spec fn comment_closes(text: Seq<char>, j: int) -> bool {
    &&& j + 3 <= text.len()
    &&& text[j] == '-'
    &&& text[j + 1] == '-'
    &&& text[j + 2] == '>'
}

/// The first index at or after `j` where the comment closer stands, if any.
pub open spec fn comment_close_from(text: Seq<char>, j: int) -> Option<int>
    decreases text.len() - j,
{
    if j >= text.len() {
        None
    } else if comment_closes(text, j) {
        Some(j)
    } else {
        comment_close_from(text, j + 1)
    }
}

pub proof fn lemma_comment_close_bounds(text: Seq<char>, j: int)
    requires
        0 <= j,
    ensures
        comment_close_from(text, j) matches Some(k) ==> j <= k && k + 3 <= text.len(),
    decreases text.len() - j,
{
    if j < text.len() && !comment_closes(text, j) {
        lemma_comment_close_bounds(text, j + 1);
    }
}

/// The position after consuming `text[from..to]`: the column advances once
/// per character, and each newline resets it to 0 and advances the line.
pub open spec fn pos_after(text: Seq<char>, from: int, to: int, line: int, col: int) -> (
    int,
    int,
)
    decreases to - from,
{
    if from >= to {
        (line, col)
    } else if text[from] == '\n' {
        pos_after(text, from + 1, to, line + 1, 0)
    } else {
        pos_after(text, from + 1, to, line, col + 1)
    }
}

/// Position tracking over a range composes at any midpoint.
pub proof fn lemma_pos_after_split(
    text: Seq<char>,
    from: int,
    mid: int,
    to: int,
    line: int,
    col: int,
)
    requires
        from <= mid <= to,
    ensures
        pos_after(text, from, to, line, col) == ({
            let p = pos_after(text, from, mid, line, col);
            pos_after(text, mid, to, p.0, p.1)
        }),
    decreases mid - from,
{
    if from < mid {
        if text[from] == '\n' {
            lemma_pos_after_split(text, from + 1, mid, to, line + 1, 0);
        } else {
            lemma_pos_after_split(text, from + 1, mid, to, line, col + 1);
        }
    }
}

/// The outcome of scanning a quoted literal's body.
pub enum LiteralScan {
    /// A backslash immediately followed by `n` was seen first.
    EscapedNewline,
    /// A raw newline or the end of input was reached before the quote.
    Unterminated,
    /// The matching quote character stands at this (absolute) index.
    Closed(int),
}

/// Scan forward from index `j` for the matching quote `q`.  `esc` records
/// whether the previous character was a backslash.
pub open spec fn literal_scan(text: Seq<char>, q: char, j: int, esc: bool) -> LiteralScan
    decreases text.len() - j,
{
    if j < 0 || j >= text.len() {
        LiteralScan::Unterminated
    } else {
        let c = text[j];
        if esc && c == 'n' {
            LiteralScan::EscapedNewline
        } else if c == '\n' {
            LiteralScan::Unterminated
        } else if c == q {
            LiteralScan::Closed(j)
        } else {
            literal_scan(text, q, j + 1, c == '\\')
        }
    }
}

pub proof fn lemma_literal_scan_bounds(text: Seq<char>, q: char, j: int, esc: bool)
    requires
        0 <= j,
    ensures
        literal_scan(text, q, j, esc) matches LiteralScan::Closed(k) ==> j <= k
            && k < text.len(),
    decreases text.len() - j,
{
    if j < text.len() {
        let c = text[j];
        if !(esc && c == 'n') && c != '\n' && c != q {
            lemma_literal_scan_bounds(text, q, j + 1, c == '\\');
        }
    }
}

/// Prepend one token to a lexing outcome.
pub open spec fn cons_tok(t: TokenV, rest: Result<Seq<TokenV>, TokenizeError>) -> Result<
    Seq<TokenV>,
    TokenizeError,
> {
    match rest {
        Ok(ts) => Ok(seq![t] + ts),
        Err(e) => Err(e),
    }
}

/// The whole lexer, as one recursive definition: the tokens produced from
/// index `i` onward, starting at the given position and mode, or the first
/// error.  Comments are discarded entirely, producing no token, while the
/// position advances across them character by character like everywhere
/// else.
pub open spec fn spec_tokenize(
    text: Seq<char>,
    i: int,
    line: int,
    col: int,
    in_tag: bool,
) -> Result<Seq<TokenV>, TokenizeError>
    decreases text.len() - i,
{
    if i < 0 || i >= text.len() {
        Ok(Seq::empty())
    } else {
        let c = text[i];
        let pos = Position { line: line as usize, col: col as usize };
        if c == '<' {
            if comment_opens(text, i) {
                proof {
                    lemma_comment_close_bounds(text, i + 4);
                }
                match comment_close_from(text, i + 4) {
                    None => Err(TokenizeError::UnexpectedEndOfFile),
                    Some(j) => {
                        let p = pos_after(text, i, j + 3, line, col);
                        spec_tokenize(text, j + 3, p.0, p.1, in_tag)
                    },
                }
            } else {
                cons_tok(
                    TokenV { kind: TokenType::LeftAngle, pos, content: seq!['<'] },
                    spec_tokenize(text, i + 1, line, col + 1, true),
                )
            }
        } else if c == '>' {
            cons_tok(
                TokenV { kind: TokenType::RightAngle, pos, content: seq!['>'] },
                spec_tokenize(text, i + 1, line, col + 1, false),
            )
        } else if c == '/' {
            cons_tok(
                TokenV { kind: TokenType::Stroke, pos, content: seq!['/'] },
                spec_tokenize(text, i + 1, line, col + 1, in_tag),
            )
        } else if c == '=' {
            cons_tok(
                TokenV { kind: TokenType::Equals, pos, content: seq!['='] },
                spec_tokenize(text, i + 1, line, col + 1, in_tag),
            )
        } else if c == '!' {
            cons_tok(
                TokenV { kind: TokenType::Bang, pos, content: seq!['!'] },
                spec_tokenize(text, i + 1, line, col + 1, in_tag),
            )
        } else if c == '-' {
            cons_tok(
                TokenV { kind: TokenType::Dash, pos, content: seq!['-'] },
                spec_tokenize(text, i + 1, line, col + 1, in_tag),
            )
        } else if c == ' ' {
            spec_tokenize(text, i + 1, line, col + 1, in_tag)
        } else if c == '\n' {
            spec_tokenize(text, i + 1, line + 1, 0, in_tag)
        } else if alphanumeric(c) {
            let e = ident_end(text, i, in_tag);
            proof {
                lemma_ident_end_bounds(text, i + 1, in_tag);
            }
            cons_tok(
                TokenV { kind: TokenType::Identifier, pos, content: text.subrange(i, e) },
                spec_tokenize(text, e, line, col + (e - i), in_tag),
            )
        } else if c == '"' || c == '\'' {
            proof {
                lemma_literal_scan_bounds(text, c, i + 1, false);
            }
            match literal_scan(text, c, i + 1, false) {
                LiteralScan::EscapedNewline => Err(TokenizeError::UnexpectedEndOfLine),
                LiteralScan::Unterminated => Err(TokenizeError::UnclosedLiteral),
                LiteralScan::Closed(k) => cons_tok(
                    TokenV { kind: TokenType::Literal, pos, content: text.subrange(i + 1, k) },
                    spec_tokenize(text, k + 1, line, col + (k + 1 - i), in_tag),
                ),
            }
        } else {
            Err(TokenizeError::UnexpectedChar(c, pos))
        }
    }
}

/// The position-tracking lexer.  It holds the whole input as characters, a
/// cursor, the running position, the tag-mode flag, and the tokens produced
/// so far.
pub struct Tokenizer {
    text: Vec<char>,
    current_line: usize,
    current_column: usize,
    index: usize,
    in_tag: bool,
    tokens: Vec<Token>,
}

/// The mathematical image of the lexer state.
pub struct TokenizerV {
    pub text: Seq<char>,
    pub line: int,
    pub col: int,
    pub i: int,
    pub in_tag: bool,
    pub tokens: Seq<TokenV>,
}

impl View for Tokenizer {
    type V = TokenizerV;

    closed spec fn view(&self) -> TokenizerV {
        TokenizerV {
            text: self.text@,
            line: self.current_line as int,
            col: self.current_column as int,
            i: self.index as int,
            in_tag: self.in_tag,
            tokens: tokens_view(self.tokens@),
        }
    }
}

impl Tokenizer {
    /// Position counters never outrun the cursor, and the cursor never
    /// outruns the text; this is what keeps every advance free of overflow.
    pub open spec fn wf(&self) -> bool {
        &&& self@.col <= self@.i
        &&& self@.line <= self@.i
        &&& self@.i <= self@.text.len()
        &&& self@.text.len() <= usize::MAX
    }

    /// Build a lexer over the given markup text, at the start position.
    pub fn new(html: String) -> (t: Tokenizer)
        ensures
            t@ == (TokenizerV {
                text: html@,
                line: 0,
                col: 0,
                i: 0,
                in_tag: false,
                tokens: Seq::empty(),
            }),
            t.wf(),
    {
        let text = chars_of(html.as_str());
        let t = Tokenizer {
            current_column: 0,
            current_line: 0,
            text,
            index: 0,
            in_tag: false,
            tokens: Vec::new(),
        };
        proof {
            assert(t@.tokens =~= Seq::<TokenV>::empty());
        }
        t
    }

    /// The tokens produced so far.
    pub fn tokens(&self) -> (r: &Vec<Token>)
        ensures
            tokens_view(r@) == self@.tokens,
    {
        &self.tokens
    }
}

impl Tokenizer {
    /// Whether any input is left at the cursor.
    fn more_tokens(&self) -> (r: bool)
        ensures
            r == (self@.i < self@.text.len()),
    {
        self.text.len() > self.index
    }

    /// Move the cursor and the column forward by `step` characters.
    fn advance(&mut self, step: usize) -> (r: Result<(), TokenizeError>)
        requires
            old(self).wf(),
            1 <= step,
            old(self)@.i + step <= old(self)@.text.len(),
        ensures
            r is Ok,
            final(self).wf(),
            final(self)@ == (TokenizerV {
                i: old(self)@.i + step,
                col: old(self)@.col + step,
                ..old(self)@
            }),
    {
        if self.more_tokens() {
            self.index = self.index + step;
            self.current_column = self.current_column + step;
            Ok(())
        } else {
            Err(TokenizeError::UnexpectedEndOfFile)
        }
    }

    /// Reset the column and advance the line counter.
    fn next_line(&mut self)
        requires
            old(self)@.line + 1 <= old(self)@.i,
        ensures
            final(self)@ == (TokenizerV { line: old(self)@.line + 1, col: 0, ..old(self)@ }),
    {
        self.current_column = 0;
        self.current_line = self.current_line + 1;
    }

    /// The greedy identifier run that starts at the cursor.
    fn identifier(&self) -> (r: String)
        requires
            self.wf(),
        ensures
            r@ == self@.text.subrange(self@.i, ident_end(self@.text, self@.i, self@.in_tag)),
    {
        let text_len = self.text.len();
        let mut j: usize = self.index;
        while j < text_len && ident_char(self.text[j], self.in_tag)
            invariant
                self.wf(),
                text_len == self@.text.len(),
                self@.i <= j <= text_len,
                ident_end(self@.text, self@.i, self@.in_tag) == ident_end(
                    self@.text,
                    j as int,
                    self@.in_tag,
                ),
            decreases text_len - j,
        {
            j = j + 1;
        }
        proof {
            assert(ident_end(self@.text, j as int, self@.in_tag) == j);
        }
        copy_range(&self.text, self.index, j)
    }

    /// Scan a quoted literal whose opening quote stands at the cursor; on
    /// success return its body and step past body and both quotes.
    fn literal(&mut self, quote_char: char) -> (r: Result<String, TokenizeError>)
        requires
            old(self).wf(),
            old(self)@.i < old(self)@.text.len(),
        ensures
            final(self).wf(),
            final(self)@.text == old(self)@.text,
            final(self)@.line == old(self)@.line,
            final(self)@.in_tag == old(self)@.in_tag,
            final(self)@.tokens == old(self)@.tokens,
            ({
                let text = old(self)@.text;
                let i = old(self)@.i;
                match literal_scan(text, quote_char, i + 1, false) {
                    LiteralScan::EscapedNewline => r == Err::<String, TokenizeError>(
                        TokenizeError::UnexpectedEndOfLine,
                    ) && final(self)@ == old(self)@,
                    LiteralScan::Unterminated => r == Err::<String, TokenizeError>(
                        TokenizeError::UnclosedLiteral,
                    ),
                    LiteralScan::Closed(k) => {
                        &&& final(self)@.i == i + 2
                        &&& final(self)@.col == old(self)@.col + 2
                        &&& r matches Ok(s) && s@ == text.subrange(i + 1, k)
                    },
                }
            }),
    {
        let ghost text = self@.text;
        let ghost i0 = self@.i;
        let text_len = self.text.len();
        let start = self.index;
        if start + 1 >= text_len {
            return Err(TokenizeError::UnclosedLiteral);
        }
        let mut j: usize = start + 1;
        let mut esc: bool = false;
        while j < text_len
            invariant
                self.wf(),
                self@ == old(self)@,
                text == self@.text,
                i0 == self@.i,
                text_len == text.len(),
                start == self.index,
                start + 1 <= j <= text_len,
                literal_scan(text, quote_char, i0 + 1, false) == literal_scan(
                    text,
                    quote_char,
                    j as int,
                    esc,
                ),
            decreases text_len - j,
        {
            let c = self.text[j];
            if esc && c == 'n' {
                return Err(TokenizeError::UnexpectedEndOfLine);
            }
            if c == '\n' {
                self.advance(2)?;
                return Err(TokenizeError::UnclosedLiteral);
            }
            if c == quote_char {
                proof {
                    assert(literal_scan(text, quote_char, i0 + 1, false)
                        == LiteralScan::Closed(j as int));
                }
                let content = copy_range(&self.text, start + 1, j);
                self.advance(2)?;
                return Ok(content);
            }
            esc = c == '\\';
            j = j + 1;
        }
        self.advance(2)?;
        Err(TokenizeError::UnclosedLiteral)
    }

    /// Skip forward past the three-character comment closer, or fail when
    /// the input ends first.  The position counters advance over the
    /// discarded interior character by character, newlines included.
    fn skip_comment(&mut self) -> (r: Result<(), TokenizeError>)
        requires
            old(self).wf(),
        ensures
            final(self).wf(),
            final(self)@.text == old(self)@.text,
            final(self)@.in_tag == old(self)@.in_tag,
            final(self)@.tokens == old(self)@.tokens,
            ({
                let text = old(self)@.text;
                let i = old(self)@.i;
                match comment_close_from(text, i) {
                    None => r == Err::<(), TokenizeError>(TokenizeError::UnexpectedEndOfFile),
                    Some(k) => {
                        &&& r is Ok
                        &&& final(self)@.i == k + 3
                        &&& ({
                            let p = pos_after(text, i, k + 3, old(self)@.line, old(self)@.col);
                            final(self)@.line == p.0 && final(self)@.col == p.1
                        })
                    },
                }
            }),
    {
        let ghost text = self@.text;
        let ghost i0 = self@.i;
        let ghost l0 = self@.line;
        let ghost c0 = self@.col;
        while self.more_tokens() && !comment_close_at(&self.text, self.index)
            invariant
                self.wf(),
                self@.text == text,
                self@.in_tag == old(self)@.in_tag,
                self@.tokens == old(self)@.tokens,
                i0 == old(self)@.i,
                l0 == old(self)@.line,
                c0 == old(self)@.col,
                i0 <= self@.i,
                self@.line == pos_after(text, i0, self@.i, l0, c0).0,
                self@.col == pos_after(text, i0, self@.i, l0, c0).1,
                comment_close_from(text, i0) == comment_close_from(text, self@.i),
            decreases self@.text.len() - self@.i,
        {
            let ghost ip = self@.i;
            proof {
                lemma_pos_after_split(text, i0, ip, ip + 1, l0, c0);
            }
            let ch = self.text[self.index];
            self.index = self.index + 1;
            if ch == '\n' {
                self.next_line();
            } else {
                self.current_column = self.current_column + 1;
            }
            proof {
                let p = pos_after(text, i0, ip, l0, c0);
                if ch == '\n' {
                    assert(pos_after(text, ip, ip + 1, p.0, p.1) == pos_after(
                        text,
                        ip + 1,
                        ip + 1,
                        p.0 + 1,
                        0,
                    ));
                } else {
                    assert(pos_after(text, ip, ip + 1, p.0, p.1) == pos_after(
                        text,
                        ip + 1,
                        ip + 1,
                        p.0,
                        p.1 + 1,
                    ));
                }
            }
        }
        if self.more_tokens() {
            let ghost k = self@.i;
            let r = self.advance(3);
            proof {
                lemma_pos_after_split(text, i0, k, k + 3, l0, c0);
                let p = pos_after(text, i0, k, l0, c0);
                assert(pos_after(text, k, k + 3, p.0, p.1) == pos_after(
                    text,
                    k + 1,
                    k + 3,
                    p.0,
                    p.1 + 1,
                ));
                assert(pos_after(text, k + 1, k + 3, p.0, p.1 + 1) == pos_after(
                    text,
                    k + 2,
                    k + 3,
                    p.0,
                    p.1 + 2,
                ));
                assert(pos_after(text, k + 2, k + 3, p.0, p.1 + 2) == pos_after(
                    text,
                    k + 3,
                    k + 3,
                    p.0,
                    p.1 + 3,
                ));
                assert(pos_after(text, k + 3, k + 3, p.0, p.1 + 3) == (p.0, p.1 + 3));
            }
            r
        } else {
            Err(TokenizeError::UnexpectedEndOfFile)
        }
    }

    /// Advance past `content` and record it as one token at `position`.
    fn push_token(&mut self, token_type: TokenType, content: String, position: Position) -> (r:
        Result<(), TokenizeError>)
        requires
            old(self).wf(),
            old(self)@.i + content@.len() <= old(self)@.text.len(),
        ensures
            r is Ok,
            final(self).wf(),
            final(self)@ == (TokenizerV {
                i: old(self)@.i + content@.len(),
                col: old(self)@.col + content@.len(),
                tokens: old(self)@.tokens.push(
                    TokenV { kind: token_type, pos: position, content: content@ },
                ),
                ..old(self)@
            }),
    {
        let n = content.as_str().unicode_len();
        if n > 0 {
            self.advance(n)?;
        }
        let ghost before = self.tokens@;
        self.tokens.push(Token::new(token_type, position, content));
        proof {
            assert(tokens_view(self.tokens@) =~= tokens_view(before).push(self.tokens@.last()@));
        }
        Ok(())
    }

    /// Consume the entire input, producing the complete token sequence or
    /// failing on the first unrecognized construct.  On success the tokens
    /// appended to the list are exactly [`spec_tokenize`] of the input from
    /// the starting state; on failure the same definition yields the error.
    #[verifier::rlimit(100)]
    pub fn tokenize(&mut self) -> (r: Result<(), TokenizeError>)
        requires
            old(self).wf(),
        ensures
            final(self).wf(),
            final(self)@.text == old(self)@.text,
            ({
                let o = old(self)@;
                match r {
                    Ok(()) => {
                        &&& final(self)@.tokens.len() >= o.tokens.len()
                        &&& final(self)@.tokens.subrange(0, o.tokens.len() as int) == o.tokens
                        &&& spec_tokenize(o.text, o.i, o.line, o.col, o.in_tag) == Ok::<
                            _,
                            TokenizeError,
                        >(final(self)@.tokens.skip(o.tokens.len() as int))
                    },
                    Err(e) => spec_tokenize(o.text, o.i, o.line, o.col, o.in_tag) == Err::<
                        Seq<TokenV>,
                        _,
                    >(e),
                }
            }),
    {
        let ghost o = old(self)@;
        let ghost text = old(self)@.text;
        let ghost len0 = old(self)@.tokens.len() as int;
        proof {
            assert(self@.tokens.subrange(0, len0) =~= old(self)@.tokens);
            assert(self@.tokens.skip(len0) =~= Seq::<TokenV>::empty());
            if spec_tokenize(text, o.i, o.line, o.col, o.in_tag) is Ok {
                let rest = spec_tokenize(text, o.i, o.line, o.col, o.in_tag)->Ok_0;
                assert(self@.tokens.skip(len0) + rest =~= rest);
            }
        }
        while self.more_tokens()
            invariant
                self.wf(),
                o == old(self)@,
                text == o.text,
                len0 == o.tokens.len(),
                self@.text == text,
                self@.tokens.len() >= len0,
                self@.tokens.subrange(0, len0) == old(self)@.tokens,
                spec_tokenize(
                    text,
                    old(self)@.i,
                    old(self)@.line,
                    old(self)@.col,
                    old(self)@.in_tag,
                ) == (match spec_tokenize(text, self@.i, self@.line, self@.col, self@.in_tag) {
                    Ok(rest) => Ok::<_, TokenizeError>(self@.tokens.skip(len0) + rest),
                    Err(e) => Err::<Seq<TokenV>, _>(e),
                }),
            decreases self@.text.len() - self@.i,
        {
            let ghost it = self@;
            let c = self.text[self.index];
            let position = Position { line: self.current_line, col: self.current_column };
            if c == '<' {
                if comment_open_at(&self.text, self.index) {
                    self.advance(4)?;
                    match self.skip_comment() {
                        Ok(()) => {
                            proof {
                                lemma_comment_close_bounds(text, it.i + 4);
                                let jo = comment_close_from(text, it.i + 4);
                                assert(jo is Some);
                                let j = jo->Some_0;
                                assert(pos_after(text, it.i, it.i + 4, it.line, it.col)
                                    == pos_after(
                                    text,
                                    it.i + 1,
                                    it.i + 4,
                                    it.line,
                                    it.col + 1,
                                ));
                                assert(pos_after(text, it.i + 1, it.i + 4, it.line, it.col + 1)
                                    == pos_after(
                                    text,
                                    it.i + 2,
                                    it.i + 4,
                                    it.line,
                                    it.col + 2,
                                ));
                                assert(pos_after(text, it.i + 2, it.i + 4, it.line, it.col + 2)
                                    == pos_after(
                                    text,
                                    it.i + 3,
                                    it.i + 4,
                                    it.line,
                                    it.col + 3,
                                ));
                                assert(pos_after(text, it.i + 3, it.i + 4, it.line, it.col + 3)
                                    == pos_after(
                                    text,
                                    it.i + 4,
                                    it.i + 4,
                                    it.line,
                                    it.col + 4,
                                ));
                                assert(pos_after(text, it.i + 4, it.i + 4, it.line, it.col + 4)
                                    == (it.line, it.col + 4));
                                lemma_pos_after_split(text, it.i, it.i + 4, j + 3, it.line, it.col);
                                assert(spec_tokenize(text, it.i, it.line, it.col, it.in_tag)
                                    == spec_tokenize(
                                    text,
                                    self@.i,
                                    self@.line,
                                    self@.col,
                                    self@.in_tag,
                                ));
                            }
                        },
                        Err(e) => {
                            proof {
                                assert(spec_tokenize(text, it.i, it.line, it.col, it.in_tag)
                                    == Err::<Seq<TokenV>, _>(e));
                            }
                            return Err(e);
                        },
                    }
                } else {
                    self.in_tag = true;
                    self.push_token(TokenType::LeftAngle, char_string(c), position)?;
                    proof {
                        step_token(text, o, it, self@, len0);
                    }
                }
            } else if c == '>' {
                self.in_tag = false;
                self.push_token(TokenType::RightAngle, char_string(c), position)?;
                proof {
                    step_token(text, o, it, self@, len0);
                }
            } else if c == '/' {
                self.push_token(TokenType::Stroke, char_string(c), position)?;
                proof {
                    step_token(text, o, it, self@, len0);
                }
            } else if c == '=' {
                self.push_token(TokenType::Equals, char_string(c), position)?;
                proof {
                    step_token(text, o, it, self@, len0);
                }
            } else if c == '!' {
                self.push_token(TokenType::Bang, char_string(c), position)?;
                proof {
                    step_token(text, o, it, self@, len0);
                }
            } else if c == '-' {
                self.push_token(TokenType::Dash, char_string(c), position)?;
                proof {
                    step_token(text, o, it, self@, len0);
                }
            } else if c == ' ' {
                self.advance(1)?;
            } else if c == '\n' {
                self.advance(1)?;
                self.next_line();
            } else if c.is_alphanumeric() {
                proof {
                    lemma_ident_end_bounds(it.text, it.i + 1, it.in_tag);
                }
                let id = self.identifier();
                self.push_token(TokenType::Identifier, id, position)?;
                proof {
                    step_token(text, o, it, self@, len0);
                }
            } else if c == '"' || c == '\'' {
                proof {
                    lemma_literal_scan_bounds(it.text, c, it.i + 1, false);
                }
                let id = match self.literal(c) {
                    Ok(s) => s,
                    Err(e) => {
                        proof {
                            assert(spec_tokenize(text, it.i, it.line, it.col, it.in_tag)
                                == Err::<Seq<TokenV>, _>(e));
                        }
                        return Err(e);
                    },
                };
                self.push_token(TokenType::Literal, id, position)?;
                proof {
                    step_token(text, o, it, self@, len0);
                }
            } else {
                proof {
                    assert(spec_tokenize(text, it.i, it.line, it.col, it.in_tag) == Err::<
                        Seq<TokenV>,
                        _,
                    >(TokenizeError::UnexpectedChar(c, position)));
                }
                return Err(TokenizeError::UnexpectedChar(c, position));
            }
        }
        proof {
            assert(self@.tokens.skip(len0) + Seq::<TokenV>::empty() =~= self@.tokens.skip(len0));
        }
        Ok(())
    }
}

/// One `tokenize` step that appended exactly one token keeps the loop
/// invariant: prepending that token in the specification and appending it to
/// the produced list describe the same sequence.
proof fn step_token(text: Seq<char>, o: TokenizerV, it: TokenizerV, now: TokenizerV, len0: int)
    requires
        0 <= len0 <= it.tokens.len(),
        now.tokens.len() == it.tokens.len() + 1,
        now.tokens == it.tokens.push(now.tokens.last()),
        spec_tokenize(text, o.i, o.line, o.col, o.in_tag) == (match spec_tokenize(
            text,
            it.i,
            it.line,
            it.col,
            it.in_tag,
        ) {
            Ok(rest) => Ok::<_, TokenizeError>(it.tokens.skip(len0) + rest),
            Err(e) => Err::<Seq<TokenV>, _>(e),
        }),
        spec_tokenize(text, it.i, it.line, it.col, it.in_tag) == cons_tok(
            now.tokens.last(),
            spec_tokenize(text, now.i, now.line, now.col, now.in_tag),
        ),
    ensures
        spec_tokenize(text, o.i, o.line, o.col, o.in_tag) == (match spec_tokenize(
            text,
            now.i,
            now.line,
            now.col,
            now.in_tag,
        ) {
            Ok(rest) => Ok::<_, TokenizeError>(now.tokens.skip(len0) + rest),
            Err(e) => Err::<Seq<TokenV>, _>(e),
        }),
        now.tokens.subrange(0, len0) == it.tokens.subrange(0, len0),
{
    let tv = now.tokens.last();
    assert(now.tokens.subrange(0, len0) =~= it.tokens.subrange(0, len0));
    if spec_tokenize(text, now.i, now.line, now.col, now.in_tag) is Ok {
        let rest = spec_tokenize(text, now.i, now.line, now.col, now.in_tag)->Ok_0;
        assert(it.tokens.skip(len0) + (seq![tv] + rest) =~= it.tokens.push(tv).skip(len0) + rest);
    }
}

/// A single character as a string.
fn char_string(c: char) -> (r: String)
    ensures
        r@ == seq![c],
{
    let mut s = String::new();
    push_char(&mut s, c);
    proof {
        assert(s@ =~= seq![c]);
    }
    s
}

/// Whether an identifier run may continue with this character.
fn ident_char(c: char, in_tag: bool) -> (r: bool)
    ensures
        r == is_ident_char(c, in_tag),
{
    c.is_alphanumeric() || c == '_' || (!in_tag && c == ' ')
}

/// Whether the comment opener `<!--` stands at index `j`.
fn comment_open_at(v: &Vec<char>, j: usize) -> (r: bool)
    requires
        j <= v@.len(),
    ensures
        r == comment_opens(v@, j as int),
{
    v.len() - j >= 4 && v[j] == '<' && v[j + 1] == '!' && v[j + 2] == '-' && v[j + 3] == '-'
}

/// Whether the comment closer `-->` stands at index `j`.
fn comment_close_at(v: &Vec<char>, j: usize) -> (r: bool)
    requires
        j <= v@.len(),
    ensures
        r == comment_closes(v@, j as int),
{
    v.len() - j >= 3 && v[j] == '-' && v[j + 1] == '-' && v[j + 2] == '>'
}

/// The characters `v[from..to]`, gathered into a string.
fn copy_range(v: &Vec<char>, from: usize, to: usize) -> (r: String)
    requires
        from <= to <= v@.len(),
    ensures
        r@ == v@.subrange(from as int, to as int),
{
    let mut s = String::new();
    let mut j: usize = from;
    while j < to
        invariant
            from <= j <= to <= v@.len(),
            s@ == v@.subrange(from as int, j as int),
        decreases to - j,
    {
        push_char(&mut s, v[j]);
        j = j + 1;
        proof {
            assert(s@ =~= v@.subrange(from as int, j as int));
        }
    }
    s
}

/// The characters of a string slice, gathered into a vector.
fn chars_of(s: &str) -> (r: Vec<char>)
    ensures
        r@ == s@,
        r@.len() <= usize::MAX,
{
    let n = s.unicode_len();
    let mut r: Vec<char> = Vec::new();
    let mut i: usize = 0;
    while i < n
        invariant
            i <= n,
            n == s@.len(),
            r@ == s@.subrange(0, i as int),
        decreases n - i,
    {
        r.push(s.get_char(i));
        i = i + 1;
        proof {
            assert(r@ =~= s@.subrange(0, i as int));
        }
    }
    proof {
        assert(r@ =~= s@);
    }
    r
}

} // verus!
