//! The tokenizer: a forward cursor over the characters of the input,
//! producing the lexical tokens of JSON or a `JsonError` with the character
//! position of the fault.

use vstd::prelude::*;
use vstd::string::StringExecFns;

use crate::error::{ErrorModel, JsonError};
use crate::num::{format_number, parse_number_text, spec_number_text, spec_parse_f64};
use crate::text::{
    char_from_u32, char_is_alphabetic, char_is_whitespace, chars_to_string, hex_digit_val,
    hex_digit_value, is_alphabetic_char, is_ascii_digit_char, is_hex_digit_char,
    empty_exponent, is_json_whitespace, is_number_char, is_scalar_value, push_str_chars,
    vec_eq_str,
};

verus! {

/// One lexical unit of JSON syntax. A number is carried as the IEEE-754
/// bit pattern of its double value.
#[derive(Debug, Clone, PartialEq)]
pub enum Token {
    LeftBrace,
    RightBrace,
    LeftBracket,
    RightBracket,
    Comma,
    Colon,
    String(String),
    Number(u64),
    Boolean(bool),
    Null,
}

/// The mathematical shape of a `Token`.
pub ghost enum TokenModel {
    LeftBrace,
    RightBrace,
    LeftBracket,
    RightBracket,
    Comma,
    Colon,
    Str(Seq<char>),
    Number(u64),
    Boolean(bool),
    Null,
}

impl View for Token {
    type V = TokenModel;

    open spec fn view(&self) -> TokenModel {
        match self {
            Token::LeftBrace => TokenModel::LeftBrace,
            Token::RightBrace => TokenModel::RightBrace,
            Token::LeftBracket => TokenModel::LeftBracket,
            Token::RightBracket => TokenModel::RightBracket,
            Token::Comma => TokenModel::Comma,
            Token::Colon => TokenModel::Colon,
            Token::String(s) => TokenModel::Str(s@),
            Token::Number(bits) => TokenModel::Number(*bits),
            Token::Boolean(b) => TokenModel::Boolean(*b),
            Token::Null => TokenModel::Null,
        }
    }
}

/// The text naming a token inside an `UnexpectedToken` error: the
/// variant's name, a literal-carrying variant with its payload.
pub open spec fn token_found_text(t: TokenModel) -> Seq<char> {
    match t {
        TokenModel::LeftBrace => "LeftBrace"@,
        TokenModel::RightBrace => "RightBrace"@,
        TokenModel::LeftBracket => "LeftBracket"@,
        TokenModel::RightBracket => "RightBracket"@,
        TokenModel::Comma => "Comma"@,
        TokenModel::Colon => "Colon"@,
        TokenModel::Str(s) => "String(\""@ + s + "\")"@,
        TokenModel::Number(bits) => "Number("@ + spec_number_text(bits) + ")"@,
        TokenModel::Boolean(b) => if b {
            "Boolean(true)"@
        } else {
            "Boolean(false)"@
        },
        TokenModel::Null => "Null"@,
    }
}

impl Token {
    /// Renders the token's name for an `UnexpectedToken` error.
    pub fn describe(&self) -> (r: String)
        ensures
            r@ == token_found_text(self@),
    {
        let mut out: Vec<char> = Vec::new();
        match self {
            Token::LeftBrace => push_str_chars(&mut out, "LeftBrace"),
            Token::RightBrace => push_str_chars(&mut out, "RightBrace"),
            Token::LeftBracket => push_str_chars(&mut out, "LeftBracket"),
            Token::RightBracket => push_str_chars(&mut out, "RightBracket"),
            Token::Comma => push_str_chars(&mut out, "Comma"),
            Token::Colon => push_str_chars(&mut out, "Colon"),
            Token::String(s) => {
                push_str_chars(&mut out, "String(\"");
                push_str_chars(&mut out, s.as_str());
                push_str_chars(&mut out, "\")");
            },
            Token::Number(bits) => {
                push_str_chars(&mut out, "Number(");
                let text = format_number(*bits);
                push_str_chars(&mut out, text.as_str());
                push_str_chars(&mut out, ")");
            },
            Token::Boolean(b) => {
                if *b {
                    push_str_chars(&mut out, "Boolean(true)");
                } else {
                    push_str_chars(&mut out, "Boolean(false)");
                }
            },
            Token::Null => push_str_chars(&mut out, "Null"),
        }
        proof {
            assert(out@ =~= token_found_text(self@));
        }
        chars_to_string(&out)
    }
}

/// The models of a sequence of tokens.
pub open spec fn tokens_model(ts: Seq<Token>) -> Seq<TokenModel> {
    Seq::new(ts.len(), |i: int| ts[i]@)
}

/// What the escape selector at `pos` (the character after a backslash at
/// `slash_pos`) denotes: the unescaped character and the count of
/// characters consumed from `pos` on.
pub open spec fn spec_escape(input: Seq<char>, pos: nat, slash_pos: nat) -> Result<
    (char, nat),
    ErrorModel,
> {
    if pos >= input.len() {
        Err(ErrorModel::UnexpectedEndOfInput { expected: "escape character"@, position: pos })
    } else {
        let c = input[pos as int];
        if c == 'n' {
            Ok(('\n', 1))
        } else if c == 'r' {
            Ok(('\r', 1))
        } else if c == 't' {
            Ok(('\t', 1))
        } else if c == 'b' {
            Ok(('\u{8}', 1))
        } else if c == 'f' {
            Ok(('\u{c}', 1))
        } else if c == '"' {
            Ok(('"', 1))
        } else if c == '\\' {
            Ok(('\\', 1))
        } else if c == '/' {
            Ok(('/', 1))
        } else if c == 'u' {
            spec_unicode_escape(input, pos + 1, slash_pos)
        } else {
            Err(ErrorModel::InvalidEscape { character: c, position: slash_pos })
        }
    }
}

/// The code point of four hexadecimal digit characters.
pub open spec fn hex_quad_val(h: Seq<char>) -> u32
    recommends
        h.len() == 4,
{
    ((hex_digit_val(h[0]) * 4096 + hex_digit_val(h[1]) * 256 + hex_digit_val(h[2]) * 16
        + hex_digit_val(h[3])) as u32)
}

/// What a unicode escape starting at `pos` (the character after the `u`)
/// denotes: exactly four hexadecimal digits naming a Unicode scalar value.
/// The count consumed includes the `u` itself. The sequence reported on
/// failure is whatever subset of the four characters the input holds.
pub open spec fn spec_unicode_escape(input: Seq<char>, pos: nat, slash_pos: nat) -> Result<
    (char, nat),
    ErrorModel,
> {
    if input.len() < pos + 4 {
        Err(ErrorModel::InvalidUnicode {
            sequence: input.subrange(pos as int, input.len() as int),
            position: slash_pos,
        })
    } else {
        let hex = input.subrange(pos as int, pos + 4 as int);
        if !(is_hex_digit_char(hex[0]) && is_hex_digit_char(hex[1]) && is_hex_digit_char(hex[2])
            && is_hex_digit_char(hex[3])) {
            Err(ErrorModel::InvalidUnicode { sequence: hex, position: slash_pos })
        } else if is_scalar_value(hex_quad_val(hex)) {
            Ok(((hex_quad_val(hex) as char), 5))
        } else {
            Err(ErrorModel::InvalidUnicode { sequence: hex, position: slash_pos })
        }
    }
}

/// What scanning string content from `pos` up to an unescaped closing
/// quote yields: the unescaped content and the count of characters
/// consumed, the closing quote included. `start` is the position of the
/// opening quote, reported when the input ends before the string closes.
pub open spec fn spec_string_rest(input: Seq<char>, start: nat, pos: nat) -> Result<
    (Seq<char>, nat),
    ErrorModel,
>
    decreases input.len() - pos,
{
    if pos >= input.len() {
        Err(ErrorModel::UnexpectedEndOfInput { expected: "\""@, position: start })
    } else {
        let c = input[pos as int];
        if c == '"' {
            Ok((Seq::empty(), 1))
        } else if c == '\\' {
            match spec_escape(input, pos + 1, pos) {
                Ok((ch, ec)) => match spec_string_rest(input, start, pos + 1 + ec) {
                    Ok((s, c2)) => Ok((seq![ch] + s, 1 + ec + c2)),
                    Err(e) => Err(e),
                },
                Err(e) => Err(e),
            }
        } else {
            match spec_string_rest(input, start, pos + 1) {
                Ok((s, c2)) => Ok((seq![c] + s, 1 + c2)),
                Err(e) => Err(e),
            }
        }
    }
}

/// String scanning consumes at least the closing quote and never more than
/// the rest of the input.
pub proof fn lemma_string_rest_bounds(input: Seq<char>, start: nat, pos: nat)
    ensures
        spec_string_rest(input, start, pos) matches Ok((s, c)) ==> 1 <= c && pos + c
            <= input.len(),
    decreases input.len() - pos,
{
    if pos < input.len() {
        let c = input[pos as int];
        if c == '"' {
        } else if c == '\\' {
            match spec_escape(input, pos + 1, pos) {
                Ok((ch, ec)) => {
                    lemma_string_rest_bounds(input, start, pos + 1 + ec);
                },
                Err(_) => {},
            }
        } else {
            lemma_string_rest_bounds(input, start, pos + 1);
        }
    }
}

/// The end of the maximal run of number characters starting at `pos`.
pub open spec fn number_run_end(input: Seq<char>, pos: nat) -> nat
    decreases input.len() - pos,
{
    if pos < input.len() && is_number_char(input[pos as int]) {
        number_run_end(input, pos + 1)
    } else {
        pos
    }
}

/// The end of the maximal run of alphabetic characters starting at `pos`.
pub open spec fn alpha_run_end(input: Seq<char>, pos: nat) -> nat
    decreases input.len() - pos,
{
    if pos < input.len() && is_alphabetic_char(input[pos as int]) {
        alpha_run_end(input, pos + 1)
    } else {
        pos
    }
}

/// A maximal run stays within the input and moves past its first
/// character when that character belongs to the run.
pub proof fn lemma_number_run_bounds(input: Seq<char>, pos: nat)
    ensures
        pos <= number_run_end(input, pos),
        pos <= input.len() ==> number_run_end(input, pos) <= input.len(),
        pos < input.len() && is_number_char(input[pos as int]) ==> pos < number_run_end(input, pos),
    decreases input.len() - pos,
{
    if pos < input.len() && is_number_char(input[pos as int]) {
        lemma_number_run_bounds(input, pos + 1);
    }
}

/// As `lemma_number_run_bounds`, for alphabetic runs.
pub proof fn lemma_alpha_run_bounds(input: Seq<char>, pos: nat)
    ensures
        pos <= alpha_run_end(input, pos),
        pos <= input.len() ==> alpha_run_end(input, pos) <= input.len(),
        pos < input.len() && is_alphabetic_char(input[pos as int]) ==> pos < alpha_run_end(
            input,
            pos,
        ),
    decreases input.len() - pos,
{
    if pos < input.len() && is_alphabetic_char(input[pos as int]) {
        lemma_alpha_run_bounds(input, pos + 1);
    }
}

/// Prepends a token to the result of tokenizing the rest of the input.
pub open spec fn tok_cons(t: TokenModel, r: Result<Seq<TokenModel>, ErrorModel>) -> Result<
    Seq<TokenModel>,
    ErrorModel,
> {
    match r {
        Ok(ts) => Ok(seq![t] + ts),
        Err(e) => Err(e),
    }
}

/// What tokenizing `input` from position `pos` onwards yields: the ordered
/// token sequence of the rest of the input, or the first lexical error.
pub open spec fn spec_tokenize(input: Seq<char>, pos: nat) -> Result<Seq<TokenModel>, ErrorModel>
    decreases input.len() - pos,
{
    if pos >= input.len() {
        Ok(Seq::empty())
    } else {
        let c = input[pos as int];
        if is_json_whitespace(c) {
            spec_tokenize(input, pos + 1)
        } else if c == '{' {
            tok_cons(TokenModel::LeftBrace, spec_tokenize(input, pos + 1))
        } else if c == '}' {
            tok_cons(TokenModel::RightBrace, spec_tokenize(input, pos + 1))
        } else if c == '[' {
            tok_cons(TokenModel::LeftBracket, spec_tokenize(input, pos + 1))
        } else if c == ']' {
            tok_cons(TokenModel::RightBracket, spec_tokenize(input, pos + 1))
        } else if c == ',' {
            tok_cons(TokenModel::Comma, spec_tokenize(input, pos + 1))
        } else if c == ':' {
            tok_cons(TokenModel::Colon, spec_tokenize(input, pos + 1))
        } else if c == '"' {
            match spec_string_rest(input, pos, pos + 1) {
                Ok((s, cnt)) => {
                    proof {
                        lemma_string_rest_bounds(input, pos, pos + 1);
                    }
                    tok_cons(TokenModel::Str(s), spec_tokenize(input, pos + 1 + cnt))
                },
                Err(e) => Err(e),
            }
        } else if c == '-' || is_ascii_digit_char(c) {
            let end = number_run_end(input, pos);
            let text = input.subrange(pos as int, end as int);
            if empty_exponent(text) {
                Err(ErrorModel::InvalidNumber { value: text, position: pos })
            } else {
                match spec_parse_f64(text) {
                    Some(bits) => {
                        proof {
                            lemma_number_run_bounds(input, pos);
                        }
                        tok_cons(TokenModel::Number(bits), spec_tokenize(input, end))
                    },
                    None => Err(ErrorModel::InvalidNumber { value: text, position: pos }),
                }
            }
        } else if is_alphabetic_char(c) {
            let end = alpha_run_end(input, pos);
            let word = input.subrange(pos as int, end as int);
            if word == "true"@ {
                proof {
                    lemma_alpha_run_bounds(input, pos);
                }
                tok_cons(TokenModel::Boolean(true), spec_tokenize(input, end))
            } else if word == "false"@ {
                proof {
                    lemma_alpha_run_bounds(input, pos);
                }
                tok_cons(TokenModel::Boolean(false), spec_tokenize(input, end))
            } else if word == "null"@ {
                proof {
                    lemma_alpha_run_bounds(input, pos);
                }
                tok_cons(TokenModel::Null, spec_tokenize(input, end))
            } else {
                Err(ErrorModel::UnexpectedToken {
                    expected: "keyword"@,
                    found: word,
                    position: pos,
                })
            }
        } else {
            Err(ErrorModel::UnexpectedToken {
                expected: "valid JSON value"@,
                found: seq![c],
                position: pos,
            })
        }
    }
}

/// Prepending already-produced tokens to the outcome of tokenizing the
/// rest.
pub open spec fn tok_prepend(pre: Seq<TokenModel>, r: Result<Seq<TokenModel>, ErrorModel>) -> Result<
    Seq<TokenModel>,
    ErrorModel,
> {
    match r {
        Ok(ts) => Ok(pre + ts),
        Err(e) => Err(e),
    }
}

proof fn lemma_tok_prepend_push(pre: Seq<TokenModel>, t: TokenModel, r: Result<
    Seq<TokenModel>,
    ErrorModel,
>)
    ensures
        tok_prepend(pre, tok_cons(t, r)) == tok_prepend(pre.push(t), r),
{
    match r {
        Ok(ts) => {
            assert(pre + (seq![t] + ts) =~= pre.push(t) + ts);
        },
        Err(_) => {},
    }
}

/// Prepending string content already scanned to the outcome of scanning
/// the rest; `delta` counts the characters already consumed.
pub open spec fn str_rest_prepend(pre: Seq<char>, delta: nat, r: Result<
    (Seq<char>, nat),
    ErrorModel,
>) -> Result<(Seq<char>, nat), ErrorModel> {
    match r {
        Ok((s, c)) => Ok((pre + s, delta + c)),
        Err(e) => Err(e),
    }
}

/// Whether the maximal alphabetic run at `pos` reads the keyword that
/// the literal token `t` stands for.
pub open spec fn keyword_token_at(input: Seq<char>, pos: nat, t: TokenModel) -> bool {
    let word = input.subrange(pos as int, alpha_run_end(input, pos) as int);
    ||| (word == "true"@ && t == TokenModel::Boolean(true))
    ||| (word == "false"@ && t == TokenModel::Boolean(false))
    ||| (word == "null"@ && t == TokenModel::Null)
}

/// Unfolds `spec_tokenize` at a keyword: when the maximal alphabetic run
/// at `pos` reads `true`, `false` or `null`, the tokenizer takes the
/// matching literal token there.
pub proof fn lemma_tokenize_keyword(input: Seq<char>, pos: nat, t: TokenModel)
    requires
        pos < input.len(),
        !is_json_whitespace(input[pos as int]),
        input[pos as int] != '{',
        input[pos as int] != '}',
        input[pos as int] != '[',
        input[pos as int] != ']',
        input[pos as int] != ',',
        input[pos as int] != ':',
        input[pos as int] != '"',
        input[pos as int] != '-',
        !is_ascii_digit_char(input[pos as int]),
        is_alphabetic_char(input[pos as int]),
        keyword_token_at(input, pos, t),
    ensures
        spec_tokenize(input, pos) == tok_cons(t, spec_tokenize(input, alpha_run_end(input, pos))),
{
    reveal_strlit("true");
    reveal_strlit("false");
    reveal_strlit("null");
    lemma_alpha_run_bounds(input, pos);
    let end = alpha_run_end(input, pos);
    let word = input.subrange(pos as int, end as int);
    assert("true"@.len() == 4);
    assert("false"@.len() == 5);
    assert("null"@.len() == 4);
    assert("true"@ != "false"@);
    assert("true"@[0] == 't' && "null"@[0] == 'n');
    assert("true"@ != "null"@);
    if word == "true"@ {
        assert(t == TokenModel::Boolean(true));
        assert(spec_tokenize(input, pos) == tok_cons(
            TokenModel::Boolean(true),
            spec_tokenize(input, end),
        ));
    } else if word == "false"@ {
        assert(t == TokenModel::Boolean(false));
        assert(spec_tokenize(input, pos) == tok_cons(
            TokenModel::Boolean(false),
            spec_tokenize(input, end),
        ));
    } else {
        assert(word == "null"@ && word != "true"@ && word != "false"@);
        assert(t == TokenModel::Null);
        assert(spec_tokenize(input, pos) == tok_cons(
            TokenModel::Null,
            spec_tokenize(input, end),
        ));
    }
    assert(spec_tokenize(input, pos) == tok_cons(t, spec_tokenize(input, end)));
}

/// The tokenizer: the input as characters and a forward cursor.
pub struct Tokenizer {
    input: Vec<char>,
    position: usize,
}

impl Tokenizer {
    /// The characters the tokenizer was built over.
    pub closed spec fn spec_input(&self) -> Seq<char> {
        self.input@
    }

    /// The current cursor, a character index.
    pub closed spec fn spec_position(&self) -> nat {
        self.position as nat
    }

    /// The cursor never passes the end of the input.
    pub open spec fn wf(&self) -> bool {
        self.spec_position() <= self.spec_input().len()
    }

    /// Builds a tokenizer over `input`, cursor at the start.
    #[verifier::loop_isolation(false)]
    pub fn new(input: &str) -> (t: Tokenizer)
        ensures
            t.spec_input() == input@,
            t.spec_position() == 0,
            t.wf(),
    {
        let n: usize = input.unicode_len();
        let mut v: Vec<char> = Vec::new();
        let mut i: usize = 0;
        while i < n
            invariant
                i <= n,
                n == input@.len(),
                v@ == input@.subrange(0, i as int),
            decreases n - i,
        {
            v.push(input.get_char(i));
            i = i + 1;
            proof {
                assert(v@ =~= input@.subrange(0, i as int));
            }
        }
        proof {
            assert(input@.subrange(0, n as int) =~= input@);
        }
        Tokenizer { input: v, position: 0 }
    }

    /// The current cursor position.
    pub fn position(&self) -> (r: usize)
        ensures
            r as nat == self.spec_position(),
    {
        self.position
    }

    /// Whether the cursor has passed the last character.
    pub fn is_at_end(&self) -> (r: bool)
        ensures
            r == (self.spec_position() >= self.spec_input().len()),
    {
        self.position >= self.input.len()
    }

    /// The character under the cursor, without moving it.
    pub fn peek(&self) -> (r: Option<char>)
        ensures
            r == (if self.spec_position() < self.spec_input().len() {
                Some(self.spec_input()[self.spec_position() as int])
            } else {
                None::<char>
            }),
    {
        if self.position < self.input.len() {
            Some(self.input[self.position])
        } else {
            None
        }
    }

    /// Returns the character under the cursor and moves past it, or
    /// `None` at the end of the input, leaving the cursor where it is.
    pub fn advance(&mut self) -> (r: Option<char>)
        ensures
            final(self).spec_input() == old(self).spec_input(),
            old(self).spec_position() < old(self).spec_input().len() ==> (r == Some(
                old(self).spec_input()[old(self).spec_position() as int],
            ) && final(self).spec_position() == old(self).spec_position() + 1),
            old(self).spec_position() >= old(self).spec_input().len() ==> ((r is None)
                && final(self).spec_position() == old(self).spec_position()),
    {
        if self.position < self.input.len() {
            let c = self.input[self.position];
            self.position = self.position + 1;
            Some(c)
        } else {
            None
        }
    }

    /// Scans a string token whose opening quote sits at `start_pos`, the
    /// current cursor position.
    #[verifier::loop_isolation(false)]
    fn string(&mut self, start_pos: usize) -> (r: Result<Token, JsonError>)
        requires
            old(self).wf(),
            old(self).spec_position() == start_pos as nat,
            (start_pos as nat) < old(self).spec_input().len(),
        ensures
            final(self).spec_input() == old(self).spec_input(),
            final(self).wf(),
            match r {
                Ok(t) => spec_string_rest(
                    old(self).spec_input(),
                    start_pos as nat,
                    start_pos as nat + 1,
                ) matches Ok((s, cnt)) && t@ == TokenModel::Str(s) && final(self).spec_position()
                    == start_pos as nat + 1 + cnt,
                Err(e) => spec_string_rest(
                    old(self).spec_input(),
                    start_pos as nat,
                    start_pos as nat + 1,
                ) == Err::<(Seq<char>, nat), ErrorModel>(e@),
            },
    {
        let ghost input = old(self).spec_input();
        let ghost start = start_pos as nat;
        self.advance();  // consume the opening quote
        let mut extracted: Vec<char> = Vec::new();
        proof {
            match spec_string_rest(input, start, start + 1) {
                Ok((s2, c2)) => {
                    assert(Seq::<char>::empty() + s2 =~= s2);
                },
                Err(_) => {},
            }
            assert(extracted@ =~= Seq::<char>::empty());
        }
        loop
            invariant
                self.wf(),
                self.spec_input() == input,
                start + 1 <= self.spec_position(),
                str_rest_prepend(
                    extracted@,
                    (self.spec_position() - (start + 1)) as nat,
                    spec_string_rest(input, start, self.spec_position()),
                ) == spec_string_rest(input, start, start + 1),
            decreases input.len() - self.spec_position(),
        {
            let ghost p = self.spec_position();
            let ghost pre = extracted@;
            match self.advance() {
                None => {
                    return Err(JsonError::UnexpectedEndOfInput {
                        expected: String::from_str("\""),
                        position: start_pos,
                    });
                },
                Some(c) => {
                    if c == '"' {
                        let content = chars_to_string(&extracted);
                        proof {
                            assert(pre + Seq::<char>::empty() =~= pre);
                        }
                        return Ok(Token::String(content));
                    } else if c == '\\' {
                        match self.parse_escape() {
                            Ok(ch) => {
                                extracted.push(ch);
                                proof {
                                    match spec_string_rest(input, start, self.spec_position()) {
                                        Ok((s2, c2)) => {
                                            assert(pre.push(ch) + s2 =~= pre + (seq![ch] + s2));
                                        },
                                        Err(_) => {},
                                    }
                                }
                            },
                            Err(e) => {
                                return Err(e);
                            },
                        }
                    } else {
                        extracted.push(c);
                        proof {
                            match spec_string_rest(input, start, self.spec_position()) {
                                Ok((s2, c2)) => {
                                    assert(pre.push(c) + s2 =~= pre + (seq![c] + s2));
                                },
                                Err(_) => {},
                            }
                        }
                    }
                },
            }
        }
    }

    /// Reads the escape selector after a backslash the cursor has already
    /// passed, and yields the character it denotes.
    fn parse_escape(&mut self) -> (r: Result<char, JsonError>)
        requires
            old(self).wf(),
            old(self).spec_position() >= 1,
        ensures
            final(self).spec_input() == old(self).spec_input(),
            final(self).wf(),
            match r {
                Ok(c) => spec_escape(
                    old(self).spec_input(),
                    old(self).spec_position(),
                    (old(self).spec_position() - 1) as nat,
                ) matches Ok((cc, ec)) && c == cc && final(self).spec_position() == old(
                    self,
                ).spec_position() + ec,
                Err(e) => spec_escape(
                    old(self).spec_input(),
                    old(self).spec_position(),
                    (old(self).spec_position() - 1) as nat,
                ) == Err::<(char, nat), ErrorModel>(e@),
            },
    {
        let slash_pos = self.position - 1;
        match self.advance() {
            Some(c) => {
                if c == 'n' {
                    Ok('\n')
                } else if c == 'r' {
                    Ok('\r')
                } else if c == 't' {
                    Ok('\t')
                } else if c == 'b' {
                    Ok('\u{8}')
                } else if c == 'f' {
                    Ok('\u{c}')
                } else if c == '"' {
                    Ok('"')
                } else if c == '\\' {
                    Ok('\\')
                } else if c == '/' {
                    Ok('/')
                } else if c == 'u' {
                    self.unicode_escape(slash_pos)
                } else {
                    Err(JsonError::InvalidEscape { character: c, position: slash_pos })
                }
            },
            None => Err(JsonError::UnexpectedEndOfInput {
                expected: String::from_str("escape character"),
                position: self.position,
            }),
        }
    }

    /// Reads the four hexadecimal digits of a unicode escape; the cursor
    /// has already passed the `u`, and `start_pos` is the backslash.
    #[verifier::loop_isolation(false)]
    fn unicode_escape(&mut self, start_pos: usize) -> (r: Result<char, JsonError>)
        requires
            old(self).wf(),
        ensures
            final(self).spec_input() == old(self).spec_input(),
            final(self).wf(),
            match r {
                Ok(c) => spec_unicode_escape(
                    old(self).spec_input(),
                    old(self).spec_position(),
                    start_pos as nat,
                ) matches Ok((cc, ec)) && c == cc && final(self).spec_position() == old(
                    self,
                ).spec_position() + 4,
                Err(e) => spec_unicode_escape(
                    old(self).spec_input(),
                    old(self).spec_position(),
                    start_pos as nat,
                ) == Err::<(char, nat), ErrorModel>(e@),
            },
    {
        let ghost input = old(self).spec_input();
        let ghost q = old(self).spec_position();
        let mut hex: Vec<char> = Vec::new();
        let mut k: usize = 0;
        proof {
            assert(hex@ =~= input.subrange(q as int, (q + 0) as int));
        }
        while k < 4
            invariant
                self.wf(),
                self.spec_input() == input,
                k <= 4,
                self.spec_position() == q + k,
                hex@ == input.subrange(q as int, (q + k) as int),
            decreases 4 - k,
        {
            match self.advance() {
                Some(c) => {
                    hex.push(c);
                    proof {
                        assert(hex@ =~= input.subrange(q as int, (q + k + 1) as int));
                    }
                },
                None => {
                    proof {
                        assert(hex@ =~= input.subrange(q as int, input.len() as int));
                    }
                    return Err(JsonError::InvalidUnicode {
                        sequence: chars_to_string(&hex),
                        position: start_pos,
                    });
                },
            }
            k = k + 1;
        }
        let o0 = hex_digit_value(hex[0]);
        let o1 = hex_digit_value(hex[1]);
        let o2 = hex_digit_value(hex[2]);
        let o3 = hex_digit_value(hex[3]);
        match (o0, o1, o2, o3) {
            (Some(v0), Some(v1), Some(v2), Some(v3)) => {
                let cp: u32 = (v0 as u32) * 4096 + (v1 as u32) * 256 + (v2 as u32) * 16 + (
                v3 as u32);
                proof {
                    assert(cp == hex_quad_val(input.subrange(q as int, q + 4 as int)));
                }
                match char_from_u32(cp) {
                    Some(c) => Ok(c),
                    None => Err(JsonError::InvalidUnicode {
                        sequence: chars_to_string(&hex),
                        position: start_pos,
                    }),
                }
            },
            _ => Err(JsonError::InvalidUnicode {
                sequence: chars_to_string(&hex),
                position: start_pos,
            }),
        }
    }

    /// Scans the maximal run of number characters starting at `start_pos`,
    /// the current cursor position, and reads it as a double.
    fn number(&mut self, start_pos: usize) -> (r: Result<Token, JsonError>)
        requires
            old(self).wf(),
            old(self).spec_position() == start_pos as nat,
        ensures
            final(self).spec_input() == old(self).spec_input(),
            final(self).wf(),
            final(self).spec_position() == number_run_end(old(self).spec_input(), start_pos as nat),
            ({
                let text = old(self).spec_input().subrange(
                    start_pos as int,
                    number_run_end(old(self).spec_input(), start_pos as nat) as int,
                );
                match r {
                    Ok(t) => !empty_exponent(text) && (spec_parse_f64(text) matches Some(bits)
                        && t@ == TokenModel::Number(bits)),
                    Err(e) => (empty_exponent(text) || spec_parse_f64(text) is None) && e@ == (
                    ErrorModel::InvalidNumber {
                        value: text,
                        position: start_pos as nat,
                    }),
                }
            }),
    {
        let ghost input = old(self).spec_input();
        let ghost start = start_pos as nat;
        let mut num_str: Vec<char> = Vec::new();
        proof {
            assert(num_str@ =~= input.subrange(start as int, start as int));
        }
        loop
            invariant
                self.wf(),
                self.spec_input() == input,
                start <= self.spec_position(),
                num_str@ == input.subrange(start as int, self.spec_position() as int),
                number_run_end(input, start) == number_run_end(input, self.spec_position()),
            ensures
                self.wf(),
                self.spec_input() == input,
                start <= self.spec_position(),
                num_str@ == input.subrange(start as int, self.spec_position() as int),
                number_run_end(input, start) == self.spec_position(),
            decreases input.len() - self.spec_position(),
        {
            let ghost p = self.spec_position();
            match self.peek() {
                Some(c) => {
                    let u: u32 = c as u32;
                    if (48 <= u && u <= 57) || c == '.' || c == '-' || c == 'e' || c == 'E' || c
                        == '+' {
                        self.advance();
                        num_str.push(c);
                        proof {
                            assert(is_number_char(c));
                            assert(num_str@ =~= input.subrange(start as int, (p + 1) as int));
                        }
                    } else {
                        proof {
                            assert(!is_number_char(c));
                        }
                        break;
                    }
                },
                None => {
                    break;
                },
            }
        }
        let n: usize = num_str.len();
        let mut bad_exponent = false;
        if n >= 1 {
            let last = num_str[n - 1];
            if last == 'e' || last == 'E' {
                bad_exponent = true;
            }
            if n >= 2 && (last == '+' || last == '-') {
                let prev = num_str[n - 2];
                if prev == 'e' || prev == 'E' {
                    bad_exponent = true;
                }
            }
        }
        let s = chars_to_string(&num_str);
        if bad_exponent {
            return Err(JsonError::InvalidNumber { value: s, position: start_pos });
        }
        match parse_number_text(s.as_str()) {
            Some(bits) => Ok(Token::Number(bits)),
            None => Err(JsonError::InvalidNumber { value: s, position: start_pos }),
        }
    }

    /// Scans the maximal alphabetic run starting at `start_pos`, the
    /// current cursor position, and matches it against the three keywords.
    fn keyword(&mut self, start_pos: usize) -> (r: Result<Token, JsonError>)
        requires
            old(self).wf(),
            old(self).spec_position() == start_pos as nat,
        ensures
            final(self).spec_input() == old(self).spec_input(),
            final(self).wf(),
            final(self).spec_position() == alpha_run_end(old(self).spec_input(), start_pos as nat),
            ({
                let word = old(self).spec_input().subrange(
                    start_pos as int,
                    alpha_run_end(old(self).spec_input(), start_pos as nat) as int,
                );
                match r {
                    Ok(t) => (word == "true"@ && t@ == TokenModel::Boolean(true)) || (word
                        == "false"@ && t@ == TokenModel::Boolean(false)) || (word == "null"@ && t@
                        == TokenModel::Null),
                    Err(e) => word != "true"@ && word != "false"@ && word != "null"@ && e@ == (
                    ErrorModel::UnexpectedToken {
                        expected: "keyword"@,
                        found: word,
                        position: start_pos as nat,
                    }),
                }
            }),
    {
        let ghost input = old(self).spec_input();
        let ghost start = start_pos as nat;
        let mut word: Vec<char> = Vec::new();
        proof {
            assert(word@ =~= input.subrange(start as int, start as int));
        }
        loop
            invariant
                self.wf(),
                self.spec_input() == input,
                start <= self.spec_position(),
                word@ == input.subrange(start as int, self.spec_position() as int),
                alpha_run_end(input, start) == alpha_run_end(input, self.spec_position()),
            ensures
                self.wf(),
                self.spec_input() == input,
                start <= self.spec_position(),
                word@ == input.subrange(start as int, self.spec_position() as int),
                alpha_run_end(input, start) == self.spec_position(),
            decreases input.len() - self.spec_position(),
        {
            let ghost p = self.spec_position();
            match self.peek() {
                Some(c) => {
                    if char_is_alphabetic(c) {
                        self.advance();
                        word.push(c);
                        proof {
                            assert(word@ =~= input.subrange(start as int, (p + 1) as int));
                        }
                    } else {
                        break;
                    }
                },
                None => {
                    break;
                },
            }
        }
        if vec_eq_str(&word, "true") {
            Ok(Token::Boolean(true))
        } else if vec_eq_str(&word, "false") {
            Ok(Token::Boolean(false))
        } else if vec_eq_str(&word, "null") {
            Ok(Token::Null)
        } else {
            Err(JsonError::UnexpectedToken {
                expected: String::from_str("keyword"),
                found: chars_to_string(&word),
                position: start_pos,
            })
        }
    }

    /// Tokenizes the input from the current cursor to its end: the ordered
    /// token sequence of what remains, or the first lexical error. On
    /// success the cursor rests at the end of the input, so a second call
    /// yields an empty sequence.
    #[verifier::rlimit(100)]
    #[verifier::loop_isolation(false)]
    pub fn tokenize(&mut self) -> (r: Result<Vec<Token>, JsonError>)
        requires
            old(self).wf(),
        ensures
            final(self).spec_input() == old(self).spec_input(),
            final(self).wf(),
            match r {
                Ok(toks) => spec_tokenize(old(self).spec_input(), old(self).spec_position())
                    == Ok::<Seq<TokenModel>, ErrorModel>(tokens_model(toks@))
                    && final(self).spec_position() == final(self).spec_input().len(),
                Err(e) => spec_tokenize(old(self).spec_input(), old(self).spec_position())
                    == Err::<Seq<TokenModel>, ErrorModel>(e@),
            },
    {
        let ghost input0 = old(self).spec_input();
        let ghost pos0 = old(self).spec_position();
        let mut tokens: Vec<Token> = Vec::new();
        proof {
            match spec_tokenize(input0, pos0) {
                Ok(ts) => {
                    assert(tokens_model(tokens@) + ts =~= ts);
                    assert(tokens_model(tokens@) =~= Seq::<TokenModel>::empty());
                },
                Err(_) => {},
            }
        }
        while !self.is_at_end()
            invariant
                self.wf(),
                self.spec_input() == input0,
                spec_tokenize(input0, pos0) == tok_prepend(
                    tokens_model(tokens@),
                    spec_tokenize(input0, self.spec_position()),
                ),
            decreases self.spec_input().len() - self.spec_position(),
        {
            let ghost p = self.spec_position();
            let ghost pre = tokens_model(tokens@);
            let start_pos = self.position;
            let c = if let Some(ch) = self.peek() {
                ch
            } else {
                break;
            };
            if char_is_whitespace(c) {
                self.advance();
                proof {
                    assert(spec_tokenize(input0, p) == spec_tokenize(input0, p + 1));
                }
            } else if c == '{' {
                self.advance();
                tokens.push(Token::LeftBrace);
                proof {
                    lemma_tok_prepend_push(pre, TokenModel::LeftBrace, spec_tokenize(input0, p + 1));
                    assert(tokens_model(tokens@) =~= pre.push(TokenModel::LeftBrace));
                }
            } else if c == '}' {
                self.advance();
                tokens.push(Token::RightBrace);
                proof {
                    lemma_tok_prepend_push(pre, TokenModel::RightBrace, spec_tokenize(input0, p + 1));
                    assert(tokens_model(tokens@) =~= pre.push(TokenModel::RightBrace));
                }
            } else if c == '[' {
                self.advance();
                tokens.push(Token::LeftBracket);
                proof {
                    lemma_tok_prepend_push(pre, TokenModel::LeftBracket, spec_tokenize(input0, p + 1));
                    assert(tokens_model(tokens@) =~= pre.push(TokenModel::LeftBracket));
                }
            } else if c == ']' {
                self.advance();
                tokens.push(Token::RightBracket);
                proof {
                    lemma_tok_prepend_push(pre, TokenModel::RightBracket, spec_tokenize(input0, p + 1));
                    assert(tokens_model(tokens@) =~= pre.push(TokenModel::RightBracket));
                }
            } else if c == ',' {
                self.advance();
                tokens.push(Token::Comma);
                proof {
                    lemma_tok_prepend_push(pre, TokenModel::Comma, spec_tokenize(input0, p + 1));
                    assert(tokens_model(tokens@) =~= pre.push(TokenModel::Comma));
                }
            } else if c == ':' {
                self.advance();
                tokens.push(Token::Colon);
                proof {
                    lemma_tok_prepend_push(pre, TokenModel::Colon, spec_tokenize(input0, p + 1));
                    assert(tokens_model(tokens@) =~= pre.push(TokenModel::Colon));
                }
            } else if c == '"' {
                proof {
                    lemma_string_rest_bounds(input0, p, p + 1);
                }
                match self.string(start_pos) {
                    Ok(t) => {
                        tokens.push(t);
                        proof {
                            lemma_tok_prepend_push(
                                pre,
                                t@,
                                spec_tokenize(input0, self.spec_position()),
                            );
                            assert(tokens_model(tokens@) =~= pre.push(t@));
                        }
                    },
                    Err(e) => {
                        return Err(e);
                    },
                }
            } else {
                let u: u32 = c as u32;
                if c == '-' || (48 <= u && u <= 57) {
                    proof {
                        assert(is_number_char(input0[p as int]));
                        lemma_number_run_bounds(input0, p);
                    }
                    match self.number(start_pos) {
                        Ok(t) => {
                            tokens.push(t);
                            proof {
                                let end = number_run_end(input0, p);
                                assert(spec_tokenize(input0, p) == tok_cons(
                                    t@,
                                    spec_tokenize(input0, end),
                                ));
                                lemma_tok_prepend_push(
                                    pre,
                                    t@,
                                    spec_tokenize(input0, self.spec_position()),
                                );
                                assert(tokens_model(tokens@) =~= pre.push(t@));
                            }
                        },
                        Err(e) => {
                            return Err(e);
                        },
                    }
                } else if char_is_alphabetic(c) {
                    proof {
                        lemma_alpha_run_bounds(input0, p);
                    }
                    match self.keyword(start_pos) {
                        Ok(t) => {
                            tokens.push(t);
                            proof {
                                lemma_tokenize_keyword(input0, p, t@);
                                lemma_tok_prepend_push(
                                    pre,
                                    t@,
                                    spec_tokenize(input0, self.spec_position()),
                                );
                                assert(tokens_model(tokens@) =~= pre.push(t@));
                            }
                        },
                        Err(e) => {
                            return Err(e);
                        },
                    }
                } else {
                    let mut found: Vec<char> = Vec::new();
                    found.push(c);
                    return Err(JsonError::UnexpectedToken {
                        expected: String::from_str("valid JSON value"),
                        found: chars_to_string(&found),
                        position: start_pos,
                    });
                }
            }
        }
        proof {
            match spec_tokenize(input0, self.spec_position()) {
                Ok(ts) => {
                    assert(tokens_model(tokens@) + ts =~= tokens_model(tokens@));
                },
                Err(_) => {},
            }
        }
        Ok(tokens)
    }
}

/// Tokenizes `input` from its start.
pub fn tokenize(input: &str) -> (r: Result<Vec<Token>, JsonError>)
    ensures
        match r {
            Ok(toks) => spec_tokenize(input@, 0) == Ok::<Seq<TokenModel>, ErrorModel>(
                tokens_model(toks@),
            ),
            Err(e) => spec_tokenize(input@, 0) == Err::<Seq<TokenModel>, ErrorModel>(e@),
        },
{
    let mut t = Tokenizer::new(input);
    t.tokenize()
}

} // verus!
