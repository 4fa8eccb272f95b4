//! The parser: one-token lookahead over an owned token buffer, building a
//! `JsonValue` tree by recursive descent. Error positions are token
//! indices.

use vstd::prelude::*;
use vstd::string::StringExecFns;

use crate::error::{ErrorModel, JsonError};
use crate::tokenizer::{spec_tokenize, token_found_text, tokens_model, Token, TokenModel, Tokenizer};
use crate::value::{
    lemma_models_of, lemma_pairs_model, models_of, obj_insert, obj_set, pairs_model, JsonValue,
    ValueModel,
};

verus! {

/// What parsing one value at token index `cur` yields, with the count of
/// tokens a successful parse consumes. The count is meaningful only for
/// `Ok` outcomes.
pub open spec fn sp_value(ts: Seq<TokenModel>, cur: nat) -> (Result<ValueModel, ErrorModel>, nat)
    decreases ts.len() - cur, 1int,
{
    if cur >= ts.len() {
        (Err(ErrorModel::UnexpectedEndOfInput { expected: "JSON value"@, position: cur }), 0)
    } else {
        match ts[cur as int] {
            TokenModel::LeftBracket => {
                let (r, cnt) = sp_array_rest(ts, cur + 1);
                (r, 1 + cnt)
            },
            TokenModel::LeftBrace => {
                let (r, cnt) = sp_object_rest(ts, cur + 1);
                (r, 1 + cnt)
            },
            TokenModel::Null => (Ok(ValueModel::Null), 1),
            TokenModel::Boolean(b) => (Ok(ValueModel::Boolean(b)), 1),
            TokenModel::Number(bits) => (Ok(ValueModel::Number(bits)), 1),
            TokenModel::Str(s) => (Ok(ValueModel::Str(s)), 1),
            t => (
                Err(ErrorModel::UnexpectedToken {
                    expected: "value"@,
                    found: token_found_text(t),
                    position: cur,
                }),
                1,
            ),
        }
    }
}

/// What parsing the inside of an array after its `[` yields: an empty
/// array closed at once, or its elements.
pub open spec fn sp_array_rest(ts: Seq<TokenModel>, cur: nat) -> (Result<ValueModel, ErrorModel>, nat)
    decreases ts.len() - cur, 3int,
{
    if cur < ts.len() && ts[cur as int] is RightBracket {
        (Ok(ValueModel::Array(Seq::empty())), 1)
    } else {
        let (r, cnt) = sp_array_items(ts, cur);
        (
            match r {
                Ok(vs) => Ok(ValueModel::Array(vs)),
                Err(e) => Err(e),
            },
            cnt,
        )
    }
}

/// What parsing `value (',' value)* ']'` from `cur` yields: the element
/// list, the closing bracket consumed; a comma directly before the
/// closing bracket is rejected.
pub open spec fn sp_array_items(ts: Seq<TokenModel>, cur: nat) -> (
    Result<Seq<ValueModel>, ErrorModel>,
    nat,
)
    decreases ts.len() - cur, 2int,
{
    let (r0, c0) = sp_value(ts, cur);
    match r0 {
        Err(e) => (Err(e), c0),
        Ok(v) => {
            let p = cur + c0;
            if p >= ts.len() {
                (Err(ErrorModel::UnexpectedEndOfInput { expected: "']'"@, position: p }), c0)
            } else {
                match ts[p as int] {
                    TokenModel::Comma => {
                        if p + 1 < ts.len() && ts[p + 1 as int] is RightBracket {
                            (
                                Err(ErrorModel::UnexpectedToken {
                                    expected: "value"@,
                                    found: "']' (trailing comma)"@,
                                    position: p,
                                }),
                                c0 + 1,
                            )
                        } else {
                            let (r1, c1) = sp_array_items(ts, p + 1);
                            (
                                match r1 {
                                    Ok(vs) => Ok(seq![v] + vs),
                                    Err(e) => Err(e),
                                },
                                c0 + 1 + c1,
                            )
                        }
                    },
                    TokenModel::RightBracket => (Ok(seq![v]), c0 + 1),
                    t => (
                        Err(ErrorModel::UnexpectedToken {
                            expected: "',' or ']'"@,
                            found: token_found_text(t),
                            position: p,
                        }),
                        c0 + 1,
                    ),
                }
            }
        },
    }
}

/// What parsing the inside of an object after its `{` yields: an empty
/// object closed at once, or its pairs folded by `obj_insert`, so a later
/// duplicate key wins.
pub open spec fn sp_object_rest(ts: Seq<TokenModel>, cur: nat) -> (
    Result<ValueModel, ErrorModel>,
    nat,
)
    decreases ts.len() - cur, 3int,
{
    if cur < ts.len() && ts[cur as int] is RightBrace {
        (Ok(ValueModel::Object(Seq::empty())), 1)
    } else {
        let (r, cnt) = sp_object_items(ts, cur);
        (
            match r {
                Ok(ps) => Ok(ValueModel::Object(obj_fold(Seq::empty(), ps))),
                Err(e) => Err(e),
            },
            cnt,
        )
    }
}

/// What parsing `string ':' value (',' string ':' value)* '}'` from `cur`
/// yields: the raw pair list in source order, the closing brace consumed.
pub open spec fn sp_object_items(ts: Seq<TokenModel>, cur: nat) -> (
    Result<Seq<(Seq<char>, ValueModel)>, ErrorModel>,
    nat,
)
    decreases ts.len() - cur, 2int,
{
    if cur >= ts.len() {
        (Err(ErrorModel::UnexpectedEndOfInput { expected: "string key"@, position: cur }), 0)
    } else {
        match ts[cur as int] {
            TokenModel::Str(k) => {
                if cur + 1 >= ts.len() {
                    (Err(ErrorModel::UnexpectedEndOfInput { expected: "':'"@, position: cur + 1 }), 1)
                } else {
                    match ts[cur + 1 as int] {
                        TokenModel::Colon => {
                            let (r0, c0) = sp_value(ts, cur + 2);
                            match r0 {
                                Err(e) => (Err(e), 2 + c0),
                                Ok(v) => {
                                    let p = cur + 2 + c0;
                                    if p >= ts.len() {
                                        (
                                            Err(ErrorModel::UnexpectedEndOfInput {
                                                expected: "'}'"@,
                                                position: p,
                                            }),
                                            2 + c0,
                                        )
                                    } else {
                                        match ts[p as int] {
                                            TokenModel::Comma => {
                                                if p + 1 < ts.len() && ts[p + 1 as int]
                                                    is RightBrace {
                                                    (
                                                        Err(ErrorModel::UnexpectedToken {
                                                            expected: "string key"@,
                                                            found: "'}' (trailing comma)"@,
                                                            position: p,
                                                        }),
                                                        2 + c0 + 1,
                                                    )
                                                } else {
                                                    let (r1, c1) = sp_object_items(ts, p + 1);
                                                    (
                                                        match r1 {
                                                            Ok(ps) => Ok(seq![(k, v)] + ps),
                                                            Err(e) => Err(e),
                                                        },
                                                        2 + c0 + 1 + c1,
                                                    )
                                                }
                                            },
                                            TokenModel::RightBrace => (Ok(seq![(k, v)]), 2 + c0 + 1),
                                            t => (
                                                Err(ErrorModel::UnexpectedToken {
                                                    expected: "',' or '}'"@,
                                                    found: token_found_text(t),
                                                    position: p,
                                                }),
                                                2 + c0 + 1,
                                            ),
                                        }
                                    }
                                },
                            }
                        },
                        t => (
                            Err(ErrorModel::UnexpectedToken {
                                expected: "':'"@,
                                found: token_found_text(t),
                                position: cur + 1,
                            }),
                            2,
                        ),
                    }
                }
            },
            t => (
                Err(ErrorModel::UnexpectedToken {
                    expected: "string key"@,
                    found: token_found_text(t),
                    position: cur,
                }),
                1,
            ),
        }
    }
}

/// Folds raw pairs into an object pair list by successive `obj_insert`,
/// left to right, so a later duplicate key overwrites an earlier one.
pub open spec fn obj_fold(
    acc: Seq<(Seq<char>, ValueModel)>,
    raw: Seq<(Seq<char>, ValueModel)>,
) -> Seq<(Seq<char>, ValueModel)>
    decreases raw.len(),
{
    if raw.len() == 0 {
        acc
    } else {
        obj_fold(obj_insert(acc, raw[0].0, raw[0].1), raw.subrange(1, raw.len() as int))
    }
}

/// Folding one more pair at the right inserts it into the folded list.
pub proof fn lemma_obj_fold_push(
    acc: Seq<(Seq<char>, ValueModel)>,
    raw: Seq<(Seq<char>, ValueModel)>,
    k: Seq<char>,
    v: ValueModel,
)
    ensures
        obj_fold(acc, raw.push((k, v))) == obj_insert(obj_fold(acc, raw), k, v),
    decreases raw.len(),
{
    reveal_with_fuel(obj_fold, 3);
    if raw.len() == 0 {
        assert(raw.push((k, v))[0] == (k, v));
        assert(raw.push((k, v)).subrange(1, raw.push((k, v)).len() as int) =~= Seq::<
            (Seq<char>, ValueModel),
        >::empty());
        assert(obj_fold(acc, raw) == acc);
        assert(obj_fold(acc, raw.push((k, v))) == obj_insert(acc, k, v));
    } else {
        assert(raw.push((k, v))[0] == raw[0]);
        assert(raw.push((k, v)).subrange(1, raw.push((k, v)).len() as int) =~= raw.subrange(
            1,
            raw.len() as int,
        ).push((k, v)));
        lemma_obj_fold_push(obj_insert(acc, raw[0].0, raw[0].1), raw.subrange(1, raw.len() as int), k, v);
        assert(obj_fold(acc, raw.push((k, v))) == obj_fold(
            obj_insert(acc, raw[0].0, raw[0].1),
            raw.subrange(1, raw.len() as int).push((k, v)),
        ));
        assert(obj_fold(acc, raw) == obj_fold(
            obj_insert(acc, raw[0].0, raw[0].1),
            raw.subrange(1, raw.len() as int),
        ));
    }
}

/// Composition of a finished element prefix with the items still to
/// parse: `full` is what parsing all items from the prefix's start yields.
pub open spec fn items_agree(
    full: (Result<Seq<ValueModel>, ErrorModel>, nat),
    pre: Seq<ValueModel>,
    delta: nat,
    rest: (Result<Seq<ValueModel>, ErrorModel>, nat),
) -> bool {
    match rest.0 {
        Ok(vs) => full == (Ok::<Seq<ValueModel>, ErrorModel>(pre + vs), (delta + rest.1) as nat),
        Err(e) => full.0 == Err::<Seq<ValueModel>, ErrorModel>(e),
    }
}

/// As `items_agree`, for object pair lists.
pub open spec fn pairs_agree(
    full: (Result<Seq<(Seq<char>, ValueModel)>, ErrorModel>, nat),
    pre: Seq<(Seq<char>, ValueModel)>,
    delta: nat,
    rest: (Result<Seq<(Seq<char>, ValueModel)>, ErrorModel>, nat),
) -> bool {
    match rest.0 {
        Ok(ps) => full == (
            Ok::<Seq<(Seq<char>, ValueModel)>, ErrorModel>(pre + ps),
            (delta + rest.1) as nat,
        ),
        Err(e) => full.0 == Err::<Seq<(Seq<char>, ValueModel)>, ErrorModel>(e),
    }
}

/// The parser: an owned token buffer and a cursor over it.
#[derive(Debug)]
pub struct JsonParser {
    tokens: Vec<Token>,
    current: usize,
}

impl JsonParser {
    /// The models of the token buffer.
    pub closed spec fn spec_tokens(&self) -> Seq<TokenModel> {
        tokens_model(self.tokens@)
    }

    /// The cursor, a token index.
    pub closed spec fn spec_current(&self) -> nat {
        self.current as nat
    }

    /// The cursor never passes the end of the buffer.
    pub open spec fn wf(&self) -> bool {
        self.spec_current() <= self.spec_tokens().len()
    }

    /// Tokenizes `input` eagerly; a lexical error is reported at once, a
    /// token sequence is stored with the cursor at its start.
    pub fn new(input: &str) -> (r: Result<JsonParser, JsonError>)
        ensures
            match r {
                Ok(p) => spec_tokenize(input@, 0) == Ok::<Seq<TokenModel>, ErrorModel>(
                    p.spec_tokens(),
                ) && p.spec_current() == 0 && p.wf(),
                Err(e) => spec_tokenize(input@, 0) == Err::<Seq<TokenModel>, ErrorModel>(e@),
            },
    {
        let mut tokenizer = Tokenizer::new(input);
        match tokenizer.tokenize() {
            Ok(tokens) => Ok(JsonParser { tokens, current: 0 }),
            Err(e) => Err(e),
        }
    }

    /// Whether the cursor has passed the last token.
    pub fn is_at_end(&self) -> (r: bool)
        ensures
            r == (self.spec_current() >= self.spec_tokens().len()),
    {
        self.current >= self.tokens.len()
    }

    /// Parses one complete value from the cursor on, as `sp_value` says:
    /// on success the cursor rests just past the value, so a further call
    /// on an exhausted parser reports the end of the input.
    #[verifier::loop_isolation(false)]
    pub fn parse(&mut self) -> (r: Result<JsonValue, JsonError>)
        requires
            old(self).wf(),
        ensures
            final(self).spec_tokens() == old(self).spec_tokens(),
            final(self).wf(),
            match r {
                Ok(v) => sp_value(old(self).spec_tokens(), old(self).spec_current()).0
                    == Ok::<ValueModel, ErrorModel>(v.model()) && final(self).spec_current() == old(
                    self,
                ).spec_current() + sp_value(old(self).spec_tokens(), old(self).spec_current()).1,
                Err(e) => sp_value(old(self).spec_tokens(), old(self).spec_current()).0
                    == Err::<ValueModel, ErrorModel>(e@),
            },
        decreases old(self).spec_tokens().len() - old(self).spec_current(), 1int,
    {
        if self.current >= self.tokens.len() {
            return Err(JsonError::UnexpectedEndOfInput {
                expected: String::from_str("JSON value"),
                position: self.current,
            });
        }
        let dispatch_array = match &self.tokens[self.current] {
            Token::LeftBracket => true,
            _ => false,
        };
        let dispatch_object = match &self.tokens[self.current] {
            Token::LeftBrace => true,
            _ => false,
        };
        if dispatch_array {
            self.parse_array()
        } else if dispatch_object {
            self.parse_object()
        } else {
            self.parse_primitives()
        }
    }

    /// Consumes one token and maps the literal-carrying variants to their
    /// value; a structural token is a fault reported at its own index.
    fn parse_primitives(&mut self) -> (r: Result<JsonValue, JsonError>)
        requires
            old(self).wf(),
            old(self).spec_current() < old(self).spec_tokens().len(),
            !(old(self).spec_tokens()[old(self).spec_current() as int] is LeftBracket),
            !(old(self).spec_tokens()[old(self).spec_current() as int] is LeftBrace),
        ensures
            final(self).spec_tokens() == old(self).spec_tokens(),
            final(self).wf(),
            match r {
                Ok(v) => sp_value(old(self).spec_tokens(), old(self).spec_current()).0
                    == Ok::<ValueModel, ErrorModel>(v.model()) && final(self).spec_current() == old(
                    self,
                ).spec_current() + sp_value(old(self).spec_tokens(), old(self).spec_current()).1,
                Err(e) => sp_value(old(self).spec_tokens(), old(self).spec_current()).0
                    == Err::<ValueModel, ErrorModel>(e@),
            },
    {
        let n = self.tokens.len();
        let pos = self.current;
        proof {
            assert(pos + 1 <= n);  // the cursor bump below cannot overflow
        }
        match &self.tokens[pos] {
            Token::Null => {
                self.current = pos + 1;
                Ok(JsonValue::Null)
            },
            Token::Boolean(b) => {
                let bv = *b;
                self.current = pos + 1;
                Ok(JsonValue::Boolean(bv))
            },
            Token::Number(bits) => {
                let nv = *bits;
                self.current = pos + 1;
                Ok(JsonValue::Number(nv))
            },
            Token::String(s) => {
                let sv = s.clone();
                self.current = pos + 1;
                Ok(JsonValue::String(sv))
            },
            t => {
                let found = t.describe();
                self.current = pos + 1;
                Err(JsonError::UnexpectedToken {
                    expected: String::from_str("value"),
                    found,
                    position: pos,
                })
            },
        }
    }

    /// Parses the elements and closing bracket of an array whose `[` sits
    /// under the cursor, as `sp_array_rest` says of the tokens after it.
    #[verifier::loop_isolation(false)]
    fn parse_array(&mut self) -> (r: Result<JsonValue, JsonError>)
        requires
            old(self).wf(),
            old(self).spec_current() < old(self).spec_tokens().len(),
            old(self).spec_tokens()[old(self).spec_current() as int] is LeftBracket,
        ensures
            final(self).spec_tokens() == old(self).spec_tokens(),
            final(self).wf(),
            match r {
                Ok(v) => sp_value(old(self).spec_tokens(), old(self).spec_current()).0
                    == Ok::<ValueModel, ErrorModel>(v.model()) && final(self).spec_current() == old(
                    self,
                ).spec_current() + sp_value(old(self).spec_tokens(), old(self).spec_current()).1,
                Err(e) => sp_value(old(self).spec_tokens(), old(self).spec_current()).0
                    == Err::<ValueModel, ErrorModel>(e@),
            },
        decreases old(self).spec_tokens().len() - old(self).spec_current(), 0int,
    {
        broadcast use lemma_models_of;

        let ghost ts = old(self).spec_tokens();
        let n = self.tokens.len();
        self.current = self.current + 1;  // consume '['
        let ghost start = self.spec_current();
        let mut elements: Vec<JsonValue> = Vec::new();
        if self.current < n {
            let empty_now = match &self.tokens[self.current] {
                Token::RightBracket => true,
                _ => false,
            };
            if empty_now {
                self.current = self.current + 1;
                proof {
                    assert(models_of(elements@) =~= Seq::<ValueModel>::empty());
                }
                return Ok(JsonValue::Array(elements));
            }
        }
        loop
            invariant
                self.wf(),
                self.spec_tokens() == ts,
                start <= self.spec_current(),
                items_agree(
                    sp_array_items(ts, start),
                    models_of(elements@),
                    (self.spec_current() - start) as nat,
                    sp_array_items(ts, self.spec_current()),
                ),
            decreases ts.len() - self.spec_current(),
        {
            let ghost pre = models_of(elements@);
            let ghost mut vm = ValueModel::Null;
            match self.parse() {
                Ok(v) => {
                    proof {
                        vm = v.model();
                    }
                    elements.push(v);
                    proof {
                        assert(models_of(elements@) =~= pre.push(vm));
                    }
                },
                Err(e) => {
                    return Err(e);
                },
            }
            if self.current >= self.tokens.len() {
                return Err(JsonError::UnexpectedEndOfInput {
                    expected: String::from_str("']'"),
                    position: self.current,
                });
            }
            let ghost p = self.spec_current();
            let sep_comma = match &self.tokens[self.current] {
                Token::Comma => true,
                _ => false,
            };
            let sep_close = match &self.tokens[self.current] {
                Token::RightBracket => true,
                _ => false,
            };
            if sep_comma {
                self.current = self.current + 1;
                if self.current < self.tokens.len() {
                    let trailing = match &self.tokens[self.current] {
                        Token::RightBracket => true,
                        _ => false,
                    };
                    if trailing {
                        return Err(JsonError::UnexpectedToken {
                            expected: String::from_str("value"),
                            found: String::from_str("']' (trailing comma)"),
                            position: self.current - 1,
                        });
                    }
                }
                proof {
                    let (r1, c1) = sp_array_items(ts, p + 1);
                    match r1 {
                        Ok(vs) => {
                            assert(models_of(elements@) + vs =~= pre + (seq![vm] + vs));
                        },
                        Err(_) => {},
                    }
                }
            } else if sep_close {
                self.current = self.current + 1;
                proof {
                    assert(models_of(elements@) =~= pre + seq![vm]);
                }
                return Ok(JsonValue::Array(elements));
            } else {
                let found = self.tokens[self.current].describe();
                return Err(JsonError::UnexpectedToken {
                    expected: String::from_str("',' or ']'"),
                    found,
                    position: self.current,
                });
            }
        }
    }

    /// Parses the pairs and closing brace of an object whose `{` sits
    /// under the cursor, as `sp_object_rest` says of the tokens after it.
    #[verifier::loop_isolation(false)]
    fn parse_object(&mut self) -> (r: Result<JsonValue, JsonError>)
        requires
            old(self).wf(),
            old(self).spec_current() < old(self).spec_tokens().len(),
            old(self).spec_tokens()[old(self).spec_current() as int] is LeftBrace,
        ensures
            final(self).spec_tokens() == old(self).spec_tokens(),
            final(self).wf(),
            match r {
                Ok(v) => sp_value(old(self).spec_tokens(), old(self).spec_current()).0
                    == Ok::<ValueModel, ErrorModel>(v.model()) && final(self).spec_current() == old(
                    self,
                ).spec_current() + sp_value(old(self).spec_tokens(), old(self).spec_current()).1,
                Err(e) => sp_value(old(self).spec_tokens(), old(self).spec_current()).0
                    == Err::<ValueModel, ErrorModel>(e@),
            },
        decreases old(self).spec_tokens().len() - old(self).spec_current(), 0int,
    {
        broadcast use lemma_pairs_model;

        let ghost ts = old(self).spec_tokens();
        let n = self.tokens.len();
        self.current = self.current + 1;  // consume '{'
        let ghost start = self.spec_current();
        let mut map: Vec<(String, JsonValue)> = Vec::new();
        let ghost mut raw: Seq<(Seq<char>, ValueModel)> = Seq::empty();
        if self.current < n {
            let empty_now = match &self.tokens[self.current] {
                Token::RightBrace => true,
                _ => false,
            };
            if empty_now {
                self.current = self.current + 1;
                proof {
                    assert(pairs_model(map@) =~= Seq::<(Seq<char>, ValueModel)>::empty());
                }
                return Ok(JsonValue::Object(map));
            }
        }
        loop
            invariant
                self.wf(),
                self.spec_tokens() == ts,
                start <= self.spec_current(),
                pairs_model(map@) == obj_fold(Seq::empty(), raw),
                pairs_agree(
                    sp_object_items(ts, start),
                    raw,
                    (self.spec_current() - start) as nat,
                    sp_object_items(ts, self.spec_current()),
                ),
            decreases ts.len() - self.spec_current(),
        {
            let ghost raw0 = raw;
            if self.current >= self.tokens.len() {
                return Err(JsonError::UnexpectedEndOfInput {
                    expected: String::from_str("string key"),
                    position: self.current,
                });
            }
            let key: String = match &self.tokens[self.current] {
                Token::String(s) => {
                    let k = s.clone();
                    self.current = self.current + 1;
                    k
                },
                t => {
                    let found = t.describe();
                    return Err(JsonError::UnexpectedToken {
                        expected: String::from_str("string key"),
                        found,
                        position: self.current,
                    });
                },
            };
            let ghost gk = key@;
            if self.current >= self.tokens.len() {
                return Err(JsonError::UnexpectedEndOfInput {
                    expected: String::from_str("':'"),
                    position: self.current,
                });
            }
            let colon_ok = match &self.tokens[self.current] {
                Token::Colon => true,
                _ => false,
            };
            if !colon_ok {
                let found = self.tokens[self.current].describe();
                return Err(JsonError::UnexpectedToken {
                    expected: String::from_str("':'"),
                    found,
                    position: self.current,
                });
            }
            self.current = self.current + 1;
            let val = match self.parse() {
                Ok(v) => v,
                Err(e) => {
                    return Err(e);
                },
            };
            let ghost gv = val.model();
            obj_set(&mut map, key, val);
            proof {
                lemma_obj_fold_push(Seq::empty(), raw, gk, gv);
                raw = raw.push((gk, gv));
            }
            if self.current >= self.tokens.len() {
                return Err(JsonError::UnexpectedEndOfInput {
                    expected: String::from_str("'}'"),
                    position: self.current,
                });
            }
            let ghost p = self.spec_current();
            let sep_comma = match &self.tokens[self.current] {
                Token::Comma => true,
                _ => false,
            };
            let sep_close = match &self.tokens[self.current] {
                Token::RightBrace => true,
                _ => false,
            };
            if sep_comma {
                self.current = self.current + 1;
                if self.current < self.tokens.len() {
                    let trailing = match &self.tokens[self.current] {
                        Token::RightBrace => true,
                        _ => false,
                    };
                    if trailing {
                        return Err(JsonError::UnexpectedToken {
                            expected: String::from_str("string key"),
                            found: String::from_str("'}' (trailing comma)"),
                            position: self.current - 1,
                        });
                    }
                }
                proof {
                    let (r1, c1) = sp_object_items(ts, p + 1);
                    match r1 {
                        Ok(ps) => {
                            assert(raw + ps =~= raw0 + (seq![(gk, gv)] + ps));
                        },
                        Err(_) => {},
                    }
                }
            } else if sep_close {
                self.current = self.current + 1;
                proof {
                    assert(raw =~= raw0 + seq![(gk, gv)]);
                }
                return Ok(JsonValue::Object(map));
            } else {
                let found = self.tokens[self.current].describe();
                return Err(JsonError::UnexpectedToken {
                    expected: String::from_str("',' or '}'"),
                    found,
                    position: self.current,
                });
            }
        }
    }
}

/// What parsing a whole text yields: the tokenizer's error, or the first
/// value of the token sequence.
pub open spec fn spec_parse_text(s: Seq<char>) -> Result<ValueModel, ErrorModel> {
    match spec_tokenize(s, 0) {
        Ok(ts) => sp_value(ts, 0).0,
        Err(e) => Err(e),
    }
}

/// Parses `input` to one complete value: tokenize, then parse once.
/// Tokens after the first value are left unread, as `spec_parse_text`
/// says.
pub fn parse_json(input: &str) -> (r: Result<JsonValue, JsonError>)
    ensures
        match r {
            Ok(v) => spec_parse_text(input@) == Ok::<ValueModel, ErrorModel>(v.model()),
            Err(e) => spec_parse_text(input@) == Err::<ValueModel, ErrorModel>(e@),
        },
{
    let mut parser = match JsonParser::new(input) {
        Ok(p) => p,
        Err(e) => {
            return Err(e);
        },
    };
    parser.parse()
}

} // verus!
