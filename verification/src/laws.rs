//! The laws of the codec: parsing inverts compact formatting, and compact
//! formatting is idempotent across a reparse, for every value of
//! parse-producible shape — finite numbers and objects with unique keys.

use vstd::prelude::*;

use crate::error::ErrorModel;
use crate::num::num_ok;
use crate::parser::{
    obj_fold, sp_array_items, sp_array_rest, sp_object_items, sp_object_rest, sp_value,
    spec_parse_text,
};
use crate::text::{
    empty_exponent, is_alphabetic_char, is_ascii_digit_char, is_json_whitespace, is_number_char,
};
use crate::tokenizer::{
    alpha_run_end, number_run_end, spec_escape, spec_string_rest, spec_tokenize, tok_cons,
    tok_prepend, TokenModel,
};
use crate::value::{
    esc_char, esc_str, first_key_at, fmt_items, fmt_pairs, obj_insert, spec_escape_string,
    spec_format_compact, unique_keys, ValueModel,
};

verus! {

/// A value of parse-producible shape: every number is finite enough that
/// its minimal text reads back to the same bit pattern, and every object
/// has pairwise distinct keys. These are exactly the shapes the parser
/// itself builds, float formatting aside.
pub open spec fn round_trippable(v: ValueModel) -> bool
    decreases v, 1int,
{
    match v {
        ValueModel::Null => true,
        ValueModel::Boolean(_) => true,
        ValueModel::Number(bits) => num_ok(bits),
        ValueModel::Str(_) => true,
        ValueModel::Array(els) => {
            proof {
                assert(decreases_to!(v => els));
            }
            rt_items(els)
        },
        ValueModel::Object(ps) => {
            proof {
                assert(decreases_to!(v => ps));
            }
            unique_keys(ps) && rt_pairs(ps)
        },
    }
}

/// Every element of the sequence is round-trippable.
pub open spec fn rt_items(els: Seq<ValueModel>) -> bool
    decreases els, 0int,
{
    if els.len() == 0 {
        true
    } else {
        round_trippable(els[0]) && rt_items(els.subrange(1, els.len() as int))
    }
}

/// Every value of the pair list is round-trippable.
pub open spec fn rt_pairs(ps: Seq<(Seq<char>, ValueModel)>) -> bool
    decreases ps, 0int,
{
    if ps.len() == 0 {
        true
    } else {
        round_trippable(ps[0].1) && rt_pairs(ps.subrange(1, ps.len() as int))
    }
}

/// The token sequence of a value's compact text.
pub open spec fn tokens_of(v: ValueModel) -> Seq<TokenModel>
    decreases v, 1int,
{
    match v {
        ValueModel::Null => seq![TokenModel::Null],
        ValueModel::Boolean(b) => seq![TokenModel::Boolean(b)],
        ValueModel::Number(bits) => seq![TokenModel::Number(bits)],
        ValueModel::Str(s) => seq![TokenModel::Str(s)],
        ValueModel::Array(els) => {
            proof {
                assert(decreases_to!(v => els));
            }
            seq![TokenModel::LeftBracket] + tokens_of_items(els) + seq![TokenModel::RightBracket]
        },
        ValueModel::Object(ps) => {
            proof {
                assert(decreases_to!(v => ps));
            }
            seq![TokenModel::LeftBrace] + tokens_of_pairs(ps) + seq![TokenModel::RightBrace]
        },
    }
}

/// The comma-separated token sequences of array elements.
pub open spec fn tokens_of_items(els: Seq<ValueModel>) -> Seq<TokenModel>
    decreases els, 0int,
{
    if els.len() == 0 {
        Seq::empty()
    } else if els.len() == 1 {
        tokens_of(els[0])
    } else {
        tokens_of(els[0]) + seq![TokenModel::Comma] + tokens_of_items(
            els.subrange(1, els.len() as int),
        )
    }
}

/// The comma-separated token sequences of object pairs: key, colon, value.
pub open spec fn tokens_of_pairs(ps: Seq<(Seq<char>, ValueModel)>) -> Seq<TokenModel>
    decreases ps, 0int,
{
    if ps.len() == 0 {
        Seq::empty()
    } else if ps.len() == 1 {
        seq![TokenModel::Str(ps[0].0), TokenModel::Colon] + tokens_of(ps[0].1)
    } else {
        seq![TokenModel::Str(ps[0].0), TokenModel::Colon] + tokens_of(ps[0].1) + seq![
            TokenModel::Comma,
        ] + tokens_of_pairs(ps.subrange(1, ps.len() as int))
    }
}

/// A character that ends a number or keyword run wherever one of them
/// precedes it: in formatted output, a separator, a closer or a colon.
pub open spec fn value_boundary(c: char) -> bool {
    !is_number_char(c) && !is_alphabetic_char(c)
}

proof fn lemma_tok_prepend_nil(r: Result<Seq<TokenModel>, ErrorModel>)
    ensures
        tok_prepend(Seq::empty(), r) == r,
{
    match r {
        Ok(ts) => {
            assert(Seq::<TokenModel>::empty() + ts =~= ts);
        },
        Err(_) => {},
    }
}

proof fn lemma_tok_prepend_assoc(
    a: Seq<TokenModel>,
    b: Seq<TokenModel>,
    r: Result<Seq<TokenModel>, ErrorModel>,
)
    ensures
        tok_prepend(a, tok_prepend(b, r)) == tok_prepend(a + b, r),
{
    match r {
        Ok(ts) => {
            assert(a + (b + ts) =~= (a + b) + ts);
        },
        Err(_) => {},
    }
}

proof fn lemma_subrange_split<A>(s: Seq<A>, a: int, x: Seq<A>, y: Seq<A>)
    requires
        0 <= a,
        a + x.len() + y.len() <= s.len(),
        s.subrange(a, a + x.len() + y.len()) == x + y,
    ensures
        s.subrange(a, a + x.len()) == x,
        s.subrange(a + x.len(), a + x.len() + y.len()) == y,
{
    assert(s.subrange(a, a + x.len()) =~= x) by {
        assert forall|i: int| 0 <= i < x.len() implies s[a + i] == x[i] by {
            assert((x + y)[i] == x[i]);
            assert(s.subrange(a, a + x.len() + y.len())[i] == s[a + i]);
        }
    }
    assert(s.subrange(a + x.len(), a + x.len() + y.len()) =~= y) by {
        assert forall|i: int| 0 <= i < y.len() implies s[a + x.len() + i] == y[i] by {
            assert((x + y)[x.len() + i] == y[i]);
            assert(s.subrange(a, a + x.len() + y.len())[x.len() + i] == s[a + x.len() + i]);
        }
    }
}

proof fn lemma_alpha_run_exact(s: Seq<char>, p: nat, e: nat)
    requires
        p <= e <= s.len(),
        forall|i: int| p <= i < e ==> is_alphabetic_char(#[trigger] s[i]),
        e == s.len() || !is_alphabetic_char(s[e as int]),
    ensures
        alpha_run_end(s, p) == e,
    decreases e - p,
{
    if p < e {
        lemma_alpha_run_exact(s, p + 1, e);
    }
}

proof fn lemma_number_run_exact(s: Seq<char>, p: nat, e: nat)
    requires
        p <= e <= s.len(),
        forall|i: int| p <= i < e ==> is_number_char(#[trigger] s[i]),
        e == s.len() || !is_number_char(s[e as int]),
    ensures
        number_run_end(s, p) == e,
    decreases e - p,
{
    if p < e {
        lemma_number_run_exact(s, p + 1, e);
    }
}

/// Scanning the escaped form of `content` followed by a closing quote
/// recovers `content` and consumes through the quote.
proof fn lemma_scan_escaped(s: Seq<char>, start: nat, p: nat, content: Seq<char>)
    requires
        p + esc_str(content).len() + 1 <= s.len(),
        s.subrange(p as int, (p + esc_str(content).len()) as int) == esc_str(content),
        s[(p + esc_str(content).len()) as int] == '"',
    ensures
        spec_string_rest(s, start, p) == Ok::<(Seq<char>, nat), ErrorModel>(
            (content, (esc_str(content).len() + 1) as nat),
        ),
    decreases content.len(),
{
    if content.len() == 0 {
        assert(esc_str(content).len() == 0);
        assert(s[p as int] == '"');
        assert(content =~= Seq::<char>::empty());
    } else {
        let c0 = content[0];
        let rest = content.subrange(1, content.len() as int);
        assert(esc_str(content) == esc_char(c0) + esc_str(rest));
        lemma_subrange_split(s, p as int, esc_char(c0), esc_str(rest));
        let q = p + esc_char(c0).len();
        lemma_scan_escaped(s, start, q as nat, rest);
        assert(seq![c0] + rest =~= content);
        if c0 == '"' || c0 == '\\' || c0 == '\n' || c0 == '\r' || c0 == '\t' {
            assert(esc_char(c0).len() == 2);
            assert(s[p as int] == '\\');
            assert(s[p + 1 as int] == esc_char(c0)[1]);
            assert(spec_escape(s, p + 1, p) == Ok::<(char, nat), ErrorModel>((c0, 1nat)));
            assert(spec_string_rest(s, start, p) == Ok::<(Seq<char>, nat), ErrorModel>(
                (content, (esc_str(content).len() + 1) as nat),
            ));
        } else {
            assert(esc_char(c0).len() == 1);
            assert(s[p as int] == c0);
            assert(spec_string_rest(s, start, p) == Ok::<(Seq<char>, nat), ErrorModel>(
                (content, (esc_str(content).len() + 1) as nat),
            ));
        }
    }
}

/// Tokenizing a quoted, escaped string at `p` yields its string token and
/// continues after the closing quote.
proof fn lemma_tokenize_string(s: Seq<char>, p: nat, k: Seq<char>)
    requires
        p + spec_escape_string(k).len() <= s.len(),
        s.subrange(p as int, (p + spec_escape_string(k).len()) as int) == spec_escape_string(k),
    ensures
        spec_tokenize(s, p) == tok_cons(
            TokenModel::Str(k),
            spec_tokenize(s, p + spec_escape_string(k).len()),
        ),
{
    let text = spec_escape_string(k);
    assert(text == seq!['"'] + (esc_str(k) + seq!['"'])) by {
        assert(seq!['"'] + esc_str(k) + seq!['"'] =~= seq!['"'] + (esc_str(k) + seq!['"']));
    }
    lemma_subrange_split(s, p as int, seq!['"'], esc_str(k) + seq!['"']);
    lemma_subrange_split(s, p as int + 1, esc_str(k), seq!['"']);
    assert(s[p as int] == '"') by {
        assert(s.subrange(p as int, p as int + 1)[0] == s[p as int]);
        assert(seq!['"'][0] == '"');
    }
    assert(s[(p + 1 + esc_str(k).len()) as int] == '"') by {
        assert(s.subrange(
            p as int + 1 + esc_str(k).len(),
            p as int + 1 + esc_str(k).len() + 1,
        )[0] == s[p as int + 1 + esc_str(k).len()]);
    }
    lemma_scan_escaped(s, p, (p + 1) as nat, k);
    assert(spec_tokenize(s, p) == tok_cons(
        TokenModel::Str(k),
        spec_tokenize(s, p + spec_escape_string(k).len()),
    ));
}


/// Tokenizing the compact text of a round-trippable value at `p` yields
/// exactly its token sequence and continues at the character after it.
#[verifier::rlimit(100)]
proof fn lemma_tokenize_value(s: Seq<char>, p: nat, v: ValueModel)
    requires
        round_trippable(v),
        p + spec_format_compact(v).len() <= s.len(),
        s.subrange(p as int, (p + spec_format_compact(v).len()) as int) == spec_format_compact(v),
        p + spec_format_compact(v).len() == s.len() || value_boundary(
            s[(p + spec_format_compact(v).len()) as int],
        ),
    ensures
        spec_tokenize(s, p) == tok_prepend(
            tokens_of(v),
            spec_tokenize(s, (p + spec_format_compact(v).len()) as nat),
        ),
    decreases v, 1int,
{
    let text = spec_format_compact(v);
    let e = (p + text.len()) as nat;
    match v {
        ValueModel::Null => {
            reveal_strlit("null");
            assert forall|i: int| p <= i < e implies is_alphabetic_char(#[trigger] s[i]) by {
                assert(s.subrange(p as int, e as int)[i - p] == s[i]);
            }
            lemma_alpha_run_exact(s, p, e);
            assert(s[p as int] == 'n') by {
                assert(s.subrange(p as int, e as int)[0] == s[p as int]);
            }
            assert(s.subrange(p as int, e as int) =~= s.subrange(p as int, alpha_run_end(
                s,
                p,
            ) as int));
            crate::tokenizer::lemma_tokenize_keyword(s, p, TokenModel::Null);
        },
        ValueModel::Boolean(b) => {
            reveal_strlit("true");
            reveal_strlit("false");
            assert forall|i: int| p <= i < e implies is_alphabetic_char(#[trigger] s[i]) by {
                assert(s.subrange(p as int, e as int)[i - p] == s[i]);
            }
            lemma_alpha_run_exact(s, p, e);
            assert(s[p as int] == (if b {
                't'
            } else {
                'f'
            })) by {
                assert(s.subrange(p as int, e as int)[0] == s[p as int]);
            }
            assert(s.subrange(p as int, e as int) =~= s.subrange(p as int, alpha_run_end(
                s,
                p,
            ) as int));
            crate::tokenizer::lemma_tokenize_keyword(s, p, TokenModel::Boolean(b));
        },
        ValueModel::Number(bits) => {
            assert(num_ok(bits));
            assert forall|i: int| p <= i < e implies is_number_char(#[trigger] s[i]) by {
                assert(s.subrange(p as int, e as int)[i - p] == s[i]);
            }
            lemma_number_run_exact(s, p, e);
            let c = s[p as int];
            assert(c == text[0]) by {
                assert(s.subrange(p as int, e as int)[0] == s[p as int]);
            }
            assert(c == '-' || is_ascii_digit_char(c));
            assert(!is_json_whitespace(c));
            assert(!is_alphabetic_char(c));
            assert(s.subrange(p as int, number_run_end(s, p) as int) == text);
            assert(!empty_exponent(text));
            assert(spec_tokenize(s, p) == tok_cons(TokenModel::Number(bits), spec_tokenize(s, e)));
        },
        ValueModel::Str(content) => {
            lemma_tokenize_string(s, p, content);
        },
        ValueModel::Array(els) => {
            assert(text == seq!['['] + (fmt_items(els) + seq![']'])) by {
                assert(seq!['['] + fmt_items(els) + seq![']'] =~= seq!['['] + (fmt_items(els)
                    + seq![']']));
            }
            lemma_subrange_split(s, p as int, seq!['['], fmt_items(els) + seq![']']);
            lemma_subrange_split(s, p as int + 1, fmt_items(els), seq![']']);
            assert(s[p as int] == '[') by {
                assert(s.subrange(p as int, p as int + 1)[0] == s[p as int]);
            }
            let q = p + 1 + fmt_items(els).len();
            assert(s[q as int] == ']') by {
                assert(s.subrange(q as int, q + 1 as int)[0] == s[q as int]);
            }
            assert(spec_tokenize(s, p) == tok_cons(
                TokenModel::LeftBracket,
                spec_tokenize(s, p + 1),
            ));
            assert(decreases_to!(v => els));
            lemma_tokenize_items(s, (p + 1) as nat, els);
            assert(spec_tokenize(s, q as nat) == tok_cons(
                TokenModel::RightBracket,
                spec_tokenize(s, (q + 1) as nat),
            ));
            assert(q + 1 == e);
            let z = spec_tokenize(s, e);
            let items = tokens_of_items(els);
            lemma_tok_prepend_assoc(items, seq![TokenModel::RightBracket], z);
            lemma_tok_prepend_assoc(seq![TokenModel::LeftBracket], items + seq![
                TokenModel::RightBracket,
            ], z);
            assert(tokens_of(v) =~= seq![TokenModel::LeftBracket] + (items + seq![
                TokenModel::RightBracket,
            ]));
        },
        ValueModel::Object(ps) => {
            assert(text == seq!['{'] + (fmt_pairs(ps) + seq!['}'])) by {
                assert(seq!['{'] + fmt_pairs(ps) + seq!['}'] =~= seq!['{'] + (fmt_pairs(ps)
                    + seq!['}']));
            }
            lemma_subrange_split(s, p as int, seq!['{'], fmt_pairs(ps) + seq!['}']);
            lemma_subrange_split(s, p as int + 1, fmt_pairs(ps), seq!['}']);
            assert(s[p as int] == '{') by {
                assert(s.subrange(p as int, p as int + 1)[0] == s[p as int]);
            }
            let q = p + 1 + fmt_pairs(ps).len();
            assert(s[q as int] == '}') by {
                assert(s.subrange(q as int, q + 1 as int)[0] == s[q as int]);
            }
            assert(spec_tokenize(s, p) == tok_cons(TokenModel::LeftBrace, spec_tokenize(s, p + 1)));
            assert(decreases_to!(v => ps));
            lemma_tokenize_pairs(s, (p + 1) as nat, ps);
            assert(spec_tokenize(s, q as nat) == tok_cons(
                TokenModel::RightBrace,
                spec_tokenize(s, (q + 1) as nat),
            ));
            assert(q + 1 == e);
            let z = spec_tokenize(s, e);
            let pairs = tokens_of_pairs(ps);
            lemma_tok_prepend_assoc(pairs, seq![TokenModel::RightBrace], z);
            lemma_tok_prepend_assoc(seq![TokenModel::LeftBrace], pairs + seq![
                TokenModel::RightBrace,
            ], z);
            assert(tokens_of(v) =~= seq![TokenModel::LeftBrace] + (pairs + seq![
                TokenModel::RightBrace,
            ]));
        },
    }
}

/// Tokenizing the comma-joined compact texts of round-trippable elements
/// yields their comma-separated token sequences.
#[verifier::rlimit(100)]
proof fn lemma_tokenize_items(s: Seq<char>, p: nat, els: Seq<ValueModel>)
    requires
        rt_items(els),
        p + fmt_items(els).len() <= s.len(),
        s.subrange(p as int, (p + fmt_items(els).len()) as int) == fmt_items(els),
        p + fmt_items(els).len() == s.len() || value_boundary(
            s[(p + fmt_items(els).len()) as int],
        ),
    ensures
        spec_tokenize(s, p) == tok_prepend(
            tokens_of_items(els),
            spec_tokenize(s, (p + fmt_items(els).len()) as nat),
        ),
    decreases els, 0int,
{
    if els.len() == 0 {
        lemma_tok_prepend_nil(spec_tokenize(s, p));
    } else if els.len() == 1 {
        assert(fmt_items(els) == spec_format_compact(els[0]));
        lemma_tokenize_value(s, p, els[0]);
        assert(tokens_of_items(els) == tokens_of(els[0]));
    } else {
        let v0 = els[0];
        let rest = els.subrange(1, els.len() as int);
        assert(fmt_items(els) == spec_format_compact(v0) + (seq![','] + fmt_items(rest))) by {
            assert(spec_format_compact(v0) + seq![','] + fmt_items(rest) =~= spec_format_compact(
                v0,
            ) + (seq![','] + fmt_items(rest)));
        }
        lemma_subrange_split(s, p as int, spec_format_compact(v0), seq![','] + fmt_items(rest));
        let p1 = p + spec_format_compact(v0).len();
        lemma_subrange_split(s, p1 as int, seq![','], fmt_items(rest));
        assert(s[p1 as int] == ',') by {
            assert(s.subrange(p1 as int, p1 + 1 as int)[0] == s[p1 as int]);
        }
        lemma_tokenize_value(s, p, v0);
        assert(spec_tokenize(s, p1 as nat) == tok_cons(
            TokenModel::Comma,
            spec_tokenize(s, (p1 + 1) as nat),
        ));
        lemma_tokenize_items(s, (p1 + 1) as nat, rest);
        let z = spec_tokenize(s, (p + fmt_items(els).len()) as nat);
        lemma_tok_prepend_assoc(seq![TokenModel::Comma], tokens_of_items(rest), z);
        lemma_tok_prepend_assoc(tokens_of(v0), seq![TokenModel::Comma] + tokens_of_items(rest), z);
        assert(tokens_of_items(els) =~= tokens_of(v0) + (seq![TokenModel::Comma] + tokens_of_items(
            rest,
        )));
    }
}

/// Tokenizing the comma-joined compact texts of round-trippable pairs
/// yields their key, colon and value token runs.
#[verifier::rlimit(100)]
proof fn lemma_tokenize_pairs(s: Seq<char>, p: nat, ps: Seq<(Seq<char>, ValueModel)>)
    requires
        rt_pairs(ps),
        p + fmt_pairs(ps).len() <= s.len(),
        s.subrange(p as int, (p + fmt_pairs(ps).len()) as int) == fmt_pairs(ps),
        p + fmt_pairs(ps).len() == s.len() || value_boundary(s[(p + fmt_pairs(ps).len()) as int]),
    ensures
        spec_tokenize(s, p) == tok_prepend(
            tokens_of_pairs(ps),
            spec_tokenize(s, (p + fmt_pairs(ps).len()) as nat),
        ),
    decreases ps, 0int,
{
    if ps.len() == 0 {
        lemma_tok_prepend_nil(spec_tokenize(s, p));
    } else {
        let k = ps[0].0;
        let v0 = ps[0].1;
        let key_text = spec_escape_string(k);
        let val_text = spec_format_compact(v0);
        let head_text = key_text + (seq![':'] + val_text);
        let rest = ps.subrange(1, ps.len() as int);
        if ps.len() == 1 {
            assert(fmt_pairs(ps) == head_text) by {
                assert(key_text + seq![':'] + val_text =~= head_text);
            }
        } else {
            assert(fmt_pairs(ps) == head_text + (seq![','] + fmt_pairs(rest))) by {
                assert(key_text + seq![':'] + val_text + seq![','] + fmt_pairs(rest) =~= head_text
                    + (seq![','] + fmt_pairs(rest)));
            }
            lemma_subrange_split(s, p as int, head_text, seq![','] + fmt_pairs(rest));
            lemma_subrange_split(s, p as int + head_text.len(), seq![','], fmt_pairs(rest));
        }
        lemma_subrange_split(s, p as int, key_text, seq![':'] + val_text);
        lemma_subrange_split(s, p as int + key_text.len(), seq![':'], val_text);
        let p1 = p + key_text.len();
        let p2 = p1 + 1;
        let p3 = p2 + val_text.len();
        assert(s[p1 as int] == ':') by {
            assert(s.subrange(p1 as int, p1 + 1 as int)[0] == s[p1 as int]);
        }
        lemma_tokenize_string(s, p, k);
        assert(spec_tokenize(s, p1 as nat) == tok_cons(
            TokenModel::Colon,
            spec_tokenize(s, (p1 + 1) as nat),
        ));
        assert(decreases_to!(ps => ps[0]));
        assert(decreases_to!(ps[0] => ps[0].1));
        assert(round_trippable(v0));
        if ps.len() == 1 {
            assert(p3 == p + fmt_pairs(ps).len());
            lemma_tokenize_value(s, p2 as nat, v0);
            let z = spec_tokenize(s, p3 as nat);
            lemma_tok_prepend_assoc(seq![TokenModel::Colon], tokens_of(v0), z);
            lemma_tok_prepend_assoc(
                seq![TokenModel::Str(k)],
                seq![TokenModel::Colon] + tokens_of(v0),
                z,
            );
            assert(tokens_of_pairs(ps) =~= seq![TokenModel::Str(k)] + (seq![TokenModel::Colon]
                + tokens_of(v0)));
        } else {
            assert(s[p3 as int] == ',') by {
                assert(s.subrange(p3 as int, p3 + 1 as int)[0] == s[p3 as int]);
            }
            lemma_tokenize_value(s, p2 as nat, v0);
            assert(spec_tokenize(s, p3 as nat) == tok_cons(
                TokenModel::Comma,
                spec_tokenize(s, (p3 + 1) as nat),
            ));
            lemma_tokenize_pairs(s, (p3 + 1) as nat, rest);
            let z = spec_tokenize(s, (p + fmt_pairs(ps).len()) as nat);
            lemma_tok_prepend_assoc(seq![TokenModel::Comma], tokens_of_pairs(rest), z);
            lemma_tok_prepend_assoc(
                tokens_of(v0),
                seq![TokenModel::Comma] + tokens_of_pairs(rest),
                z,
            );
            lemma_tok_prepend_assoc(
                seq![TokenModel::Colon],
                tokens_of(v0) + (seq![TokenModel::Comma] + tokens_of_pairs(rest)),
                z,
            );
            lemma_tok_prepend_assoc(
                seq![TokenModel::Str(k)],
                seq![TokenModel::Colon] + (tokens_of(v0) + (seq![TokenModel::Comma]
                    + tokens_of_pairs(rest))),
                z,
            );
            assert(tokens_of_pairs(ps) =~= seq![TokenModel::Str(k)] + (seq![TokenModel::Colon] + (
            tokens_of(v0) + (seq![TokenModel::Comma] + tokens_of_pairs(rest)))));
        }
    }
}


/// A value's token sequence is nonempty and never opens with a closing
/// token.
proof fn lemma_tokens_of_first(v: ValueModel)
    ensures
        tokens_of(v).len() >= 1,
        !(tokens_of(v)[0] is RightBracket),
        !(tokens_of(v)[0] is RightBrace),
{
    match v {
        ValueModel::Array(els) => {
            assert(tokens_of(v)[0] == TokenModel::LeftBracket);
        },
        ValueModel::Object(ps) => {
            assert(tokens_of(v)[0] == TokenModel::LeftBrace);
        },
        _ => {},
    }
}

proof fn lemma_first_key_missing(acc: Seq<(Seq<char>, ValueModel)>, k: Seq<char>, i: int)
    requires
        0 <= i <= acc.len(),
        forall|j: int| i <= j < acc.len() ==> acc[j].0 != k,
    ensures
        first_key_at(acc, k, i) == -1,
    decreases acc.len() - i,
{
    if i < acc.len() {
        lemma_first_key_missing(acc, k, i + 1);
    }
}

/// Folding pairs whose keys are fresh and pairwise distinct appends them.
proof fn lemma_obj_fold_app(acc: Seq<(Seq<char>, ValueModel)>, raw: Seq<(Seq<char>, ValueModel)>)
    requires
        unique_keys(raw),
        forall|i: int, j: int|
            0 <= i < acc.len() && 0 <= j < raw.len() ==> acc[i].0 != raw[j].0,
    ensures
        obj_fold(acc, raw) == acc + raw,
    decreases raw.len(),
{
    if raw.len() == 0 {
        assert(acc + raw =~= acc);
    } else {
        let k = raw[0].0;
        lemma_first_key_missing(acc, k, 0);
        assert(obj_insert(acc, k, raw[0].1) == acc.push(raw[0]));
        let rest = raw.subrange(1, raw.len() as int);
        assert forall|i: int, j: int|
            0 <= i < acc.push(raw[0]).len() && 0 <= j < rest.len() implies acc.push(raw[0])[i].0
            != rest[j].0 by {
            assert(rest[j] == raw[j + 1]);
        }
        assert(unique_keys(rest)) by {
            assert forall|i: int, j: int| 0 <= i < j < rest.len() implies rest[i].0 != rest[j].0 by {
                assert(rest[i] == raw[i + 1]);
                assert(rest[j] == raw[j + 1]);
            }
        }
        lemma_obj_fold_app(acc.push(raw[0]), rest);
        assert(acc.push(raw[0]) + rest =~= acc + raw);
    }
}

/// Parsing the token sequence of a round-trippable value at `cur` yields
/// the value back and consumes exactly its tokens.
#[verifier::rlimit(100)]
proof fn lemma_parse_value(ts: Seq<TokenModel>, cur: nat, v: ValueModel)
    requires
        round_trippable(v),
        cur + tokens_of(v).len() <= ts.len(),
        ts.subrange(cur as int, (cur + tokens_of(v).len()) as int) == tokens_of(v),
    ensures
        sp_value(ts, cur) == (
            Ok::<ValueModel, ErrorModel>(v),
            tokens_of(v).len() as nat,
        ),
    decreases v, 1int,
{
    let toks = tokens_of(v);
    match v {
        ValueModel::Null => {
            assert(ts[cur as int] == TokenModel::Null) by {
                assert(ts.subrange(cur as int, (cur + 1) as int)[0] == ts[cur as int]);
            }
        },
        ValueModel::Boolean(b) => {
            assert(ts[cur as int] == TokenModel::Boolean(b)) by {
                assert(ts.subrange(cur as int, (cur + 1) as int)[0] == ts[cur as int]);
            }
        },
        ValueModel::Number(bits) => {
            assert(ts[cur as int] == TokenModel::Number(bits)) by {
                assert(ts.subrange(cur as int, (cur + 1) as int)[0] == ts[cur as int]);
            }
        },
        ValueModel::Str(content) => {
            assert(ts[cur as int] == TokenModel::Str(content)) by {
                assert(ts.subrange(cur as int, (cur + 1) as int)[0] == ts[cur as int]);
            }
        },
        ValueModel::Array(els) => {
            let items = tokens_of_items(els);
            assert(toks == seq![TokenModel::LeftBracket] + (items + seq![
                TokenModel::RightBracket,
            ])) by {
                assert(seq![TokenModel::LeftBracket] + items + seq![TokenModel::RightBracket]
                    =~= seq![TokenModel::LeftBracket] + (items + seq![TokenModel::RightBracket]));
            }
            lemma_subrange_split(
                ts,
                cur as int,
                seq![TokenModel::LeftBracket],
                items + seq![TokenModel::RightBracket],
            );
            lemma_subrange_split(ts, cur as int + 1, items, seq![TokenModel::RightBracket]);
            assert(ts[cur as int] == TokenModel::LeftBracket) by {
                assert(ts.subrange(cur as int, cur as int + 1)[0] == ts[cur as int]);
            }
            let q = cur + 1 + items.len();
            assert(ts[q as int] == TokenModel::RightBracket) by {
                assert(ts.subrange(q as int, q as int + 1)[0] == ts[q as int]);
            }
            if els.len() == 0 {
                assert(els =~= Seq::<ValueModel>::empty());
                assert(sp_array_rest(ts, cur + 1) == (
                    Ok::<ValueModel, ErrorModel>(ValueModel::Array(Seq::empty())),
                    1nat,
                ));
            } else {
                assert(decreases_to!(v => els));
                lemma_tokens_of_first(els[0]);
                assert(items[0] == tokens_of(els[0])[0]) by {
                    if els.len() > 1 {
                        assert((tokens_of(els[0]) + seq![TokenModel::Comma] + tokens_of_items(
                            els.subrange(1, els.len() as int),
                        ))[0] == tokens_of(els[0])[0]);
                    }
                }
                assert(ts[(cur + 1) as int] == items[0]) by {
                    assert(ts.subrange(cur as int + 1, cur as int + 1 + items.len())[0] == ts[(cur
                        + 1) as int]);
                }
                assert(!(ts[(cur + 1) as int] is RightBracket));
                lemma_parse_items(ts, (cur + 1) as nat, els);
                assert(sp_array_rest(ts, cur + 1) == (
                    Ok::<ValueModel, ErrorModel>(ValueModel::Array(els)),
                    (items.len() + 1) as nat,
                ));
            }
        },
        ValueModel::Object(ps) => {
            let pairs = tokens_of_pairs(ps);
            assert(toks == seq![TokenModel::LeftBrace] + (pairs + seq![TokenModel::RightBrace]))
                by {
                assert(seq![TokenModel::LeftBrace] + pairs + seq![TokenModel::RightBrace]
                    =~= seq![TokenModel::LeftBrace] + (pairs + seq![TokenModel::RightBrace]));
            }
            lemma_subrange_split(
                ts,
                cur as int,
                seq![TokenModel::LeftBrace],
                pairs + seq![TokenModel::RightBrace],
            );
            lemma_subrange_split(ts, cur as int + 1, pairs, seq![TokenModel::RightBrace]);
            assert(ts[cur as int] == TokenModel::LeftBrace) by {
                assert(ts.subrange(cur as int, cur as int + 1)[0] == ts[cur as int]);
            }
            let q = cur + 1 + pairs.len();
            assert(ts[q as int] == TokenModel::RightBrace) by {
                assert(ts.subrange(q as int, q as int + 1)[0] == ts[q as int]);
            }
            if ps.len() == 0 {
                assert(ps =~= Seq::<(Seq<char>, ValueModel)>::empty());
                assert(sp_object_rest(ts, cur + 1) == (
                    Ok::<ValueModel, ErrorModel>(ValueModel::Object(Seq::empty())),
                    1nat,
                ));
                assert(obj_fold(Seq::empty(), ps) == ps);
            } else {
                assert(decreases_to!(v => ps));
                assert(pairs[0] == TokenModel::Str(ps[0].0)) by {
                    if ps.len() == 1 {
                        assert((seq![TokenModel::Str(ps[0].0), TokenModel::Colon] + tokens_of(
                            ps[0].1,
                        ))[0] == TokenModel::Str(ps[0].0));
                    } else {
                        assert((seq![TokenModel::Str(ps[0].0), TokenModel::Colon] + tokens_of(
                            ps[0].1,
                        ) + seq![TokenModel::Comma] + tokens_of_pairs(
                            ps.subrange(1, ps.len() as int),
                        ))[0] == TokenModel::Str(ps[0].0));
                    }
                }
                assert(ts[(cur + 1) as int] == pairs[0]) by {
                    assert(ts.subrange(cur as int + 1, cur as int + 1 + pairs.len())[0] == ts[(cur
                        + 1) as int]);
                }
                assert(!(ts[(cur + 1) as int] is RightBrace));
                lemma_parse_pairs(ts, (cur + 1) as nat, ps);
                lemma_obj_fold_app(Seq::empty(), ps);
                assert(Seq::<(Seq<char>, ValueModel)>::empty() + ps =~= ps);
                assert(sp_object_rest(ts, cur + 1) == (
                    Ok::<ValueModel, ErrorModel>(ValueModel::Object(ps)),
                    (pairs.len() + 1) as nat,
                ));
            }
        },
    }
}

/// Parsing the comma-separated token runs of elements followed by the
/// closing bracket yields the element list.
#[verifier::rlimit(100)]
proof fn lemma_parse_items(ts: Seq<TokenModel>, cur: nat, els: Seq<ValueModel>)
    requires
        els.len() >= 1,
        rt_items(els),
        cur + tokens_of_items(els).len() < ts.len(),
        ts.subrange(cur as int, (cur + tokens_of_items(els).len()) as int) == tokens_of_items(els),
        ts[(cur + tokens_of_items(els).len()) as int] is RightBracket,
    ensures
        sp_array_items(ts, cur) == (
            Ok::<Seq<ValueModel>, ErrorModel>(els),
            (tokens_of_items(els).len() + 1) as nat,
        ),
    decreases els, 0int,
{
    let v0 = els[0];
    let k0 = tokens_of(v0).len();
    if els.len() == 1 {
        assert(tokens_of_items(els) == tokens_of(v0));
        lemma_parse_value(ts, cur, v0);
        assert(seq![v0] =~= els);
    } else {
        let rest = els.subrange(1, els.len() as int);
        assert(tokens_of_items(els) == tokens_of(v0) + (seq![TokenModel::Comma]
            + tokens_of_items(rest))) by {
            assert(tokens_of(v0) + seq![TokenModel::Comma] + tokens_of_items(rest) =~= tokens_of(
                v0,
            ) + (seq![TokenModel::Comma] + tokens_of_items(rest)));
        }
        lemma_subrange_split(
            ts,
            cur as int,
            tokens_of(v0),
            seq![TokenModel::Comma] + tokens_of_items(rest),
        );
        lemma_subrange_split(
            ts,
            cur as int + k0,
            seq![TokenModel::Comma],
            tokens_of_items(rest),
        );
        lemma_parse_value(ts, cur, v0);
        let p = cur + k0;
        assert(ts[p as int] == TokenModel::Comma) by {
            assert(ts.subrange(p as int, p as int + 1)[0] == ts[p as int]);
        }
        lemma_tokens_of_first(rest[0]);
        assert(tokens_of_items(rest)[0] == tokens_of(rest[0])[0]) by {
            if rest.len() > 1 {
                assert((tokens_of(rest[0]) + seq![TokenModel::Comma] + tokens_of_items(
                    rest.subrange(1, rest.len() as int),
                ))[0] == tokens_of(rest[0])[0]);
            }
        }
        assert(ts[(p + 1) as int] == tokens_of_items(rest)[0]) by {
            assert(ts.subrange(
                p as int + 1,
                p as int + 1 + tokens_of_items(rest).len(),
            )[0] == ts[(p + 1) as int]);
        }
        assert(!(ts[(p + 1) as int] is RightBracket));
        lemma_parse_items(ts, (p + 1) as nat, rest);
        assert(seq![v0] + rest =~= els);
    }
}

/// Parsing the key, colon and value token runs of pairs followed by the
/// closing brace yields the raw pair list.
#[verifier::rlimit(100)]
proof fn lemma_parse_pairs(ts: Seq<TokenModel>, cur: nat, ps: Seq<(Seq<char>, ValueModel)>)
    requires
        ps.len() >= 1,
        rt_pairs(ps),
        cur + tokens_of_pairs(ps).len() < ts.len(),
        ts.subrange(cur as int, (cur + tokens_of_pairs(ps).len()) as int) == tokens_of_pairs(ps),
        ts[(cur + tokens_of_pairs(ps).len()) as int] is RightBrace,
    ensures
        sp_object_items(ts, cur) == (
            Ok::<Seq<(Seq<char>, ValueModel)>, ErrorModel>(ps),
            (tokens_of_pairs(ps).len() + 1) as nat,
        ),
    decreases ps, 0int,
{
    let k = ps[0].0;
    let v0 = ps[0].1;
    let head = seq![TokenModel::Str(k), TokenModel::Colon] + tokens_of(v0);
    let rest = ps.subrange(1, ps.len() as int);
    if ps.len() == 1 {
        assert(tokens_of_pairs(ps) == head);
    } else {
        assert(tokens_of_pairs(ps) == head + (seq![TokenModel::Comma] + tokens_of_pairs(rest)))
            by {
            assert(seq![TokenModel::Str(ps[0].0), TokenModel::Colon] + tokens_of(ps[0].1) + seq![
                TokenModel::Comma,
            ] + tokens_of_pairs(rest) =~= head + (seq![TokenModel::Comma] + tokens_of_pairs(
                rest,
            )));
        }
        lemma_subrange_split(
            ts,
            cur as int,
            head,
            seq![TokenModel::Comma] + tokens_of_pairs(rest),
        );
        lemma_subrange_split(
            ts,
            cur as int + head.len(),
            seq![TokenModel::Comma],
            tokens_of_pairs(rest),
        );
    }
    lemma_subrange_split(
        ts,
        cur as int,
        seq![TokenModel::Str(k), TokenModel::Colon],
        tokens_of(v0),
    );
    assert(ts[cur as int] == TokenModel::Str(k)) by {
        assert(ts.subrange(cur as int, cur as int + 2)[0] == ts[cur as int]);
    }
    assert(ts[(cur + 1) as int] == TokenModel::Colon) by {
        assert(ts.subrange(cur as int, cur as int + 2)[1] == ts[(cur + 1) as int]);
    }
    assert(decreases_to!(ps => ps[0]));
    assert(decreases_to!(ps[0] => ps[0].1));
    lemma_parse_value(ts, (cur + 2) as nat, v0);
    let k0 = tokens_of(v0).len();
    let p = cur + 2 + k0;
    if ps.len() == 1 {
        assert(p == cur + tokens_of_pairs(ps).len());
        assert(seq![(k, v0)] =~= ps);
    } else {
        assert(ts[p as int] == TokenModel::Comma) by {
            assert(ts.subrange(p as int, p as int + 1)[0] == ts[p as int]);
        }
        assert(tokens_of_pairs(rest)[0] == TokenModel::Str(rest[0].0)) by {
            if rest.len() == 1 {
                assert((seq![TokenModel::Str(rest[0].0), TokenModel::Colon] + tokens_of(
                    rest[0].1,
                ))[0] == TokenModel::Str(rest[0].0));
            } else {
                assert((seq![TokenModel::Str(rest[0].0), TokenModel::Colon] + tokens_of(rest[0].1)
                    + seq![TokenModel::Comma] + tokens_of_pairs(
                    rest.subrange(1, rest.len() as int),
                ))[0] == TokenModel::Str(rest[0].0));
            }
        }
        assert(ts[(p + 1) as int] == tokens_of_pairs(rest)[0]) by {
            assert(ts.subrange(
                p as int + 1,
                p as int + 1 + tokens_of_pairs(rest).len(),
            )[0] == ts[(p + 1) as int]);
        }
        assert(!(ts[(p + 1) as int] is RightBrace));
        lemma_parse_pairs(ts, (p + 1) as nat, rest);
        assert(seq![(k, v0)] + rest =~= ps);
    }
}

/// Round trip: parsing the compact text of any round-trippable value
/// yields the value back — `parse(format_compact(v)) == v`, key order
/// and float formatting treated by the model itself.
pub proof fn lemma_compact_round_trip(v: ValueModel)
    requires
        round_trippable(v),
    ensures
        spec_parse_text(spec_format_compact(v)) == Ok::<ValueModel, ErrorModel>(v),
{
    let text = spec_format_compact(v);
    assert(text.subrange(0, text.len() as int) =~= text);
    lemma_tokenize_value(text, 0, v);
    let toks = tokens_of(v);
    assert(spec_tokenize(text, text.len() as nat) == Ok::<Seq<TokenModel>, ErrorModel>(
        Seq::empty(),
    ));
    assert(toks + Seq::empty() =~= toks);
    assert(spec_tokenize(text, 0) == Ok::<Seq<TokenModel>, ErrorModel>(toks));
    assert(toks.subrange(0, toks.len() as int) =~= toks);
    lemma_parse_value(toks, 0, v);
}

/// Idempotence: formatting, parsing and formatting again yields the same
/// compact text — `format_compact(parse(format_compact(v))) ==
/// format_compact(v)`.
pub proof fn lemma_format_compact_idempotent(v: ValueModel)
    requires
        round_trippable(v),
    ensures
        spec_parse_text(spec_format_compact(v)) matches Ok(w) && spec_format_compact(w)
            == spec_format_compact(v),
{
    lemma_compact_round_trip(v);
}

} // verus!
