//! The library's laws: what holds of rendering and parsing together.
//!
//! `lemma_render_parse_round_trip` states the round trip: rendering a
//! well-formed tree and parsing the text back yields an equal tree.
//! `lemma_unbraced_text_is_rejected` states that text whose tokens are not
//! wrapped in braces is turned away with a structural error.
//! `lemma_parsed_keys_unique` states the object invariant: every object a
//! parse yields has unique keys, at every nesting level.

use vstd::prelude::*;

use crate::error::{is_structural, JsonErrorView};
use crate::lexer::{
    alpha_run_len, delim_of, is_alpha, is_delim_char, is_num_char, lex_cons, lex_from, lex_spec,
    num_run_len, string_close_off, Delimiters, TokenKindView, TokenView,
};
use crate::numbers::{
    all_digits, has_dot, int_text, int_text_val, is_digit, is_float_text, is_int_text,
};
use crate::parser::{
    finish_pair_spec, parse_arr_spec, parse_body_spec, parse_document_spec, parse_spec,
    remove_braces_spec, strip_spec,
};
use crate::types::{
    insert_pair, render_elems, render_obj_spec, render_pair, render_pairs, render_val_spec,
    JsonValueView,
};

verus! {

// ---------------------------------------------------------------------------
// Rejection of unbraced documents
// ---------------------------------------------------------------------------
/// Text that does not tokenize to a left brace, a body and a right brace
/// is turned away with a structural error: that covers empty and
/// whitespace-only input, a lone left brace, a wrong first token, and a
/// wrong last token.
pub proof fn lemma_unbraced_text_is_rejected(s: Seq<char>)
    requires
        lex_spec(s) is Ok,
        !(lex_spec(s)->Ok_0.len() >= 2 && lex_spec(s)->Ok_0[0].kind == TokenKindView::Delim(
            Delimiters::LeftBrace,
        ) && lex_spec(s)->Ok_0.last().kind == TokenKindView::Delim(Delimiters::RightBrace)),
    ensures
        parse_document_spec(s) is Err,
        is_structural(parse_document_spec(s)->Err_0),
{
    let ts = lex_spec(s)->Ok_0;
    if ts.len() == 0 {
        assert(parse_spec(ts) == Err::<Seq<(Seq<char>, JsonValueView)>, _>(
            JsonErrorView::UnexpectedEndOfObject,
        ));
    } else if ts[0].kind != TokenKindView::Delim(Delimiters::LeftBrace) {
        assert(remove_braces_spec(ts) == Err::<Seq<TokenView>, _>(
            JsonErrorView::MissingLeftBrace(ts[0].raw),
        ));
    } else if ts.len() == 1 {
        assert(remove_braces_spec(ts) == Ok::<Seq<TokenView>, JsonErrorView>(Seq::empty()));
        assert(parse_spec(ts) == Err::<Seq<(Seq<char>, JsonValueView)>, _>(
            JsonErrorView::UnexpectedEndOfObject,
        ));
    } else {
        assert(ts.last().kind != TokenKindView::Delim(Delimiters::RightBrace));
        assert(remove_braces_spec(ts) == Err::<Seq<TokenView>, _>(
            JsonErrorView::MissingRightBrace(ts.last().raw),
        ));
    }
}

// ---------------------------------------------------------------------------
// Well-formed trees
// ---------------------------------------------------------------------------
/// String content that renders back to the same literal: no quote (which
/// would close the literal early) and no backslash (which would escape the
/// closing quote).
pub open spec fn str_wf(s: Seq<char>) -> bool {
    forall|i: int| 0 <= i < s.len() ==> #[trigger] s[i] != '"' && s[i] != '\\'
}

/// A tree whose rendering reads back as the same tree: string contents and
/// keys are quote- and backslash-free, kept float texts are well-formed
/// dotted numerals starting as a numeral must, object keys are distinct,
/// and nested objects are non-empty (the grammar expects a key after every
/// opening brace below the top level).
pub open spec fn val_wf(v: JsonValueView) -> bool
    decreases v,
{
    match v {
        JsonValueView::Str(s) => str_wf(s),
        JsonValueView::Int(_) => true,
        JsonValueView::Float(t) => is_float_text(t) && has_dot(t) && t.len() > 0 && (is_digit(t[0])
            || t[0] == '-'),
        JsonValueView::Bool(_) => true,
        JsonValueView::Null => true,
        JsonValueView::Arr(es) => forall|i: int| 0 <= i < es.len() ==> val_wf(#[trigger] es[i]),
        JsonValueView::Obj(ps) => ps.len() > 0 && pairs_wf(ps),
    }
}

/// Entries whose rendering reads back as the same entries.
pub open spec fn pairs_wf(ps: Seq<(Seq<char>, JsonValueView)>) -> bool
    decreases ps,
{
    &&& forall|i: int| 0 <= i < ps.len() ==> str_wf((#[trigger] ps[i]).0)
    &&& forall|i: int| 0 <= i < ps.len() ==> val_wf((#[trigger] ps[i]).1)
    &&& forall|i: int, j: int|
        0 <= i < j < ps.len() ==> (#[trigger] ps[i]).0 != (#[trigger] ps[j]).0
}

/// A whole document's entries: well-formed, and possibly empty (only the
/// top-level object may be empty).
pub open spec fn obj_wf(ps: Seq<(Seq<char>, JsonValueView)>) -> bool {
    pairs_wf(ps)
}

// ---------------------------------------------------------------------------
// The tokens a rendered tree reads back as
// ---------------------------------------------------------------------------
/// The token a structural character reads back as.
pub open spec fn delim_token_vw(c: char) -> TokenView {
    TokenView { kind: TokenKindView::Delim(delim_of(c)), raw: seq![c] }
}

/// The tokens a rendered value reads back as.
pub open spec fn tokens_of_val(v: JsonValueView) -> Seq<TokenView>
    decreases v, 1int,
{
    match v {
        JsonValueView::Str(s) => seq![
            TokenView {
                kind: TokenKindView::StrLit(seq!['"'] + s + seq!['"']),
                raw: seq!['"'] + s + seq!['"'],
            },
        ],
        JsonValueView::Int(n) => seq![
            TokenView { kind: TokenKindView::IntLit(n), raw: int_text(n as int) },
        ],
        JsonValueView::Float(t) => seq![TokenView { kind: TokenKindView::FloatLit(t), raw: t }],
        JsonValueView::Bool(b) => if b {
            seq![TokenView { kind: TokenKindView::BoolLit(true), raw: seq!['t', 'r', 'u', 'e'] }]
        } else {
            seq![
                TokenView {
                    kind: TokenKindView::BoolLit(false),
                    raw: seq!['f', 'a', 'l', 's', 'e'],
                },
            ]
        },
        JsonValueView::Null => seq![
            TokenView { kind: TokenKindView::NullLit, raw: seq!['n', 'u', 'l', 'l'] },
        ],
        JsonValueView::Arr(es) => seq![delim_token_vw('[')] + tokens_of_elems(es) + seq![
            delim_token_vw(']'),
        ],
        JsonValueView::Obj(ps) => seq![delim_token_vw('{')] + tokens_of_pairs(ps) + seq![
            delim_token_vw('}'),
        ],
    }
}

/// The tokens rendered array elements read back as.
pub open spec fn tokens_of_elems(es: Seq<JsonValueView>) -> Seq<TokenView>
    decreases es, 0int,
{
    if es.len() == 0 {
        Seq::empty()
    } else if es.len() == 1 {
        tokens_of_val(es[0])
    } else {
        tokens_of_elems(es.drop_last()) + seq![delim_token_vw(',')] + tokens_of_val(es.last())
    }
}

/// The tokens a rendered entry reads back as.
pub open spec fn tokens_of_pair(p: (Seq<char>, JsonValueView)) -> Seq<TokenView>
    decreases p, 0int,
{
    seq![
        TokenView {
            kind: TokenKindView::StrLit(seq!['"'] + p.0 + seq!['"']),
            raw: seq!['"'] + p.0 + seq!['"'],
        },
        delim_token_vw(':'),
    ] + tokens_of_val(p.1)
}

/// The tokens rendered entries read back as.
pub open spec fn tokens_of_pairs(ps: Seq<(Seq<char>, JsonValueView)>) -> Seq<TokenView>
    decreases ps, 0int,
{
    if ps.len() == 0 {
        Seq::empty()
    } else if ps.len() == 1 {
        tokens_of_pair(ps[0])
    } else {
        tokens_of_pairs(ps.drop_last()) + seq![delim_token_vw(',')] + tokens_of_pair(ps.last())
    }
}

/// Prepend tokens to a scan result.
pub open spec fn cons_all(ts: Seq<TokenView>, rest: Result<Seq<TokenView>, JsonErrorView>) -> Result<
    Seq<TokenView>,
    JsonErrorView,
> {
    match rest {
        Ok(r) => Ok(ts + r),
        Err(e) => Err(e),
    }
}

/// Prepending one token is prepending a one-token list.
proof fn lemma_cons_one(t: TokenView, rest: Result<Seq<TokenView>, JsonErrorView>)
    ensures
        lex_cons(t, rest) == cons_all(seq![t], rest),
{
}

/// Prepending a concatenation is prepending one part after the other.
proof fn lemma_cons_all_assoc(
    a: Seq<TokenView>,
    b: Seq<TokenView>,
    rest: Result<Seq<TokenView>, JsonErrorView>,
)
    ensures
        cons_all(a + b, rest) == cons_all(a, cons_all(b, rest)),
{
    match rest {
        Ok(r) => {
            assert((a + b) + r =~= a + (b + r));
        },
        Err(_) => {},
    }
}

// ---------------------------------------------------------------------------
// Where the scans stop
// ---------------------------------------------------------------------------
/// A run of `n` letters followed by a non-letter (or the end) has run
/// length exactly `n`.
proof fn lemma_alpha_run_exact(s: Seq<char>, k: nat, n: nat)
    requires
        k + n <= s.len(),
        forall|p: int| k <= p < k + n ==> is_alpha(#[trigger] s[p]),
        k + n == s.len() || !is_alpha(s[(k + n) as int]),
    ensures
        alpha_run_len(s, k) == n,
    decreases n,
{
    if n > 0 {
        lemma_alpha_run_exact(s, (k + 1) as nat, (n - 1) as nat);
    }
}

/// A run of `n` numeral characters followed by something else (or the end)
/// has run length exactly `n`.
proof fn lemma_num_run_exact(s: Seq<char>, k: nat, n: nat)
    requires
        k + n <= s.len(),
        forall|p: int| k <= p < k + n ==> is_num_char(#[trigger] s[p]),
        k + n == s.len() || !is_num_char(s[(k + n) as int]),
    ensures
        num_run_len(s, k) == n,
    decreases n,
{
    if n > 0 {
        lemma_num_run_exact(s, (k + 1) as nat, (n - 1) as nat);
    }
}

/// After `n` quote-free, backslash-free characters, a quote closes the
/// string at offset exactly `n`.
proof fn lemma_string_close_exact(s: Seq<char>, k: nat, n: nat)
    requires
        1 <= k,
        k + n < s.len(),
        forall|p: int| k <= p < k + n ==> #[trigger] s[p] != '"' && s[p] != '\\',
        s[(k + n) as int] == '"',
        s[k - 1] != '\\',
    ensures
        string_close_off(s, k) == Some(n),
    decreases n,
{
    if n == 0 {
    } else {
        assert(s[k as int] != '"');
        lemma_string_close_exact(s, (k + 1) as nat, (n - 1) as nat);
    }
}

// ---------------------------------------------------------------------------
// Reading joined lists from the front
// ---------------------------------------------------------------------------
/// The rendering of elements, read from the first element.
proof fn lemma_render_elems_head(es: Seq<JsonValueView>)
    requires
        es.len() >= 1,
    ensures
        render_elems(es) == render_val_spec(es[0]) + (if es.len() == 1 {
            Seq::<char>::empty()
        } else {
            seq![',', ' '] + render_elems(es.drop_first())
        }),
    decreases es.len(),
{
    if es.len() == 1 {
        assert(render_val_spec(es[0]) + Seq::<char>::empty() =~= render_val_spec(es[0]));
    } else {
        let dl = es.drop_last();
        lemma_render_elems_head(dl);
        assert(dl[0] == es[0]);
        if es.len() == 2 {
            assert(es.drop_first() =~= seq![es[1]]);
            assert(render_elems(es.drop_first()) == render_val_spec(es[1]));
            assert(render_elems(dl) == render_val_spec(es[0]) + Seq::<char>::empty());
            assert((render_val_spec(es[0]) + Seq::<char>::empty()) + seq![',', ' ']
                + render_val_spec(es.last()) =~= render_val_spec(es[0]) + (seq![',', ' ']
                + render_val_spec(es[1])));
        } else {
            assert(dl.drop_first() =~= es.drop_first().drop_last());
            assert(es.drop_first().len() >= 2);
            assert(es.drop_first().last() == es.last());
            assert(render_elems(es.drop_first()) == render_elems(es.drop_first().drop_last())
                + seq![',', ' '] + render_val_spec(es.drop_first().last()));
            assert((render_val_spec(es[0]) + (seq![',', ' '] + render_elems(dl.drop_first())))
                + seq![',', ' '] + render_val_spec(es.last()) =~= render_val_spec(es[0]) + (
            seq![',', ' '] + (render_elems(dl.drop_first()) + seq![',', ' '] + render_val_spec(
                es.last(),
            ))));
        }
    }
}

/// The tokens of elements, read from the first element.
proof fn lemma_tokens_of_elems_head(es: Seq<JsonValueView>)
    requires
        es.len() >= 1,
    ensures
        tokens_of_elems(es) == tokens_of_val(es[0]) + (if es.len() == 1 {
            Seq::<TokenView>::empty()
        } else {
            seq![delim_token_vw(',')] + tokens_of_elems(es.drop_first())
        }),
    decreases es.len(),
{
    if es.len() == 1 {
        assert(tokens_of_val(es[0]) + Seq::<TokenView>::empty() =~= tokens_of_val(es[0]));
    } else {
        let dl = es.drop_last();
        lemma_tokens_of_elems_head(dl);
        assert(dl[0] == es[0]);
        if es.len() == 2 {
            assert(es.drop_first() =~= seq![es[1]]);
            assert(tokens_of_elems(es.drop_first()) == tokens_of_val(es[1]));
            assert((tokens_of_val(es[0]) + Seq::<TokenView>::empty()) + seq![delim_token_vw(',')]
                + tokens_of_val(es.last()) =~= tokens_of_val(es[0]) + (seq![delim_token_vw(',')]
                + tokens_of_val(es[1])));
        } else {
            assert(dl.drop_first() =~= es.drop_first().drop_last());
            assert(es.drop_first().len() >= 2);
            assert(es.drop_first().last() == es.last());
            assert(tokens_of_elems(es.drop_first()) == tokens_of_elems(
                es.drop_first().drop_last(),
            ) + seq![delim_token_vw(',')] + tokens_of_val(es.drop_first().last()));
            assert((tokens_of_val(es[0]) + (seq![delim_token_vw(',')] + tokens_of_elems(
                dl.drop_first(),
            ))) + seq![delim_token_vw(',')] + tokens_of_val(es.last()) =~= tokens_of_val(es[0]) + (
            seq![delim_token_vw(',')] + (tokens_of_elems(dl.drop_first()) + seq![
                delim_token_vw(','),
            ] + tokens_of_val(es.last()))));
        }
    }
}

/// The rendering of entries, read from the first entry.
proof fn lemma_render_pairs_head(ps: Seq<(Seq<char>, JsonValueView)>)
    requires
        ps.len() >= 1,
    ensures
        render_pairs(ps) == render_pair(ps[0]) + (if ps.len() == 1 {
            Seq::<char>::empty()
        } else {
            seq![','] + render_pairs(ps.drop_first())
        }),
    decreases ps.len(),
{
    if ps.len() == 1 {
        assert(render_pair(ps[0]) + Seq::<char>::empty() =~= render_pair(ps[0]));
    } else {
        let dl = ps.drop_last();
        lemma_render_pairs_head(dl);
        assert(dl[0] == ps[0]);
        if ps.len() == 2 {
            assert(ps.drop_first() =~= seq![ps[1]]);
            assert(render_pairs(ps.drop_first()) == render_pair(ps[1]));
            assert((render_pair(ps[0]) + Seq::<char>::empty()) + seq![','] + render_pair(ps.last())
                =~= render_pair(ps[0]) + (seq![','] + render_pair(ps[1])));
        } else {
            assert(dl.drop_first() =~= ps.drop_first().drop_last());
            assert(ps.drop_first().len() >= 2);
            assert(ps.drop_first().last() == ps.last());
            assert(render_pairs(ps.drop_first()) == render_pairs(ps.drop_first().drop_last())
                + seq![','] + render_pair(ps.drop_first().last()));
            assert((render_pair(ps[0]) + (seq![','] + render_pairs(dl.drop_first()))) + seq![',']
                + render_pair(ps.last()) =~= render_pair(ps[0]) + (seq![','] + (render_pairs(
                dl.drop_first(),
            ) + seq![','] + render_pair(ps.last()))));
        }
    }
}

/// The tokens of entries, read from the first entry.
proof fn lemma_tokens_of_pairs_head(ps: Seq<(Seq<char>, JsonValueView)>)
    requires
        ps.len() >= 1,
    ensures
        tokens_of_pairs(ps) == tokens_of_pair(ps[0]) + (if ps.len() == 1 {
            Seq::<TokenView>::empty()
        } else {
            seq![delim_token_vw(',')] + tokens_of_pairs(ps.drop_first())
        }),
    decreases ps.len(),
{
    if ps.len() == 1 {
        assert(tokens_of_pair(ps[0]) + Seq::<TokenView>::empty() =~= tokens_of_pair(ps[0]));
    } else {
        let dl = ps.drop_last();
        lemma_tokens_of_pairs_head(dl);
        assert(dl[0] == ps[0]);
        if ps.len() == 2 {
            assert(ps.drop_first() =~= seq![ps[1]]);
            assert(tokens_of_pairs(ps.drop_first()) == tokens_of_pair(ps[1]));
            assert((tokens_of_pair(ps[0]) + Seq::<TokenView>::empty()) + seq![delim_token_vw(',')]
                + tokens_of_pair(ps.last()) =~= tokens_of_pair(ps[0]) + (seq![delim_token_vw(',')]
                + tokens_of_pair(ps[1])));
        } else {
            assert(dl.drop_first() =~= ps.drop_first().drop_last());
            assert(ps.drop_first().len() >= 2);
            assert(ps.drop_first().last() == ps.last());
            assert(tokens_of_pairs(ps.drop_first()) == tokens_of_pairs(
                ps.drop_first().drop_last(),
            ) + seq![delim_token_vw(',')] + tokens_of_pair(ps.drop_first().last()));
            assert((tokens_of_pair(ps[0]) + (seq![delim_token_vw(',')] + tokens_of_pairs(
                dl.drop_first(),
            ))) + seq![delim_token_vw(',')] + tokens_of_pair(ps.last()) =~= tokens_of_pair(ps[0])
                + (seq![delim_token_vw(',')] + (tokens_of_pairs(dl.drop_first()) + seq![
                delim_token_vw(','),
            ] + tokens_of_pair(ps.last()))));
        }
    }
}

// ---------------------------------------------------------------------------
// Reading one rendered scalar back
// ---------------------------------------------------------------------------
/// Every character of a well-formed float numeral can continue a numeral.
proof fn lemma_float_chars(t: Seq<char>)
    requires
        is_float_text(t),
    ensures
        forall|i: int| 0 <= i < t.len() ==> is_num_char(#[trigger] t[i]),
{
    let b = crate::numbers::float_body(t);
    let m = choose|m: int| #[trigger] crate::numbers::float_split_at(b, m);
    let off: int = if t.len() > 0 && t[0] == '-' {
        1
    } else {
        0
    };
    assert forall|i: int| 0 <= i < t.len() implies is_num_char(#[trigger] t[i]) by {
        if i < off {
            assert(t[i] == '-');
        } else {
            let k = i - off;
            assert(b[k] == t[i]);
            let mant = b.subrange(0, m);
            let e = b.subrange(m, b.len() as int);
            if k < m {
                assert(mant[k] == b[k]);
                if mant.len() >= 1 && all_digits(mant) {
                    assert(is_digit(mant[k]));
                } else {
                    let d = choose|d: int|
                        {
                            &&& 0 <= d < mant.len()
                            &&& #[trigger] mant[d] == '.'
                            &&& all_digits(mant.subrange(0, d))
                            &&& all_digits(mant.subrange(d + 1, mant.len() as int))
                            &&& (d > 0 || mant.len() > d + 1)
                        };
                    if k == d {
                        assert(mant[k] == '.');
                    } else if k < d {
                        assert(mant.subrange(0, d)[k] == mant[k]);
                        assert(is_digit(mant[k]));
                    } else {
                        assert(mant.subrange(d + 1, mant.len() as int)[k - d - 1] == mant[k]);
                        assert(is_digit(mant[k]));
                    }
                }
            } else {
                assert(e[k - m] == b[k]);
                if k == m {
                    assert(e[0] == 'e' || e[0] == 'E');
                } else {
                    if e.len() > 1 && (e[1] == '+' || e[1] == '-') {
                        if k == m + 1 {
                            assert(e[1] == '+' || e[1] == '-');
                        } else {
                            assert(e.subrange(2, e.len() as int)[k - m - 2] == e[k - m]);
                            assert(is_digit(e[k - m]));
                        }
                    } else {
                        assert(e.subrange(1, e.len() as int)[k - m - 1] == e[k - m]);
                        assert(is_digit(e[k - m]));
                    }
                }
            }
        }
    }
}

/// A terminator character: what may legitimately follow a rendered value.
spec fn is_term_char(c: char) -> bool {
    c == ',' || c == ']' || c == '}'
}

/// Reading a rendered string literal back: one string token.
proof fn lemma_lex_str(s: Seq<char>, i: int, st: Seq<char>)
    requires
        str_wf(st),
        0 <= i,
        i + st.len() + 2 <= s.len(),
        s.subrange(i, i + st.len() + 2) == seq!['"'] + st + seq!['"'],
    ensures
        lex_from(s, i as nat) == lex_cons(
            TokenView {
                kind: TokenKindView::StrLit(seq!['"'] + st + seq!['"']),
                raw: seq!['"'] + st + seq!['"'],
            },
            lex_from(s, (i + st.len() + 2) as nat),
        ),
{
    let r = seq!['"'] + st + seq!['"'];
    let n = st.len() + 2;
    assert(s[i] == r[0]);
    assert(r[0] == '"');
    assert forall|p: int| i + 1 <= p < i + 1 + st.len() implies #[trigger] s[p] != '"' && s[p]
        != '\\' by {
        assert(s[p] == r[p - i]);
        assert(r[p - i] == st[p - i - 1]);
    }
    assert(s[i + 1 + st.len()] == r[st.len() as int + 1]);
    assert(r[st.len() as int + 1] == '"');
    assert(s[i] != '\\');
    lemma_string_close_exact(s, (i + 1) as nat, st.len());
    assert(string_close_off(s, (i + 1) as nat) == Some(st.len()));
    assert(!is_delim_char('"'));
    let lit = s.subrange(i, i + n);
    assert(lit == r);
}

/// Reading a rendered integer back: one integer token, with the canonical
/// text as its raw text.
proof fn lemma_lex_int(s: Seq<char>, i: int, n: i64)
    requires
        0 <= i,
        i + int_text(n as int).len() <= s.len(),
        s.subrange(i, i + int_text(n as int).len()) == int_text(n as int),
        i + int_text(n as int).len() == s.len() || is_term_char(s[i + int_text(n as int).len()]),
    ensures
        lex_from(s, i as nat) == lex_cons(
            TokenView { kind: TokenKindView::IntLit(n), raw: int_text(n as int) },
            lex_from(s, (i + int_text(n as int).len()) as nat),
        ),
{
    crate::numbers::lemma_int_text_props(n as int);
    let r = int_text(n as int);
    let ln = r.len() as int;
    assert(s[i] == r[0]);
    assert(is_digit(s[i]) || s[i] == '-');
    assert(!is_delim_char(s[i]) && s[i] != ' ' && s[i] != '\n' && s[i] != '"' && s[i] != 't' && s[i]
        != 'f' && s[i] != 'n');
    assert forall|p: int| i + 1 <= p < i + ln implies is_num_char(#[trigger] s[p]) by {
        assert(s[p] == r[p - i]);
        assert(is_digit(r[p - i]) || r[p - i] == '-');
    }
    assert(i + ln == s.len() || !is_num_char(s[i + ln]));
    lemma_num_run_exact(s, (i + 1) as nat, (ln - 1) as nat);
    assert(num_run_len(s, (i + 1) as nat) == ln - 1);
    let w = s.subrange(i, i + ln);
    assert(w == r);
    assert(!has_dot(w));
    assert(is_int_text(w) && int_text_val(w) == n as int);
    assert(i64::MIN <= int_text_val(w) <= i64::MAX);
    assert(int_text_val(w) as i64 == n);
}

/// Reading a rendered float back: one float token keeping its text.
proof fn lemma_lex_float(s: Seq<char>, i: int, t: Seq<char>)
    requires
        is_float_text(t),
        has_dot(t),
        t.len() > 0,
        is_digit(t[0]) || t[0] == '-',
        0 <= i,
        i + t.len() <= s.len(),
        s.subrange(i, i + t.len()) == t,
        i + t.len() == s.len() || is_term_char(s[i + t.len()]),
    ensures
        lex_from(s, i as nat) == lex_cons(
            TokenView { kind: TokenKindView::FloatLit(t), raw: t },
            lex_from(s, (i + t.len()) as nat),
        ),
{
    lemma_float_chars(t);
    let ln = t.len() as int;
    assert(s[i] == t[0]);
    assert(!is_delim_char(s[i]) && s[i] != ' ' && s[i] != '\n' && s[i] != '"' && s[i] != 't' && s[i]
        != 'f' && s[i] != 'n');
    assert forall|p: int| i + 1 <= p < i + ln implies is_num_char(#[trigger] s[p]) by {
        assert(s[p] == t[p - i]);
    }
    assert(i + ln == s.len() || !is_num_char(s[i + ln]));
    lemma_num_run_exact(s, (i + 1) as nat, (ln - 1) as nat);
    let w = s.subrange(i, i + ln);
    assert(w == t);
}

/// Reading a rendered word (`true`, `false` or `null`) back: one token.
proof fn lemma_lex_word(s: Seq<char>, i: int, w: Seq<char>)
    requires
        w == seq!['t', 'r', 'u', 'e'] || w == seq!['f', 'a', 'l', 's', 'e'] || w == seq![
            'n',
            'u',
            'l',
            'l',
        ],
        0 <= i,
        i + w.len() <= s.len(),
        s.subrange(i, i + w.len()) == w,
        i + w.len() == s.len() || is_term_char(s[i + w.len()]),
    ensures
        w == seq!['t', 'r', 'u', 'e'] ==> lex_from(s, i as nat) == lex_cons(
            TokenView { kind: TokenKindView::BoolLit(true), raw: w },
            lex_from(s, (i + w.len()) as nat),
        ),
        w == seq!['f', 'a', 'l', 's', 'e'] ==> lex_from(s, i as nat) == lex_cons(
            TokenView { kind: TokenKindView::BoolLit(false), raw: w },
            lex_from(s, (i + w.len()) as nat),
        ),
        w == seq!['n', 'u', 'l', 'l'] ==> lex_from(s, i as nat) == lex_cons(
            TokenView { kind: TokenKindView::NullLit, raw: w },
            lex_from(s, (i + w.len()) as nat),
        ),
{
    let ln = w.len() as int;
    assert(s[i] == w[0]);
    assert(s[i] == 't' || s[i] == 'f' || s[i] == 'n');
    assert(!is_delim_char(s[i]) && s[i] != ' ' && s[i] != '\n' && s[i] != '"');
    assert forall|p: int| i + 1 <= p < i + ln implies is_alpha(#[trigger] s[p]) by {
        assert(s[p] == w[p - i]);
    }
    assert(i + ln == s.len() || !is_alpha(s[i + ln]));
    lemma_alpha_run_exact(s, (i + 1) as nat, (ln - 1) as nat);
    assert(alpha_run_len(s, (i + 1) as nat) == ln - 1);
    assert(s.subrange(i, i + ln) == w);
    assert(seq!['t', 'r', 'u', 'e'] != seq!['n', 'u', 'l', 'l']) by {
        assert(seq!['t', 'r', 'u', 'e'][0] != seq!['n', 'u', 'l', 'l'][0]);
    }
    assert(seq!['t', 'r', 'u', 'e'] != seq!['f', 'a', 'l', 's', 'e']) by {
        assert(seq!['t', 'r', 'u', 'e'].len() != seq!['f', 'a', 'l', 's', 'e'].len());
    }
    assert(seq!['n', 'u', 'l', 'l'] != seq!['f', 'a', 'l', 's', 'e']) by {
        assert(seq!['n', 'u', 'l', 'l'].len() != seq!['f', 'a', 'l', 's', 'e'].len());
    }
}

// ---------------------------------------------------------------------------
// Reading a rendered tree back, token for token
// ---------------------------------------------------------------------------
/// Reading a rendered value back: exactly its tokens, and the scan goes on
/// right after them. The character after the value (if the text goes on)
/// must be a separator or a closer, so that a numeral or word cannot run
/// into what follows.
#[verifier::rlimit(100)]
#[verifier::spinoff_prover]
proof fn lemma_lex_val(s: Seq<char>, i: int, v: JsonValueView)
    requires
        val_wf(v),
        0 <= i,
        i + render_val_spec(v).len() <= s.len(),
        s.subrange(i, i + render_val_spec(v).len()) == render_val_spec(v),
        i + render_val_spec(v).len() == s.len() || is_term_char(s[i + render_val_spec(v).len()]),
    ensures
        lex_from(s, i as nat) == cons_all(
            tokens_of_val(v),
            lex_from(s, (i + render_val_spec(v).len()) as nat),
        ),
    decreases v, 1int,
{
    let r = render_val_spec(v);
    let n = r.len() as int;
    let j = i + n;
    let rest = lex_from(s, j as nat);
    match v {
        JsonValueView::Str(st) => {
            lemma_lex_str(s, i, st);
            lemma_cons_one(
                TokenView {
                    kind: TokenKindView::StrLit(seq!['"'] + st + seq!['"']),
                    raw: seq!['"'] + st + seq!['"'],
                },
                rest,
            );
        },
        JsonValueView::Int(num) => {
            lemma_lex_int(s, i, num);
            lemma_cons_one(
                TokenView { kind: TokenKindView::IntLit(num), raw: int_text(num as int) },
                rest,
            );
        },
        JsonValueView::Float(t) => {
            lemma_lex_float(s, i, t);
            lemma_cons_one(TokenView { kind: TokenKindView::FloatLit(t), raw: t }, rest);
        },
        JsonValueView::Bool(b) => {
            if b {
                lemma_lex_word(s, i, seq!['t', 'r', 'u', 'e']);
                lemma_cons_one(
                    TokenView { kind: TokenKindView::BoolLit(true), raw: seq!['t', 'r', 'u', 'e'] },
                    rest,
                );
            } else {
                lemma_lex_word(s, i, seq!['f', 'a', 'l', 's', 'e']);
                lemma_cons_one(
                    TokenView {
                        kind: TokenKindView::BoolLit(false),
                        raw: seq!['f', 'a', 'l', 's', 'e'],
                    },
                    rest,
                );
            }
        },
        JsonValueView::Null => {
            lemma_lex_word(s, i, seq!['n', 'u', 'l', 'l']);
            lemma_cons_one(
                TokenView { kind: TokenKindView::NullLit, raw: seq!['n', 'u', 'l', 'l'] },
                rest,
            );
        },
        JsonValueView::Arr(es) => {
            let re = render_elems(es);
            let m = re.len() as int;
            assert(s[i] == r[0]);
            assert(r[0] == '[');
            assert(s.subrange(i + 1, i + 1 + m) =~= re) by {
                assert forall|q: int| 0 <= q < m implies s.subrange(i + 1, i + 1 + m)[q] == re[q] by {
                    assert(s[i + 1 + q] == r[1 + q]);
                    assert(r[1 + q] == re[q]);
                }
            }
            assert(s[i + 1 + m] == r[1 + m]);
            assert(r[1 + m] == ']');
            lemma_lex_elems(s, i + 1, es);
            assert(lex_from(s, i as nat) == lex_cons(
                delim_token_vw('['),
                lex_from(s, (i + 1) as nat),
            ));
            assert(lex_from(s, (i + 1 + m) as nat) == lex_cons(delim_token_vw(']'), rest));
            lemma_cons_one(delim_token_vw(']'), rest);
            lemma_cons_one(delim_token_vw('['), lex_from(s, (i + 1) as nat));
            lemma_cons_all_assoc(
                tokens_of_elems(es),
                seq![delim_token_vw(']')],
                rest,
            );
            lemma_cons_all_assoc(
                seq![delim_token_vw('[')],
                tokens_of_elems(es) + seq![delim_token_vw(']')],
                rest,
            );
            assert(seq![delim_token_vw('[')] + (tokens_of_elems(es) + seq![delim_token_vw(']')])
                =~= tokens_of_val(v));
        },
        JsonValueView::Obj(ps) => {
            let rp = render_pairs(ps);
            let m = rp.len() as int;
            assert(s[i] == r[0]);
            assert(r[0] == '{');
            assert(s.subrange(i + 1, i + 1 + m) =~= rp) by {
                assert forall|q: int| 0 <= q < m implies s.subrange(i + 1, i + 1 + m)[q] == rp[q] by {
                    assert(s[i + 1 + q] == r[1 + q]);
                    assert(r[1 + q] == rp[q]);
                }
            }
            assert(s[i + 1 + m] == r[1 + m]);
            assert(r[1 + m] == '}');
            lemma_lex_pairs(s, i + 1, ps);
            assert(lex_from(s, i as nat) == lex_cons(
                delim_token_vw('{'),
                lex_from(s, (i + 1) as nat),
            ));
            assert(lex_from(s, (i + 1 + m) as nat) == lex_cons(delim_token_vw('}'), rest));
            lemma_cons_one(delim_token_vw('}'), rest);
            lemma_cons_one(delim_token_vw('{'), lex_from(s, (i + 1) as nat));
            lemma_cons_all_assoc(
                tokens_of_pairs(ps),
                seq![delim_token_vw('}')],
                rest,
            );
            lemma_cons_all_assoc(
                seq![delim_token_vw('{')],
                tokens_of_pairs(ps) + seq![delim_token_vw('}')],
                rest,
            );
            assert(seq![delim_token_vw('{')] + (tokens_of_pairs(ps) + seq![delim_token_vw('}')])
                =~= tokens_of_val(v));
        },
    }
}

/// Reading rendered array elements back: their tokens in order, with a
/// comma token between any two. A right bracket must follow the block.
proof fn lemma_lex_elems(s: Seq<char>, i: int, es: Seq<JsonValueView>)
    requires
        forall|k: int| 0 <= k < es.len() ==> val_wf(#[trigger] es[k]),
        0 <= i,
        i + render_elems(es).len() < s.len(),
        s.subrange(i, i + render_elems(es).len()) == render_elems(es),
        s[i + render_elems(es).len()] == ']',
    ensures
        lex_from(s, i as nat) == cons_all(
            tokens_of_elems(es),
            lex_from(s, (i + render_elems(es).len()) as nat),
        ),
    decreases es, 0int,
{
    let re = render_elems(es);
    let m = re.len() as int;
    if es.len() == 0 {
        match lex_from(s, i as nat) {
            Ok(r) => {
                assert(Seq::<TokenView>::empty() + r =~= r);
            },
            Err(_) => {},
        }
    } else {
        lemma_render_elems_head(es);
        lemma_tokens_of_elems_head(es);
        let r0 = render_val_spec(es[0]);
        let n0 = r0.len() as int;
        assert(s.subrange(i, i + n0) =~= r0) by {
            assert forall|q: int| 0 <= q < n0 implies s.subrange(i, i + n0)[q] == r0[q] by {
                assert(s[i + q] == re[q]);
                assert(re[q] == r0[q]);
            }
        }
        if es.len() == 1 {
            assert(n0 == m);
            lemma_lex_val(s, i, es[0]);
            assert(tokens_of_elems(es) == tokens_of_val(es[0]) + Seq::<TokenView>::empty());
            match lex_from(s, (i + m) as nat) {
                Ok(r) => {
                    assert(tokens_of_val(es[0]) + Seq::<TokenView>::empty() + r =~= tokens_of_val(
                        es[0],
                    ) + r);
                },
                Err(_) => {},
            }
        } else {
            let tail = es.drop_first();
            assert(re == r0 + (seq![',', ' '] + render_elems(tail)));
            assert(re[n0] == (seq![',', ' '] + render_elems(tail))[0]);
            assert(re[n0] == ',');
            assert(s[i + n0] == re[n0]);
            assert(is_term_char(s[i + n0]));
            lemma_lex_val(s, i, es[0]);
            assert(is_delim_char(','));
            assert(lex_from(s, (i + n0) as nat) == lex_cons(
                delim_token_vw(','),
                lex_from(s, (i + n0 + 1) as nat),
            ));
            assert(re[n0 + 1] == (seq![',', ' '] + render_elems(tail))[1]);
            assert(re[n0 + 1] == ' ');
            assert(s[i + n0 + 1] == ' ');
            assert(!is_delim_char(' '));
            assert(lex_from(s, (i + n0 + 1) as nat) == lex_from(s, (i + n0 + 2) as nat));
            let i2 = i + n0 + 2;
            assert(i2 + render_elems(tail).len() == i + m);
            assert(s.subrange(i2, i + m) =~= render_elems(tail)) by {
                assert forall|q: int|
                    0 <= q < render_elems(tail).len() implies s.subrange(i2, i + m)[q]
                    == render_elems(tail)[q] by {
                    assert(s[i2 + q] == re[n0 + 2 + q]);
                    assert(re[n0 + 2 + q] == (seq![',', ' '] + render_elems(tail))[2 + q]);
                }
            }
            lemma_lex_elems(s, i2, tail);
            let rest = lex_from(s, (i + m) as nat);
            lemma_cons_one(delim_token_vw(','), lex_from(s, (i + n0 + 1) as nat));
            lemma_cons_all_assoc(seq![delim_token_vw(',')], tokens_of_elems(tail), rest);
            lemma_cons_all_assoc(
                tokens_of_val(es[0]),
                seq![delim_token_vw(',')] + tokens_of_elems(tail),
                rest,
            );
            assert(tokens_of_val(es[0]) + (seq![delim_token_vw(',')] + tokens_of_elems(tail))
                == tokens_of_elems(es));
        }
    }
}

/// Reading rendered object entries back: for each entry a string token,
/// a colon token and the value's tokens, with a comma token between any
/// two entries. A right brace must follow the block.
#[verifier::rlimit(100)]
#[verifier::spinoff_prover]
proof fn lemma_lex_pairs(s: Seq<char>, i: int, ps: Seq<(Seq<char>, JsonValueView)>)
    requires
        pairs_wf(ps),
        0 <= i,
        i + render_pairs(ps).len() < s.len(),
        s.subrange(i, i + render_pairs(ps).len()) == render_pairs(ps),
        s[i + render_pairs(ps).len()] == '}',
    ensures
        lex_from(s, i as nat) == cons_all(
            tokens_of_pairs(ps),
            lex_from(s, (i + render_pairs(ps).len()) as nat),
        ),
    decreases ps, 0int,
{
    let rp = render_pairs(ps);
    let m = rp.len() as int;
    if ps.len() == 0 {
        match lex_from(s, i as nat) {
            Ok(r) => {
                assert(Seq::<TokenView>::empty() + r =~= r);
            },
            Err(_) => {},
        }
    } else {
        lemma_render_pairs_head(ps);
        lemma_tokens_of_pairs_head(ps);
        let p0 = ps[0];
        let key = p0.0;
        let kl = key.len() as int;
        let r0 = render_pair(p0);
        let n0 = r0.len() as int;
        let rv = render_val_spec(p0.1);
        assert(r0 == seq!['"'] + key + seq!['"', ':', ' '] + rv);
        assert(n0 == kl + 4 + rv.len());
        assert forall|q: int| 0 <= q < n0 implies s[i + q] == r0[q] by {
            assert(s[i + q] == rp[q]);
            assert(rp[q] == r0[q]);
        }
        // the key's string literal
        assert(s.subrange(i, i + kl + 2) =~= seq!['"'] + key + seq!['"']) by {
            assert forall|q: int|
                0 <= q < kl + 2 implies s.subrange(i, i + kl + 2)[q] == (seq!['"'] + key + seq![
                '"',
            ])[q] by {
                assert(s[i + q] == r0[q]);
            }
        }
        assert(str_wf(key));
        lemma_lex_str(s, i, key);
        // the colon
        assert(s[i + kl + 2] == r0[kl + 2]);
        assert(r0[kl + 2] == ':');
        assert(is_delim_char(':'));
        assert(lex_from(s, (i + kl + 2) as nat) == lex_cons(
            delim_token_vw(':'),
            lex_from(s, (i + kl + 3) as nat),
        ));
        // the space
        assert(s[i + kl + 3] == r0[kl + 3]);
        assert(r0[kl + 3] == ' ');
        assert(!is_delim_char(' '));
        assert(lex_from(s, (i + kl + 3) as nat) == lex_from(s, (i + kl + 4) as nat));
        // the value
        let iv = i + kl + 4;
        assert(s.subrange(iv, iv + rv.len()) =~= rv) by {
            assert forall|q: int| 0 <= q < rv.len() implies s.subrange(iv, iv + rv.len())[q]
                == rv[q] by {
                assert(s[iv + q] == r0[kl + 4 + q]);
                assert(r0[kl + 4 + q] == rv[q]);
            }
        }
        assert(val_wf(p0.1));
        if ps.len() == 1 {
            assert(n0 == m);
            assert(iv + rv.len() == i + m);
            assert(is_term_char(s[i + m]));
            lemma_lex_val(s, iv, p0.1);
            let rest = lex_from(s, (i + m) as nat);
            lemma_cons_one(
                TokenView {
                    kind: TokenKindView::StrLit(seq!['"'] + key + seq!['"']),
                    raw: seq!['"'] + key + seq!['"'],
                },
                lex_from(s, (i + kl + 2) as nat),
            );
            lemma_cons_one(delim_token_vw(':'), lex_from(s, (i + kl + 3) as nat));
            lemma_cons_all_assoc(seq![delim_token_vw(':')], tokens_of_val(p0.1), rest);
            lemma_cons_all_assoc(
                seq![
                    TokenView {
                        kind: TokenKindView::StrLit(seq!['"'] + key + seq!['"']),
                        raw: seq!['"'] + key + seq!['"'],
                    },
                ],
                seq![delim_token_vw(':')] + tokens_of_val(p0.1),
                rest,
            );
            assert(seq![
                TokenView {
                    kind: TokenKindView::StrLit(seq!['"'] + key + seq!['"']),
                    raw: seq!['"'] + key + seq!['"'],
                },
            ] + (seq![delim_token_vw(':')] + tokens_of_val(p0.1)) =~= tokens_of_pair(p0));
            assert(tokens_of_pairs(ps) == tokens_of_pair(p0) + Seq::<TokenView>::empty());
            match rest {
                Ok(r) => {
                    assert(tokens_of_pair(p0) + Seq::<TokenView>::empty() + r =~= tokens_of_pair(
                        p0,
                    ) + r);
                },
                Err(_) => {},
            }
        } else {
            let tail = ps.drop_first();
            assert(rp == r0 + (seq![','] + render_pairs(tail)));
            assert(rp[n0] == (seq![','] + render_pairs(tail))[0]);
            assert(rp[n0] == ',');
            assert(s[i + n0] == rp[n0]);
            assert(iv + rv.len() == i + n0);
            assert(is_term_char(s[i + n0]));
            lemma_lex_val(s, iv, p0.1);
            assert(is_delim_char(','));
            assert(lex_from(s, (i + n0) as nat) == lex_cons(
                delim_token_vw(','),
                lex_from(s, (i + n0 + 1) as nat),
            ));
            let i2 = i + n0 + 1;
            assert(i2 + render_pairs(tail).len() == i + m);
            assert(s.subrange(i2, i + m) =~= render_pairs(tail)) by {
                assert forall|q: int|
                    0 <= q < render_pairs(tail).len() implies s.subrange(i2, i + m)[q]
                    == render_pairs(tail)[q] by {
                    assert(s[i2 + q] == rp[n0 + 1 + q]);
                    assert(rp[n0 + 1 + q] == (seq![','] + render_pairs(tail))[1 + q]);
                }
            }
            assert(pairs_wf(tail)) by {
                assert forall|k: int| 0 <= k < tail.len() implies str_wf((#[trigger] tail[k]).0)
                    && val_wf(tail[k].1) by {
                    assert(tail[k] == ps[k + 1]);
                }
                assert forall|a: int, b: int|
                    0 <= a < b < tail.len() implies (#[trigger] tail[a]).0 != (
                #[trigger] tail[b]).0 by {
                    assert(tail[a] == ps[a + 1] && tail[b] == ps[b + 1]);
                }
            }
            lemma_lex_pairs(s, i2, tail);
            let rest = lex_from(s, (i + m) as nat);
            lemma_cons_one(
                TokenView {
                    kind: TokenKindView::StrLit(seq!['"'] + key + seq!['"']),
                    raw: seq!['"'] + key + seq!['"'],
                },
                lex_from(s, (i + kl + 2) as nat),
            );
            lemma_cons_one(delim_token_vw(':'), lex_from(s, (i + kl + 3) as nat));
            lemma_cons_one(delim_token_vw(','), lex_from(s, (i2) as nat));
            lemma_cons_all_assoc(seq![delim_token_vw(',')], tokens_of_pairs(tail), rest);
            lemma_cons_all_assoc(
                tokens_of_val(p0.1),
                seq![delim_token_vw(',')] + tokens_of_pairs(tail),
                rest,
            );
            lemma_cons_all_assoc(
                seq![delim_token_vw(':')],
                tokens_of_val(p0.1) + (seq![delim_token_vw(',')] + tokens_of_pairs(tail)),
                rest,
            );
            lemma_cons_all_assoc(
                seq![
                    TokenView {
                        kind: TokenKindView::StrLit(seq!['"'] + key + seq!['"']),
                        raw: seq!['"'] + key + seq!['"'],
                    },
                ],
                seq![delim_token_vw(':')] + (tokens_of_val(p0.1) + (seq![delim_token_vw(',')]
                    + tokens_of_pairs(tail))),
                rest,
            );
            assert(seq![
                TokenView {
                    kind: TokenKindView::StrLit(seq!['"'] + key + seq!['"']),
                    raw: seq!['"'] + key + seq!['"'],
                },
            ] + (seq![delim_token_vw(':')] + (tokens_of_val(p0.1) + (seq![delim_token_vw(',')]
                + tokens_of_pairs(tail)))) =~= tokens_of_pair(p0) + (seq![delim_token_vw(',')]
                + tokens_of_pairs(tail)));
            assert(tokens_of_pair(p0) + (seq![delim_token_vw(',')] + tokens_of_pairs(tail))
                == tokens_of_pairs(ps));
        }
    }
}

// ---------------------------------------------------------------------------
// Parsing a rendered tree's tokens back
// ---------------------------------------------------------------------------
/// Stripping the quotes a rendering put around a key or string gives the
/// content back.
proof fn lemma_strip_quoted(k: Seq<char>)
    ensures
        strip_spec(seq!['"'] + k + seq!['"']) == k,
{
    let t = seq!['"'] + k + seq!['"'];
    assert(t[0] == '"');
    assert(t[t.len() - 1] == '"');
    assert(t.subrange(1, t.len() - 1) =~= k);
}

/// A value always reads back as at least one token.
proof fn lemma_tokens_of_val_len(v: JsonValueView)
    ensures
        tokens_of_val(v).len() >= 1,
{
}

/// One position of a subrange equality, as a ground fact.
proof fn lemma_sub_index(ts: Seq<TokenView>, i: int, m: int, sub: Seq<TokenView>, q: int)
    requires
        0 <= i,
        0 <= q < m,
        i + m <= ts.len(),
        ts.subrange(i, i + m) == sub,
    ensures
        ts[i + q] == sub[q],
{
    assert(ts.subrange(i, i + m)[q] == sub[q]);
}

/// Parsing the tokens of rendered array elements: every element is
/// appended in order, and the cursor stops just past the closing bracket.
#[verifier::rlimit(100)]
#[verifier::spinoff_prover]
proof fn lemma_parse_arr(
    ts: Seq<TokenView>,
    i: int,
    acc: Seq<JsonValueView>,
    es: Seq<JsonValueView>,
)
    requires
        forall|k: int| 0 <= k < es.len() ==> val_wf(#[trigger] es[k]),
        0 <= i,
        i + tokens_of_elems(es).len() + 1 <= ts.len(),
        ts.subrange(i, i + tokens_of_elems(es).len()) == tokens_of_elems(es),
        ts[i + tokens_of_elems(es).len()] == delim_token_vw(']'),
    ensures
        parse_arr_spec(ts, i as nat, acc) == Ok::<_, JsonErrorView>(
            (acc + es, (i + tokens_of_elems(es).len() + 1) as nat),
        ),
    decreases es,
{
    let te = tokens_of_elems(es);
    let m = te.len() as int;
    if es.len() == 0 {
        assert(ts[i] == delim_token_vw(']'));
        assert(acc + es =~= acc);
    } else {
        lemma_tokens_of_elems_head(es);
        let e0 = es[0];
        let t0 = tokens_of_val(e0);
        let n0 = t0.len() as int;
        lemma_tokens_of_val_len(e0);
        lemma_sub_index(ts, i, m, te, 0);
        assert(te[0] == t0[0]);
        assert(ts[i] == t0[0]);
        let tail = es.drop_first();
        // where the element's tokens end
        let jn = i + n0;
        // the element itself
        let acc2 = acc.push(e0);
        assert(val_wf(e0));
        match e0 {
            JsonValueView::Str(sv) => {
                assert(ts[i].kind == TokenKindView::StrLit(seq!['"'] + sv + seq!['"']));
                lemma_strip_quoted(sv);
                assert(parse_arr_spec(ts, i as nat, acc) == parse_arr_spec(
                    ts,
                    (i + 1) as nat,
                    acc.push(JsonValueView::Str(sv)),
                ));
            },
            JsonValueView::Int(n) => {
                assert(parse_arr_spec(ts, i as nat, acc) == parse_arr_spec(
                    ts,
                    (i + 1) as nat,
                    acc.push(JsonValueView::Int(n)),
                ));
            },
            JsonValueView::Float(t) => {
                assert(parse_arr_spec(ts, i as nat, acc) == parse_arr_spec(
                    ts,
                    (i + 1) as nat,
                    acc.push(JsonValueView::Float(t)),
                ));
            },
            JsonValueView::Bool(b) => {
                assert(parse_arr_spec(ts, i as nat, acc) == parse_arr_spec(
                    ts,
                    (i + 1) as nat,
                    acc.push(JsonValueView::Bool(b)),
                ));
            },
            JsonValueView::Null => {
                assert(parse_arr_spec(ts, i as nat, acc) == parse_arr_spec(
                    ts,
                    (i + 1) as nat,
                    acc.push(JsonValueView::Null),
                ));
            },
            JsonValueView::Arr(inner) => {
                assert(ts[i] == delim_token_vw('['));
                assert(t0 == seq![delim_token_vw('[')] + tokens_of_elems(inner) + seq![
                    delim_token_vw(']'),
                ]);
                let mi = tokens_of_elems(inner).len() as int;
                assert(ts.subrange(i + 1, i + 1 + mi) =~= tokens_of_elems(inner)) by {
                    assert forall|q: int|
                        0 <= q < mi implies ts.subrange(i + 1, i + 1 + mi)[q] == tokens_of_elems(
                        inner,
                    )[q] by {
                        lemma_sub_index(ts, i, m, te, 1 + q);
                        assert(te[1 + q] == t0[1 + q]);
                        assert(ts.subrange(i + 1, i + 1 + mi)[q] == ts[i + 1 + q]);
                    }
                }
                lemma_sub_index(ts, i, m, te, 1 + mi);
                assert(te[1 + mi] == t0[1 + mi]);
                assert(ts[i + 1 + mi] == t0[1 + mi]);
                assert(t0[1 + mi] == delim_token_vw(']'));
                assert(forall|k: int| 0 <= k < inner.len() ==> val_wf(#[trigger] inner[k]));
                lemma_parse_arr(ts, i + 1, Seq::empty(), inner);
                assert(Seq::<JsonValueView>::empty() + inner =~= inner);
                assert(parse_arr_spec(ts, i as nat, acc) == parse_arr_spec(
                    ts,
                    (i + n0) as nat,
                    acc.push(JsonValueView::Arr(inner)),
                ));
            },
            JsonValueView::Obj(inner) => {
                assert(ts[i] == delim_token_vw('{'));
                assert(t0 == seq![delim_token_vw('{')] + tokens_of_pairs(inner) + seq![
                    delim_token_vw('}'),
                ]);
                let mi = tokens_of_pairs(inner).len() as int;
                assert(ts.subrange(i + 1, i + 1 + mi) =~= tokens_of_pairs(inner)) by {
                    assert forall|q: int|
                        0 <= q < mi implies ts.subrange(i + 1, i + 1 + mi)[q] == tokens_of_pairs(
                        inner,
                    )[q] by {
                        lemma_sub_index(ts, i, m, te, 1 + q);
                        assert(te[1 + q] == t0[1 + q]);
                        assert(ts.subrange(i + 1, i + 1 + mi)[q] == ts[i + 1 + q]);
                    }
                }
                lemma_sub_index(ts, i, m, te, 1 + mi);
                assert(te[1 + mi] == t0[1 + mi]);
                assert(ts[i + 1 + mi] == t0[1 + mi]);
                assert(t0[1 + mi] == delim_token_vw('}'));
                lemma_parse_body(ts, i + 1, Seq::empty(), inner, false);
                assert(Seq::<(Seq<char>, JsonValueView)>::empty() + inner =~= inner);
                assert(parse_arr_spec(ts, i as nat, acc) == parse_arr_spec(
                    ts,
                    (i + n0) as nat,
                    acc.push(JsonValueView::Obj(inner)),
                ));
            },
        }
        assert(acc2 == acc.push(e0));
        if es.len() == 1 {
            assert(n0 == m);
            assert(ts[jn] == delim_token_vw(']'));
            assert(parse_arr_spec(ts, jn as nat, acc2) == Ok::<_, JsonErrorView>(
                (acc2, (jn + 1) as nat),
            ));
            assert(acc.push(e0) =~= acc + es);
        } else {
            assert(te == t0 + (seq![delim_token_vw(',')] + tokens_of_elems(tail)));
            lemma_sub_index(ts, i, m, te, n0);
            assert(te[n0] == delim_token_vw(','));
            assert(ts[jn] == te[n0]);
            assert(parse_arr_spec(ts, jn as nat, acc2) == parse_arr_spec(
                ts,
                (jn + 1) as nat,
                acc2,
            ));
            assert(ts.subrange(jn + 1, i + m) =~= tokens_of_elems(tail)) by {
                assert forall|q: int|
                    0 <= q < tokens_of_elems(tail).len() implies ts.subrange(jn + 1, i + m)[q]
                    == tokens_of_elems(tail)[q] by {
                    lemma_sub_index(ts, i, m, te, n0 + 1 + q);
                    assert(te[n0 + 1 + q] == (seq![delim_token_vw(',')] + tokens_of_elems(tail))[1
                        + q]);
                    assert(ts.subrange(jn + 1, i + m)[q] == ts[jn + 1 + q]);
                    assert(ts[jn + 1 + q] == ts[i + (n0 + 1 + q)]);
                }
            }
            assert(forall|k: int| 0 <= k < tail.len() ==> val_wf(#[trigger] tail[k])) by {
                assert(forall|k: int|
                    0 <= k < tail.len() ==> #[trigger] tail[k] == es[k + 1] && val_wf(es[k + 1]));
            }
            lemma_parse_arr(ts, jn + 1, acc2, tail);
            assert(acc.push(e0) + tail =~= acc + es);
        }
    }
}

/// Parsing the tokens of rendered entries into an object body: every
/// entry is appended in order (its key is fresh, so the write appends),
/// and the body ends either at the closing brace or, at the top level,
/// with the tokens themselves.
#[verifier::rlimit(100)]
#[verifier::spinoff_prover]
proof fn lemma_parse_body(
    ts: Seq<TokenView>,
    i: int,
    acc: Seq<(Seq<char>, JsonValueView)>,
    ps: Seq<(Seq<char>, JsonValueView)>,
    top: bool,
)
    requires
        pairs_wf(ps),
        ps.len() > 0,
        forall|a: int, b: int|
            0 <= a < acc.len() && 0 <= b < ps.len() ==> (#[trigger] acc[a]).0 != (
            #[trigger] ps[b]).0,
        0 <= i,
        i + tokens_of_pairs(ps).len() <= ts.len(),
        ts.subrange(i, i + tokens_of_pairs(ps).len()) == tokens_of_pairs(ps),
        i + tokens_of_pairs(ps).len() == ts.len() ==> top,
        i + tokens_of_pairs(ps).len() < ts.len() ==> ts[i + tokens_of_pairs(ps).len()].kind
            == TokenKindView::Delim(Delimiters::RightBrace),
    ensures
        parse_body_spec(ts, i as nat, acc, top) == Ok::<_, JsonErrorView>(
            (
                acc + ps,
                if i + tokens_of_pairs(ps).len() == ts.len() {
                    ts.len()
                } else {
                    (i + tokens_of_pairs(ps).len() + 1) as nat
                },
            ),
        ),
    decreases ps,
{
    let tp = tokens_of_pairs(ps);
    let m = tp.len() as int;
    lemma_tokens_of_pairs_head(ps);
    let p0 = ps[0];
    let key = p0.0;
    let t0 = tokens_of_pair(p0);
    let n0 = t0.len() as int;
    let tv = tokens_of_val(p0.1);
    lemma_tokens_of_val_len(p0.1);
    assert(t0.len() == 2 + tv.len());
    assert forall|q: int| 0 <= q < n0 implies t0[q] == tp[q] by {
        if ps.len() == 1 {
        } else {
            assert(tp == t0 + (seq![delim_token_vw(',')] + tokens_of_pairs(ps.drop_first())));
        }
    }
    // the key token and the colon
    lemma_sub_index(ts, i, m, tp, 0);
    assert(t0[0] == tp[0]);
    assert(ts[i] == t0[0]);
    assert(t0[0].kind == TokenKindView::StrLit(seq!['"'] + key + seq!['"']));
    lemma_strip_quoted(key);
    lemma_sub_index(ts, i, m, tp, 1);
    assert(t0[1] == tp[1]);
    assert(ts[i + 1] == t0[1]);
    assert(t0[1] == delim_token_vw(':'));
    // the value's tokens
    assert(ts.subrange(i + 2, i + 2 + tv.len()) =~= tv) by {
        assert forall|q: int| 0 <= q < tv.len() implies ts.subrange(i + 2, i + 2 + tv.len())[q]
            == tv[q] by {
            lemma_sub_index(ts, i, m, tp, 2 + q);
            assert(tp[2 + q] == t0[2 + q]);
            assert(t0[2 + q] == tv[q]);
            assert(ts.subrange(i + 2, i + 2 + tv.len())[q] == ts[i + 2 + q]);
        }
    }
    lemma_sub_index(ts, i, m, tp, 2);
    assert(t0[2] == tp[2]);
    assert(t0[2] == tv[0]);
    assert(ts[i + 2] == tv[0]);
    assert(val_wf(p0.1));
    let acc2 = acc.push((key, p0.1));
    assert(forall|n: int| 0 <= n < acc.len() ==> (#[trigger] acc[n]).0 != key);
    crate::types::lemma_insert_none(acc, key, p0.1);
    let jn = i + n0;
    match p0.1 {
        JsonValueView::Str(sv) => {
            assert(ts[i + 2].kind == TokenKindView::StrLit(seq!['"'] + sv + seq!['"']));
            lemma_strip_quoted(sv);
            assert(parse_body_spec(ts, i as nat, acc, top) == finish_pair_spec(
                ts,
                (i + 3) as nat,
                acc2,
                top,
            ));
        },
        JsonValueView::Int(_) => {
            assert(parse_body_spec(ts, i as nat, acc, top) == finish_pair_spec(
                ts,
                (i + 3) as nat,
                acc2,
                top,
            ));
        },
        JsonValueView::Float(_) => {
            assert(parse_body_spec(ts, i as nat, acc, top) == finish_pair_spec(
                ts,
                (i + 3) as nat,
                acc2,
                top,
            ));
        },
        JsonValueView::Bool(_) => {
            assert(parse_body_spec(ts, i as nat, acc, top) == finish_pair_spec(
                ts,
                (i + 3) as nat,
                acc2,
                top,
            ));
        },
        JsonValueView::Null => {
            assert(parse_body_spec(ts, i as nat, acc, top) == finish_pair_spec(
                ts,
                (i + 3) as nat,
                acc2,
                top,
            ));
        },
        JsonValueView::Arr(inner) => {
            assert(ts[i + 2] == delim_token_vw('['));
            assert(tv == seq![delim_token_vw('[')] + tokens_of_elems(inner) + seq![
                delim_token_vw(']'),
            ]);
            let mi = tokens_of_elems(inner).len() as int;
            assert(ts.subrange(i + 3, i + 3 + mi) =~= tokens_of_elems(inner)) by {
                assert forall|q: int|
                    0 <= q < mi implies ts.subrange(i + 3, i + 3 + mi)[q] == tokens_of_elems(
                    inner,
                )[q] by {
                    lemma_sub_index(ts, i, m, tp, 3 + q);
                    assert(tp[3 + q] == t0[3 + q]);
                    assert(t0[3 + q] == tv[1 + q]);
                    assert(ts.subrange(i + 3, i + 3 + mi)[q] == ts[i + 3 + q]);
                }
            }
            lemma_sub_index(ts, i, m, tp, 3 + mi);
            assert(tp[3 + mi] == t0[3 + mi]);
            assert(t0[3 + mi] == tv[1 + mi]);
            assert(ts[i + 3 + mi] == tv[1 + mi]);
            assert(tv[1 + mi] == delim_token_vw(']'));
            lemma_parse_arr(ts, i + 3, Seq::empty(), inner);
            assert(Seq::<JsonValueView>::empty() + inner =~= inner);
            assert(parse_body_spec(ts, i as nat, acc, top) == finish_pair_spec(
                ts,
                jn as nat,
                acc2,
                top,
            ));
        },
        JsonValueView::Obj(inner) => {
            assert(ts[i + 2] == delim_token_vw('{'));
            assert(tv == seq![delim_token_vw('{')] + tokens_of_pairs(inner) + seq![
                delim_token_vw('}'),
            ]);
            let mi = tokens_of_pairs(inner).len() as int;
            assert(ts.subrange(i + 3, i + 3 + mi) =~= tokens_of_pairs(inner)) by {
                assert forall|q: int|
                    0 <= q < mi implies ts.subrange(i + 3, i + 3 + mi)[q] == tokens_of_pairs(
                    inner,
                )[q] by {
                    lemma_sub_index(ts, i, m, tp, 3 + q);
                    assert(tp[3 + q] == t0[3 + q]);
                    assert(t0[3 + q] == tv[1 + q]);
                    assert(ts.subrange(i + 3, i + 3 + mi)[q] == ts[i + 3 + q]);
                }
            }
            lemma_sub_index(ts, i, m, tp, 3 + mi);
            assert(tp[3 + mi] == t0[3 + mi]);
            assert(t0[3 + mi] == tv[1 + mi]);
            assert(ts[i + 3 + mi] == tv[1 + mi]);
            assert(tv[1 + mi] == delim_token_vw('}'));
            lemma_parse_body(ts, i + 3, Seq::empty(), inner, false);
            assert(Seq::<(Seq<char>, JsonValueView)>::empty() + inner =~= inner);
            assert(parse_body_spec(ts, i as nat, acc, top) == finish_pair_spec(
                ts,
                jn as nat,
                acc2,
                top,
            ));
        },
    }
    // what follows the pair
    if ps.len() == 1 {
        assert(n0 == m);
        assert(acc2 =~= acc + ps);
        if i + m == ts.len() {
            assert(finish_pair_spec(ts, jn as nat, acc2, top) == Ok::<_, JsonErrorView>(
                (acc2, jn as nat),
            ));
        } else {
            assert(ts[jn].kind == TokenKindView::Delim(Delimiters::RightBrace));
            assert(finish_pair_spec(ts, jn as nat, acc2, top) == Ok::<_, JsonErrorView>(
                (acc2, (jn + 1) as nat),
            ));
        }
    } else {
        let tail = ps.drop_first();
        assert(tp == t0 + (seq![delim_token_vw(',')] + tokens_of_pairs(tail)));
        lemma_sub_index(ts, i, m, tp, n0);
        assert(tp[n0] == delim_token_vw(','));
        assert(ts[jn] == tp[n0]);
        assert(finish_pair_spec(ts, jn as nat, acc2, top) == parse_body_spec(
            ts,
            (jn + 1) as nat,
            acc2,
            top,
        ));
        assert(ts.subrange(jn + 1, i + m) =~= tokens_of_pairs(tail)) by {
            assert forall|q: int|
                0 <= q < tokens_of_pairs(tail).len() implies ts.subrange(jn + 1, i + m)[q]
                == tokens_of_pairs(tail)[q] by {
                lemma_sub_index(ts, i, m, tp, n0 + 1 + q);
                assert(tp[n0 + 1 + q] == (seq![delim_token_vw(',')] + tokens_of_pairs(tail))[1
                    + q]);
                assert(ts.subrange(jn + 1, i + m)[q] == ts[jn + 1 + q]);
                assert(ts[jn + 1 + q] == ts[i + (n0 + 1 + q)]);
            }
        }
        assert(pairs_wf(tail)) by {
            assert forall|k: int| 0 <= k < tail.len() implies str_wf((#[trigger] tail[k]).0)
                && val_wf(tail[k].1) by {
                assert(tail[k] == ps[k + 1]);
            }
            assert forall|a: int, b: int|
                0 <= a < b < tail.len() implies (#[trigger] tail[a]).0 != (#[trigger] tail[b]).0 by {
                assert(tail[a] == ps[a + 1] && tail[b] == ps[b + 1]);
            }
        }
        assert forall|a: int, b: int|
            0 <= a < acc2.len() && 0 <= b < tail.len() implies (#[trigger] acc2[a]).0 != (
        #[trigger] tail[b]).0 by {
            assert(tail[b] == ps[b + 1]);
            if a < acc.len() {
                assert(acc2[a] == acc[a]);
            } else {
                assert(acc2[a] == (key, p0.1));
                assert(ps[0].0 != ps[b + 1].0);
            }
        }
        lemma_parse_body(ts, jn + 1, acc2, tail, top);
        assert(acc2 + tail =~= acc + ps);
    }
}

// ---------------------------------------------------------------------------
// Parsed objects have unique keys
// ---------------------------------------------------------------------------
/// No two entries share a key.
pub open spec fn keys_distinct(ps: Seq<(Seq<char>, JsonValueView)>) -> bool {
    forall|i: int, j: int| 0 <= i < j < ps.len() ==> (#[trigger] ps[i]).0 != (#[trigger] ps[j]).0
}

/// Every object inside the value has unique keys.
pub open spec fn val_keys_distinct(v: JsonValueView) -> bool
    decreases v,
{
    match v {
        JsonValueView::Arr(es) => forall|i: int|
            0 <= i < es.len() ==> val_keys_distinct(#[trigger] es[i]),
        JsonValueView::Obj(ps) => keys_distinct(ps) && (forall|i: int|
            0 <= i < ps.len() ==> val_keys_distinct((#[trigger] ps[i]).1)),
        _ => true,
    }
}

/// Writing an entry keeps keys unique, introduces no key but the written
/// one, and keeps every value's objects unique-keyed.
proof fn lemma_insert_pair_distinct(
    acc: Seq<(Seq<char>, JsonValueView)>,
    k: Seq<char>,
    v: JsonValueView,
)
    requires
        keys_distinct(acc),
        forall|n: int| 0 <= n < acc.len() ==> val_keys_distinct((#[trigger] acc[n]).1),
        val_keys_distinct(v),
    ensures
        keys_distinct(insert_pair(acc, k, v)),
        forall|n: int|
            0 <= n < insert_pair(acc, k, v).len() ==> val_keys_distinct(
                (#[trigger] insert_pair(acc, k, v)[n]).1,
            ),
        forall|n: int|
            0 <= n < insert_pair(acc, k, v).len() ==> ((#[trigger] insert_pair(acc, k, v)[n]).0
                == k || (exists|m: int|
                0 <= m < acc.len() && (#[trigger] acc[m]).0 == insert_pair(acc, k, v)[n].0)),
    decreases acc.len(),
{
    let r = insert_pair(acc, k, v);
    if acc.len() == 0 {
        assert(r == seq![(k, v)]);
        assert(r[0] == (k, v));
    } else if acc[0].0 == k {
        assert(r == seq![(k, v)] + acc.drop_first());
        assert forall|n: int| 0 <= n < r.len() implies ((#[trigger] r[n]).0 == k || (exists|m: int|
            0 <= m < acc.len() && (#[trigger] acc[m]).0 == r[n].0)) by {
            if n > 0 {
                assert(r[n] == acc[n]);
            }
        }
        assert forall|a: int, b: int|
            0 <= a < b < r.len() implies (#[trigger] r[a]).0 != (#[trigger] r[b]).0 by {
            if a > 0 {
                assert(r[a] == acc[a] && r[b] == acc[b]);
            } else {
                assert(r[b] == acc[b]);
                assert(acc[0].0 != acc[b].0);
            }
        }
        assert forall|n: int| 0 <= n < r.len() implies val_keys_distinct((#[trigger] r[n]).1) by {
            if n > 0 {
                assert(r[n] == acc[n]);
            }
        }
    } else {
        let tail = acc.drop_first();
        assert forall|a: int, b: int|
            0 <= a < b < tail.len() implies (#[trigger] tail[a]).0 != (#[trigger] tail[b]).0 by {
            assert(tail[a] == acc[a + 1] && tail[b] == acc[b + 1]);
        }
        assert forall|n: int| 0 <= n < tail.len() implies val_keys_distinct(
            (#[trigger] tail[n]).1,
        ) by {
            assert(tail[n] == acc[n + 1]);
        }
        lemma_insert_pair_distinct(tail, k, v);
        let rt = insert_pair(tail, k, v);
        assert(r == seq![acc[0]] + rt);
        assert forall|n: int| 0 <= n < r.len() implies ((#[trigger] r[n]).0 == k || (exists|m: int|
            0 <= m < acc.len() && (#[trigger] acc[m]).0 == r[n].0)) by {
            if n == 0 {
                assert(acc[0].0 == r[0].0);
            } else {
                assert(r[n] == rt[n - 1]);
                if rt[n - 1].0 != k {
                    let m = choose|m: int| 0 <= m < tail.len() && (#[trigger] tail[m]).0 == rt[n
                        - 1].0;
                    assert(acc[m + 1].0 == r[n].0);
                }
            }
        }
        assert forall|a: int, b: int|
            0 <= a < b < r.len() implies (#[trigger] r[a]).0 != (#[trigger] r[b]).0 by {
            if a > 0 {
                assert(r[a] == rt[a - 1] && r[b] == rt[b - 1]);
            } else {
                assert(r[b] == rt[b - 1]);
                if rt[b - 1].0 == k {
                    assert(acc[0].0 != k);
                } else {
                    let m = choose|m: int| 0 <= m < tail.len() && (#[trigger] tail[m]).0 == rt[b
                        - 1].0;
                    assert(acc[0].0 != acc[m + 1].0);
                }
            }
        }
        assert forall|n: int| 0 <= n < r.len() implies val_keys_distinct((#[trigger] r[n]).1) by {
            if n > 0 {
                assert(r[n] == rt[n - 1]);
            }
        }
    }
}

/// Whatever tokens an object body is read from, the entries it yields have
/// unique keys, at every nesting level.
proof fn lemma_body_distinct(ts: Seq<TokenView>, i: nat, acc: Seq<(Seq<char>, JsonValueView)>, top: bool)
    requires
        i <= ts.len(),
        keys_distinct(acc),
        forall|n: int| 0 <= n < acc.len() ==> val_keys_distinct((#[trigger] acc[n]).1),
        parse_body_spec(ts, i, acc, top) is Ok,
    ensures
        keys_distinct(parse_body_spec(ts, i, acc, top)->Ok_0.0),
        forall|n: int|
            0 <= n < parse_body_spec(ts, i, acc, top)->Ok_0.0.len() ==> val_keys_distinct(
                (#[trigger] parse_body_spec(ts, i, acc, top)->Ok_0.0[n]).1,
            ),
    decreases ts.len() - i,
{
    let key = strip_spec(ts[i as int].kind->StrLit_0);
    match ts[i + 2 as int].kind {
        TokenKindView::StrLit(t) => {
            lemma_insert_pair_distinct(acc, key, JsonValueView::Str(strip_spec(t)));
            lemma_finish_distinct(
                ts,
                (i + 3) as nat,
                insert_pair(acc, key, JsonValueView::Str(strip_spec(t))),
                top,
            );
        },
        TokenKindView::IntLit(v) => {
            lemma_insert_pair_distinct(acc, key, JsonValueView::Int(v));
            lemma_finish_distinct(
                ts,
                (i + 3) as nat,
                insert_pair(acc, key, JsonValueView::Int(v)),
                top,
            );
        },
        TokenKindView::FloatLit(t) => {
            lemma_insert_pair_distinct(acc, key, JsonValueView::Float(t));
            lemma_finish_distinct(
                ts,
                (i + 3) as nat,
                insert_pair(acc, key, JsonValueView::Float(t)),
                top,
            );
        },
        TokenKindView::BoolLit(b) => {
            lemma_insert_pair_distinct(acc, key, JsonValueView::Bool(b));
            lemma_finish_distinct(
                ts,
                (i + 3) as nat,
                insert_pair(acc, key, JsonValueView::Bool(b)),
                top,
            );
        },
        TokenKindView::NullLit => {
            lemma_insert_pair_distinct(acc, key, JsonValueView::Null);
            lemma_finish_distinct(
                ts,
                (i + 3) as nat,
                insert_pair(acc, key, JsonValueView::Null),
                top,
            );
        },
        TokenKindView::Delim(d) => match d {
            Delimiters::LeftBrace => {
                let nested = parse_body_spec(ts, (i + 3) as nat, Seq::empty(), false);
                let pairs = nested->Ok_0.0;
                let j = nested->Ok_0.1;
                lemma_body_distinct(ts, (i + 3) as nat, Seq::empty(), false);
                lemma_insert_pair_distinct(acc, key, JsonValueView::Obj(pairs));
                lemma_finish_distinct(ts, j, insert_pair(acc, key, JsonValueView::Obj(pairs)), top);
            },
            Delimiters::LeftBracket => {
                let nested = parse_arr_spec(ts, (i + 3) as nat, Seq::empty());
                let elems = nested->Ok_0.0;
                let j = nested->Ok_0.1;
                lemma_arr_distinct(ts, (i + 3) as nat, Seq::empty());
                lemma_insert_pair_distinct(acc, key, JsonValueView::Arr(elems));
                lemma_finish_distinct(ts, j, insert_pair(acc, key, JsonValueView::Arr(elems)), top);
            },
            _ => {},
        },
    }
}

/// What follows a pair cannot spoil uniqueness: the accumulated entries
/// are either returned as they are or extended by further unique writes.
proof fn lemma_finish_distinct(ts: Seq<TokenView>, j: nat, acc: Seq<(Seq<char>, JsonValueView)>, top: bool)
    requires
        j <= ts.len(),
        keys_distinct(acc),
        forall|n: int| 0 <= n < acc.len() ==> val_keys_distinct((#[trigger] acc[n]).1),
        finish_pair_spec(ts, j, acc, top) is Ok,
    ensures
        keys_distinct(finish_pair_spec(ts, j, acc, top)->Ok_0.0),
        forall|n: int|
            0 <= n < finish_pair_spec(ts, j, acc, top)->Ok_0.0.len() ==> val_keys_distinct(
                (#[trigger] finish_pair_spec(ts, j, acc, top)->Ok_0.0[n]).1,
            ),
    decreases ts.len() - j,
{
    if j < ts.len() && ts[j as int].kind == TokenKindView::Delim(Delimiters::Comma) {
        lemma_body_distinct(ts, (j + 1) as nat, acc, top);
    }
}

/// Every element an array body yields has unique-keyed objects inside.
proof fn lemma_arr_distinct(ts: Seq<TokenView>, i: nat, acc: Seq<JsonValueView>)
    requires
        i <= ts.len(),
        forall|n: int| 0 <= n < acc.len() ==> val_keys_distinct(#[trigger] acc[n]),
        parse_arr_spec(ts, i, acc) is Ok,
    ensures
        forall|n: int|
            0 <= n < parse_arr_spec(ts, i, acc)->Ok_0.0.len() ==> val_keys_distinct(
                #[trigger] parse_arr_spec(ts, i, acc)->Ok_0.0[n],
            ),
    decreases ts.len() - i,
{
    match ts[i as int].kind {
        TokenKindView::StrLit(t) => {
            lemma_arr_push_distinct(acc, JsonValueView::Str(strip_spec(t)));
            lemma_arr_distinct(ts, (i + 1) as nat, acc.push(JsonValueView::Str(strip_spec(t))));
        },
        TokenKindView::IntLit(v) => {
            lemma_arr_push_distinct(acc, JsonValueView::Int(v));
            lemma_arr_distinct(ts, (i + 1) as nat, acc.push(JsonValueView::Int(v)));
        },
        TokenKindView::FloatLit(t) => {
            lemma_arr_push_distinct(acc, JsonValueView::Float(t));
            lemma_arr_distinct(ts, (i + 1) as nat, acc.push(JsonValueView::Float(t)));
        },
        TokenKindView::BoolLit(b) => {
            lemma_arr_push_distinct(acc, JsonValueView::Bool(b));
            lemma_arr_distinct(ts, (i + 1) as nat, acc.push(JsonValueView::Bool(b)));
        },
        TokenKindView::NullLit => {
            lemma_arr_push_distinct(acc, JsonValueView::Null);
            lemma_arr_distinct(ts, (i + 1) as nat, acc.push(JsonValueView::Null));
        },
        TokenKindView::Delim(d) => match d {
            Delimiters::Comma => {
                lemma_arr_distinct(ts, (i + 1) as nat, acc);
            },
            Delimiters::RightBracket => {},
            Delimiters::LeftBracket => {
                let nested = parse_arr_spec(ts, (i + 1) as nat, Seq::empty());
                let elems = nested->Ok_0.0;
                let j = nested->Ok_0.1;
                lemma_arr_distinct(ts, (i + 1) as nat, Seq::empty());
                lemma_arr_push_distinct(acc, JsonValueView::Arr(elems));
                lemma_arr_distinct(ts, j, acc.push(JsonValueView::Arr(elems)));
            },
            Delimiters::LeftBrace => {
                let nested = parse_body_spec(ts, (i + 1) as nat, Seq::empty(), false);
                let pairs = nested->Ok_0.0;
                let j = nested->Ok_0.1;
                lemma_body_distinct(ts, (i + 1) as nat, Seq::empty(), false);
                lemma_arr_push_distinct(acc, JsonValueView::Obj(pairs));
                lemma_arr_distinct(ts, j, acc.push(JsonValueView::Obj(pairs)));
            },
            _ => {},
        },
    }
}

/// Appending an element with unique-keyed objects keeps them all so.
proof fn lemma_arr_push_distinct(acc: Seq<JsonValueView>, v: JsonValueView)
    requires
        forall|n: int| 0 <= n < acc.len() ==> val_keys_distinct(#[trigger] acc[n]),
        val_keys_distinct(v),
    ensures
        forall|n: int| 0 <= n < acc.push(v).len() ==> val_keys_distinct(#[trigger] acc.push(v)[n]),
{
    assert forall|n: int| 0 <= n < acc.push(v).len() implies val_keys_distinct(
        #[trigger] acc.push(v)[n],
    ) by {
        if n < acc.len() {
            assert(acc.push(v)[n] == acc[n]);
        } else {
            assert(acc.push(v)[n] == v);
        }
    }
}

/// Every object a successful parse yields has unique keys, at the top
/// level and inside every nested value.
pub proof fn lemma_parsed_keys_unique(s: Seq<char>)
    requires
        parse_document_spec(s) is Ok,
    ensures
        keys_distinct(parse_document_spec(s)->Ok_0),
        forall|n: int|
            0 <= n < parse_document_spec(s)->Ok_0.len() ==> val_keys_distinct(
                (#[trigger] parse_document_spec(s)->Ok_0[n]).1,
            ),
{
    let ts = lex_spec(s)->Ok_0;
    let interior = remove_braces_spec(ts)->Ok_0;
    if interior.len() > 0 {
        lemma_body_distinct(interior, 0, Seq::empty(), true);
    }
}

// ---------------------------------------------------------------------------
// The round trip
// ---------------------------------------------------------------------------
/// Rendering a well-formed tree and parsing the text back yields exactly
/// the same tree: the scan reads the rendered text as the tree's tokens,
/// and the parser rebuilds the tree from them, entry for entry.
pub proof fn lemma_render_parse_round_trip(ps: Seq<(Seq<char>, JsonValueView)>)
    requires
        obj_wf(ps),
    ensures
        parse_document_spec(render_obj_spec(ps)) == Ok::<_, JsonErrorView>(ps),
{
    let s = render_obj_spec(ps);
    let rp = render_pairs(ps);
    let m = rp.len() as int;
    assert(s == seq!['{'] + rp + seq!['}']);
    assert(s.len() == m + 2);
    assert(s[0] == '{');
    assert(s[1 + m] == '}');
    // the scan: a left brace, the entries' tokens, a right brace
    assert(is_delim_char('{'));
    assert(lex_from(s, 0) == lex_cons(delim_token_vw('{'), lex_from(s, 1nat)));
    assert(s.subrange(1, 1 + m) =~= rp) by {
        assert forall|q: int| 0 <= q < m implies s.subrange(1, 1 + m)[q] == rp[q] by {
            assert(s.subrange(1, 1 + m)[q] == s[1 + q]);
            assert(s[1 + q] == (seq!['{'] + rp + seq!['}'])[1 + q]);
        }
    }
    lemma_lex_pairs(s, 1, ps);
    assert(lex_from(s, (1 + m) as nat) == lex_cons(
        delim_token_vw('}'),
        lex_from(s, (2 + m) as nat),
    ));
    assert(lex_from(s, (2 + m) as nat) == Ok::<Seq<TokenView>, JsonErrorView>(Seq::empty()));
    let tp = tokens_of_pairs(ps);
    let toks = seq![delim_token_vw('{')] + tp + seq![delim_token_vw('}')];
    lemma_cons_one(delim_token_vw('}'), lex_from(s, (2 + m) as nat));
    lemma_cons_one(delim_token_vw('{'), lex_from(s, 1nat));
    lemma_cons_all_assoc(
        tp,
        seq![delim_token_vw('}')],
        lex_from(s, (2 + m) as nat),
    );
    lemma_cons_all_assoc(
        seq![delim_token_vw('{')],
        tp + seq![delim_token_vw('}')],
        lex_from(s, (2 + m) as nat),
    );
    assert(lex_spec(s) == Ok::<Seq<TokenView>, JsonErrorView>(
        (seq![delim_token_vw('{')] + (tp + seq![delim_token_vw('}')])) + Seq::empty(),
    ));
    assert((seq![delim_token_vw('{')] + (tp + seq![delim_token_vw('}')])) + Seq::empty() =~= toks);
    assert(lex_spec(s) == Ok::<Seq<TokenView>, JsonErrorView>(toks));
    // the braces come off
    assert(toks.len() == tp.len() + 2);
    assert(toks[0] == delim_token_vw('{'));
    assert(toks.last() == delim_token_vw('}'));
    assert(remove_braces_spec(toks) == Ok::<Seq<TokenView>, JsonErrorView>(
        toks.subrange(1, toks.len() - 1),
    ));
    let interior = toks.subrange(1, toks.len() - 1);
    assert(interior =~= tp);
    // the parse
    if ps.len() == 0 {
        assert(tp.len() == 0);
        assert(parse_spec(toks) == Ok::<Seq<(Seq<char>, JsonValueView)>, JsonErrorView>(
            Seq::empty(),
        ));
        assert(ps =~= Seq::<(Seq<char>, JsonValueView)>::empty());
    } else {
        lemma_tokens_of_pairs_head(ps);
        lemma_tokens_of_val_len(ps[0].1);
        assert(tp.len() > 0);
        assert(tp.subrange(0, tp.len() as int) =~= tp);
        lemma_parse_body(tp, 0, Seq::empty(), ps, true);
        assert(parse_body_spec(tp, 0, Seq::empty(), true) == Ok::<
            (Seq<(Seq<char>, JsonValueView)>, nat),
            JsonErrorView,
        >((Seq::empty() + ps, tp.len())));
        assert(Seq::<(Seq<char>, JsonValueView)>::empty() + ps =~= ps);
        assert(parse_spec(toks) == Ok::<Seq<(Seq<char>, JsonValueView)>, JsonErrorView>(ps));
    }
}

} // verus!
