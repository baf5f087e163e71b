//! The grammar parser: from the token list of a `macro_rules!` declaration
//! to the ordered list of pattern alternatives, each a sequence of
//! matchers. The expansion side of every clause is skipped.
//!
//! The accepted grammar, stated by the `sp_*` spec functions, is:
//! `macro_rules ! name? { (pattern) => (expansion) ; ... }` with any of the
//! three delimiter kinds around the body, each pattern, and each expansion.
//! Inside a pattern, `$name:kind` is a capture, `$( ... ) sep? * + ?` is a
//! repetition or an option, a plain delimiter group contributes its
//! delimiters as literal tokens around its inlined content, and every
//! other token is a literal.

use vstd::prelude::*;
use crate::lexer::{chars_to_string, str_chars, tok_views, Token};
use crate::tree::{lemma_view_seq, view_seq, Matcher, Node};

verus! {

broadcast use vstd::seq::group_seq_axioms, vstd::std_specs::vec::group_vec_axioms;

/// The text of token `i`.
pub open spec fn tk(ts: Seq<(Seq<char>, int)>, i: int) -> Seq<char> {
    ts[i].0
}

pub open spec fn is_open_text(t: Seq<char>) -> bool {
    t == "("@ || t == "["@ || t == "{"@
}

pub open spec fn is_close_text(t: Seq<char>) -> bool {
    t == ")"@ || t == "]"@ || t == "}"@
}

pub open spec fn close_for(t: Seq<char>) -> Seq<char> {
    if t == "("@ {
        ")"@
    } else if t == "["@ {
        "]"@
    } else {
        "}"@
    }
}

pub open spec fn is_quant_text(t: Seq<char>) -> bool {
    t == "*"@ || t == "+"@ || t == "?"@
}

/// The node a quantifier builds around a repetition body.
pub open spec fn mk_quant(q: Seq<char>, inner: Seq<Node>, sep: Option<Seq<char>>) -> Node {
    if q == "?"@ {
        Node::Opt(Box::new(Node::Cat(inner)))
    } else {
        Node::Rep {
            body: Box::new(Node::Cat(inner)),
            sep,
            min: if q == "+"@ {
                1
            } else {
                0
            },
        }
    }
}

/// Index of the first `macro_rules` token at or after `i`, or the length.
pub open spec fn find_mr(ts: Seq<(Seq<char>, int)>, i: int) -> int
    decreases ts.len() - i,
{
    if i < 0 || i >= ts.len() {
        ts.len() as int
    } else if tk(ts, i) == "macro_rules"@ {
        i
    } else {
        find_mr(ts, i + 1)
    }
}

/// Index just past a balanced group that began before `i` at nesting
/// `depth`, or `None` if the input ends first.
pub open spec fn sp_skip_balanced(ts: Seq<(Seq<char>, int)>, i: int, depth: nat) -> Option<int>
    decreases ts.len() - i,
{
    if i < 0 || i >= ts.len() {
        Option::None
    } else if is_open_text(tk(ts, i)) {
        sp_skip_balanced(ts, i + 1, depth + 1)
    } else if is_close_text(tk(ts, i)) {
        if depth == 1 {
            Option::Some(i + 1)
        } else {
            sp_skip_balanced(ts, i + 1, (depth - 1) as nat)
        }
    } else {
        sp_skip_balanced(ts, i + 1, depth)
    }
}

/// Index just past the delimiter group starting at `i`.
pub open spec fn sp_skip_group(ts: Seq<(Seq<char>, int)>, i: int) -> Option<int> {
    if 0 <= i < ts.len() && is_open_text(tk(ts, i)) {
        sp_skip_balanced(ts, i + 1, 1)
    } else {
        Option::None
    }
}

/// One pattern item starting at token `i`: the matchers it contributes and
/// the index of the first token after it.
pub open spec fn sp_item(ts: Seq<(Seq<char>, int)>, i: int) -> Option<(Seq<Node>, int)>
    decreases ts.len() - i, 0nat,
{
    if i < 0 || i >= ts.len() {
        Option::None
    } else if tk(ts, i) == "$"@ {
        if i + 1 < ts.len() && tk(ts, i + 1) == "("@ {
            match sp_list(ts, i + 2, ")"@) {
                Option::None => Option::None,
                Option::Some((inner, j)) => {
                    let k = j + 1;
                    if k < ts.len() && is_quant_text(tk(ts, k)) {
                        Option::Some((seq![mk_quant(tk(ts, k), inner, Option::None)], k + 1))
                    } else if k + 1 < ts.len() && !is_quant_text(tk(ts, k)) && (tk(ts, k + 1)
                        == "*"@ || tk(ts, k + 1) == "+"@) {
                        Option::Some(
                            (
                                seq![mk_quant(tk(ts, k + 1), inner, Option::Some(tk(ts, k)))],
                                k + 2,
                            ),
                        )
                    } else {
                        Option::None
                    }
                },
            }
        } else if i + 3 < ts.len() && tk(ts, i + 2) == ":"@ {
            Option::Some(
                (seq![Node::Cap { name: tk(ts, i + 1), kind: tk(ts, i + 3) }], i + 4),
            )
        } else {
            Option::None
        }
    } else if is_open_text(tk(ts, i)) {
        match sp_list(ts, i + 1, close_for(tk(ts, i))) {
            Option::None => Option::None,
            Option::Some((inner, j)) => Option::Some(
                (
                    seq![Node::Lit(tk(ts, i))] + inner + seq![Node::Lit(close_for(tk(ts, i)))],
                    j + 1,
                ),
            ),
        }
    } else if is_close_text(tk(ts, i)) {
        Option::None
    } else {
        Option::Some((seq![Node::Lit(tk(ts, i))], i + 1))
    }
}

/// A pattern item list up to (not including) the token `close`; the
/// returned index is that of the closing token.
pub open spec fn sp_list(ts: Seq<(Seq<char>, int)>, i: int, close: Seq<char>) -> Option<
    (Seq<Node>, int),
>
    decreases ts.len() - i, 1nat,
{
    if i < 0 || i >= ts.len() {
        Option::None
    } else if tk(ts, i) == close {
        Option::Some((Seq::empty(), i))
    } else {
        match sp_item(ts, i) {
            Option::None => Option::None,
            Option::Some((nodes, j)) => {
                let j1: int = if j <= i {
                    i + 1
                } else if j > ts.len() {
                    ts.len() as int
                } else {
                    j
                };
                match sp_list(ts, j1, close) {
                    Option::None => Option::None,
                    Option::Some((rest, e)) => Option::Some((nodes + rest, e)),
                }
            },
        }
    }
}

/// The rule list of the macro body up to its closing delimiter: each rule
/// is `(pattern) => (expansion)`, clauses separated by `;`.
pub open spec fn sp_rules(ts: Seq<(Seq<char>, int)>, i: int, close: Seq<char>) -> Option<
    Seq<Seq<Node>>,
>
    decreases ts.len() - i, 2nat,
{
    if i < 0 || i >= ts.len() {
        Option::None
    } else if tk(ts, i) == close {
        Option::Some(Seq::empty())
    } else if is_open_text(tk(ts, i)) {
        match sp_list(ts, i + 1, close_for(tk(ts, i))) {
            Option::None => Option::None,
            Option::Some((nodes, j)) => {
                let k = j + 1;
                if k < ts.len() && tk(ts, k) == "=>"@ {
                    match sp_skip_group(ts, k + 1) {
                        Option::None => Option::None,
                        Option::Some(g) => {
                            let nxt: int = if g < ts.len() && tk(ts, g) == ";"@ {
                                g + 1
                            } else {
                                g
                            };
                            let nxt1: int = if nxt <= i {
                                i + 1
                            } else if nxt > ts.len() {
                                ts.len() as int
                            } else {
                                nxt
                            };
                            match sp_rules(ts, nxt1, close) {
                                Option::None => Option::None,
                                Option::Some(rest) => Option::Some(seq![nodes] + rest),
                            }
                        },
                    }
                } else {
                    Option::None
                }
            },
        }
    } else {
        Option::None
    }
}

/// The parse of a whole token list: the pattern alternatives of the first
/// `macro_rules!` declaration in it, or `None` when the text is not a
/// syntactically valid declaration.
pub open spec fn sp_parse(ts: Seq<(Seq<char>, int)>) -> Option<Seq<Seq<Node>>> {
    let m = find_mr(ts, 0);
    if m + 1 >= ts.len() || tk(ts, m + 1) != "!"@ {
        Option::None
    } else if m + 2 < ts.len() && is_open_text(tk(ts, m + 2)) {
        sp_rules(ts, m + 3, close_for(tk(ts, m + 2)))
    } else if m + 3 < ts.len() && is_open_text(tk(ts, m + 3)) {
        sp_rules(ts, m + 4, close_for(tk(ts, m + 3)))
    } else {
        Option::None
    }
}

// ---------------------------------------------------------------------------
// Exec parser
// ---------------------------------------------------------------------------
/// A syntax error of the macro's pattern text: the character offset at
/// which parsing stopped and a description of what was expected there.
#[derive(Debug)]
pub struct GrammarSyntaxError {
    pub offset: usize,
    pub expected: String,
}

/// The error for a failure at token `i`, carrying that token's offset.
fn mk_err(toks: &Vec<Token>, i: usize, what: &str) -> GrammarSyntaxError {
    let offset = if i < toks.len() {
        toks[i].start
    } else if toks.len() > 0 {
        toks[toks.len() - 1].start
    } else {
        0
    };
    GrammarSyntaxError { offset, expected: what.to_owned() }
}

/// Whether this token's text equals `pat`.
pub fn tok_is(t: &Vec<char>, pat: &str) -> (b: bool)
    ensures
        b == (t@ == pat@),
{
    let p = str_chars(pat);
    if p.len() != t.len() {
        return false;
    }
    let mut i: usize = 0;
    while i < t.len()
        invariant
            0 <= i <= t@.len(),
            t@.len() == p@.len(),
            p@ == pat@,
            forall|j: int| 0 <= j < i ==> t@[j] == p@[j],
        decreases t@.len() - i,
    {
        if t[i] != p[i] {
            return false;
        }
        i += 1;
    }
    proof {
        assert(t@ =~= pat@);
    }
    true
}

fn is_open_tok(t: &Token) -> (b: bool)
    ensures
        b == is_open_text(t.text@),
{
    tok_is(&t.text, "(") || tok_is(&t.text, "[") || tok_is(&t.text, "{")
}

fn is_close_tok(t: &Token) -> (b: bool)
    ensures
        b == is_close_text(t.text@),
{
    tok_is(&t.text, ")") || tok_is(&t.text, "]") || tok_is(&t.text, "}")
}

fn is_quant_tok(t: &Token) -> (b: bool)
    ensures
        b == is_quant_text(t.text@),
{
    tok_is(&t.text, "*") || tok_is(&t.text, "+") || tok_is(&t.text, "?")
}

fn close_for_tok(t: &Token) -> (c: &'static str)
    ensures
        c@ == close_for(t.text@),
{
    if tok_is(&t.text, "(") {
        ")"
    } else if tok_is(&t.text, "[") {
        "]"
    } else {
        "}"
    }
}

/// The quantifier node around a parsed repetition body.
fn build_quant(qt: &Token, inner: Vec<Matcher>, sep: Option<String>) -> (r: Matcher)
    ensures
        r@ == mk_quant(
            qt.text@,
            view_seq(inner@),
            match sep {
                Option::Some(s) => Option::Some(s@),
                Option::None => Option::None,
            },
        ),
{
    let ghost iv = view_seq(inner@);
    let body = Box::new(Matcher::Sequence(inner));
    proof {
        assert((*body)@ == Node::Cat(iv));
    }
    if tok_is(&qt.text, "?") {
        let r = Matcher::Optional(body);
        proof {
            assert(r@ == Node::Opt(Box::new(Node::Cat(iv))));
        }
        r
    } else if tok_is(&qt.text, "+") {
        let r = Matcher::Repetition { body, separator: sep, min_count: 1 };
        proof {
            assert(r@ matches Node::Rep { body: b, .. } && *b == Node::Cat(iv));
        }
        r
    } else {
        let r = Matcher::Repetition { body, separator: sep, min_count: 0 };
        proof {
            assert(r@ matches Node::Rep { body: b, .. } && *b == Node::Cat(iv));
        }
        r
    }
}

/// Skip the balanced delimiter group starting at `i`; returns the index
/// just past its closing delimiter.
fn skip_group(toks: &Vec<Token>, i: usize) -> (r: Option<usize>)
    ensures
        match r {
            Option::Some(g) => sp_skip_group(tok_views(toks@), i as int) == Option::Some(
                g as int,
            ) && i < g <= toks@.len(),
            Option::None => sp_skip_group(tok_views(toks@), i as int) is None,
        },
{
    let ghost tv = tok_views(toks@);
    proof {
        assert(forall|t: int| 0 <= t < toks@.len() ==> tv[t] == toks@[t]@);
    }
    if i >= toks.len() {
        return Option::None;
    }
    if !is_open_tok(&toks[i]) {
        proof {
            assert(tv[i as int] == toks@[i as int]@);
        }
        return Option::None;
    }
    proof {
        assert(tv[i as int] == toks@[i as int]@);
    }
    let mut k = i + 1;
    let mut depth: usize = 1;
    loop
        invariant
            i + 1 <= k <= toks@.len(),
            1 <= depth <= k,
            i < toks@.len(),
            tv == tok_views(toks@),
            sp_skip_group(tv, i as int) == sp_skip_balanced(tv, i + 1, 1),
            sp_skip_balanced(tv, i + 1, 1) == sp_skip_balanced(tv, k as int, depth as nat),
        decreases toks@.len() - k,
    {
        if k >= toks.len() {
            return Option::None;
        }
        proof {
            assert(tv[k as int] == toks@[k as int]@);
        }
        if is_open_tok(&toks[k]) {
            depth += 1;
            k += 1;
        } else if is_close_tok(&toks[k]) {
            if depth == 1 {
                return Option::Some(k + 1);
            }
            depth -= 1;
            k += 1;
        } else {
            k += 1;
        }
    }
}

/// One pattern item starting at token `i`; see `sp_item`.
pub fn p_item(toks: &Vec<Token>, i: usize) -> (r: Result<
    (Vec<Matcher>, usize),
    GrammarSyntaxError,
>)
    ensures
        match r {
            Result::Ok(p) => sp_item(tok_views(toks@), i as int) == Option::Some(
                (view_seq(p.0@), p.1 as int),
            ) && i < p.1 <= toks@.len(),
            Result::Err(_) => sp_item(tok_views(toks@), i as int) is None,
        },
    decreases toks@.len() - i, 0nat,
{
    let ghost tv = tok_views(toks@);
    if i >= toks.len() {
        return Result::Err(mk_err(toks, i, "a pattern token"));
    }
    if tok_is(&toks[i].text, "$") {
        if i + 1 < toks.len() && tok_is2(toks, i + 1, "(") {
            match p_list(toks, i + 2, ")") {
                Result::Err(e) => Result::Err(e),
                Result::Ok((inner, j)) => {
                    let k = j + 1;
                    if k < toks.len() && is_quant_tok(&toks[k]) {
                        let node = build_quant(&toks[k], inner, Option::None);
                        let mut out: Vec<Matcher> = Vec::new();
                        out.push(node);
                        proof {
                            lemma_view_seq(out@);
                            assert(view_seq(out@) =~= seq![node@]);
                        }
                        Result::Ok((out, k + 1))
                    } else if k < toks.len() && !is_quant_tok(&toks[k]) && k + 1 < toks.len() && (
                    tok_is2(toks, k + 1, "*") || tok_is2(toks, k + 1, "+")) {
                        let sep = chars_to_string(&toks[k].text);
                        let node = build_quant(&toks[k + 1], inner, Option::Some(sep));
                        let mut out: Vec<Matcher> = Vec::new();
                        out.push(node);
                        proof {
                            lemma_view_seq(out@);
                            assert(view_seq(out@) =~= seq![node@]);
                        }
                        Result::Ok((out, k + 2))
                    } else {
                        Result::Err(mk_err(toks, k, "a repetition quantifier"))
                    }
                },
            }
        } else if toks.len() - i > 3 && tok_is2(toks, i + 2, ":") {
            let name = chars_to_string(&toks[i + 1].text);
            let kind = chars_to_string(&toks[i + 3].text);
            let mut out: Vec<Matcher> = Vec::new();
            out.push(Matcher::Capture { name, kind });
            proof {
                lemma_view_seq(out@);
                assert(view_seq(out@) =~= seq![Node::Cap { name: name@, kind: kind@ }]);
            }
            Result::Ok((out, i + 4))
        } else {
            Result::Err(mk_err(toks, i, "a capture `$name:kind` or a group `$( ... )`"))
        }
    } else if is_open_tok(&toks[i]) {
        let close = close_for_tok(&toks[i]);
        match p_list(toks, i + 1, close) {
            Result::Err(e) => Result::Err(e),
            Result::Ok((inner, j)) => {
                let mut out: Vec<Matcher> = Vec::new();
                out.push(Matcher::Literal(chars_to_string(&toks[i].text)));
                let mut inner = inner;
                let ghost iv = inner@;
                out.append(&mut inner);
                out.push(Matcher::Literal(close.to_owned()));
                proof {
                    lemma_view_seq(out@);
                    lemma_view_seq(iv);
                    assert(view_seq(out@) =~= seq![Node::Lit(tk(tv, i as int))] + view_seq(iv)
                        + seq![Node::Lit(close_for(tk(tv, i as int)))]);
                }
                Result::Ok((out, j + 1))
            },
        }
    } else if is_close_tok(&toks[i]) {
        Result::Err(mk_err(toks, i, "a pattern token, not a closing delimiter"))
    } else {
        let mut out: Vec<Matcher> = Vec::new();
        out.push(Matcher::Literal(chars_to_string(&toks[i].text)));
        proof {
            lemma_view_seq(out@);
            assert(view_seq(out@) =~= seq![Node::Lit(tk(tv, i as int))]);
        }
        Result::Ok((out, i + 1))
    }
}

/// `tok_is` on the token at index `i`.
fn tok_is2(toks: &Vec<Token>, i: usize, pat: &str) -> (b: bool)
    requires
        i < toks@.len(),
    ensures
        b == (tk(tok_views(toks@), i as int) == pat@),
{
    tok_is(&toks[i].text, pat)
}

/// A pattern item list up to the closing token; see `sp_list`.
pub fn p_list(toks: &Vec<Token>, i: usize, close: &str) -> (r: Result<
    (Vec<Matcher>, usize),
    GrammarSyntaxError,
>)
    ensures
        match r {
            Result::Ok(p) => sp_list(tok_views(toks@), i as int, close@) == Option::Some(
                (view_seq(p.0@), p.1 as int),
            ) && i <= p.1 < toks@.len(),
            Result::Err(_) => sp_list(tok_views(toks@), i as int, close@) is None,
        },
    decreases toks@.len() - i, 1nat,
{
    let ghost tv = tok_views(toks@);
    if i >= toks.len() {
        return Result::Err(mk_err(toks, i, "a closing delimiter"));
    }
    if tok_is(&toks[i].text, close) {
        let out: Vec<Matcher> = Vec::new();
        proof {
            assert(view_seq(out@) =~= Seq::<Node>::empty());
        }
        return Result::Ok((out, i));
    }
    match p_item(toks, i) {
        Result::Err(e) => Result::Err(e),
        Result::Ok((nodes, j)) => {
            match p_list(toks, j, close) {
                Result::Err(e) => Result::Err(e),
                Result::Ok((rest, e_idx)) => {
                    let mut nodes = nodes;
                    let mut rest = rest;
                    let ghost nv = nodes@;
                    let ghost rv2 = rest@;
                    nodes.append(&mut rest);
                    proof {
                        crate::tree::lemma_view_seq_concat(nv, rv2);
                    }
                    Result::Ok((nodes, e_idx))
                },
            }
        },
    }
}

/// The rule list of the macro body; see `sp_rules`.
pub fn p_rules(toks: &Vec<Token>, i: usize, close: &str) -> (r: Result<
    Vec<Vec<Matcher>>,
    GrammarSyntaxError,
>)
    ensures
        match r {
            Result::Ok(rs) => sp_rules(tok_views(toks@), i as int, close@) == Option::Some(
                crate::lowering::rule_views(rs@),
            ),
            Result::Err(_) => sp_rules(tok_views(toks@), i as int, close@) is None,
        },
    decreases toks@.len() - i, 2nat,
{
    let ghost tv = tok_views(toks@);
    if i >= toks.len() {
        return Result::Err(mk_err(toks, i, "a rule or the closing delimiter"));
    }
    if tok_is(&toks[i].text, close) {
        let out: Vec<Vec<Matcher>> = Vec::new();
        proof {
            assert(crate::lowering::rule_views(out@) =~= Seq::<Seq<Node>>::empty());
        }
        return Result::Ok(out);
    }
    if !is_open_tok(&toks[i]) {
        return Result::Err(mk_err(toks, i, "a parenthesized rule pattern"));
    }
    let pat_close = close_for_tok(&toks[i]);
    match p_list(toks, i + 1, pat_close) {
        Result::Err(e) => Result::Err(e),
        Result::Ok((nodes, j)) => {
            let k = j + 1;
            if !(k < toks.len() && tok_is2(toks, k, "=>")) {
                return Result::Err(mk_err(toks, k, "`=>`"));
            }
            match skip_group(toks, k + 1) {
                Option::None => Result::Err(mk_err(toks, k + 1, "a delimited expansion")),
                Option::Some(g) => {
                    let nxt = if g < toks.len() && tok_is2(toks, g, ";") {
                        g + 1
                    } else {
                        g
                    };
                    match p_rules(toks, nxt, close) {
                        Result::Err(e) => Result::Err(e),
                        Result::Ok(rest) => {
                            let ghost restv = rest@;
                            let mut rest = rest;
                            rest.insert(0, nodes);
                            proof {
                                assert(rest@ =~= seq![nodes] + restv);
                                assert(crate::lowering::rule_views(rest@) =~= seq![view_seq(nodes@)]
                                    + crate::lowering::rule_views(restv));
                            }
                            Result::Ok(rest)
                        },
                    }
                },
            }
        },
    }
}

/// Grammar Parser: the pattern alternatives of a `macro_rules!`
/// declaration, parsed from its raw source text. Pure: the result is a
/// function of the text alone; see `sp_parse` over `spec_tokens` for the
/// accepted grammar. An empty rule list parses to an empty sequence, not
/// an error; text that is not a valid declaration is rejected with a
/// `GrammarSyntaxError`.
pub fn parse_rules(input: &str) -> (r: Result<Vec<Vec<Matcher>>, GrammarSyntaxError>)
    ensures
        match r {
            Result::Ok(rs) => sp_parse(crate::lexer::spec_tokens(input@, 0)) == Option::Some(
                crate::lowering::rule_views(rs@),
            ),
            Result::Err(_) => sp_parse(crate::lexer::spec_tokens(input@, 0)) is None,
        },
{
    let toks = crate::lexer::tokenize(input);
    let ghost tv = tok_views(toks@);
    let mut m: usize = 0;
    loop
        invariant
            0 <= m <= toks@.len(),
            tv == tok_views(toks@),
            find_mr(tv, 0) == find_mr(tv, m as int),
        ensures
            0 <= m <= toks@.len(),
            m as int == find_mr(tv, 0),
        decreases toks@.len() - m,
    {
        if m >= toks.len() {
            proof {
                assert(m == toks@.len());
                assert(find_mr(tv, m as int) == m as int);
            }
            break ;
        }
        proof {
            assert(tv[m as int] == toks@[m as int]@);
        }
        if tok_is(&toks[m].text, "macro_rules") {
            break ;
        }
        m += 1;
    }
    proof {
        assert(find_mr(tv, 0) == m as int);
    }
    if toks.len() - m <= 1 {
        return Result::Err(mk_err(&toks, m, "`macro_rules !`"));
    }
    if !tok_is2(&toks, m + 1, "!") {
        return Result::Err(mk_err(&toks, m + 1, "`!`"));
    }
    if toks.len() - m > 2 && is_open_tok(&toks[m + 2]) {
        p_rules(&toks, m + 3, close_for_tok(&toks[m + 2]))
    } else if toks.len() - m > 3 && is_open_tok(&toks[m + 3]) {
        p_rules(&toks, m + 4, close_for_tok(&toks[m + 3]))
    } else {
        Result::Err(mk_err(&toks, m + 2, "the macro body"))
    }
}

} // verus!
