//! The rule tree of a macro's input grammar, its spec-level mirror, and the
//! language semantics against which the lowering passes are proved.

use vstd::prelude::*;

verus! {

broadcast use vstd::seq::group_seq_axioms, vstd::std_specs::vec::group_vec_axioms;

/// One node of the grammar of a rule-based macro.
///
/// A full grammar is an `Alternation` whose branches are the macro's
/// pattern alternatives, each usually a `Sequence`.
#[derive(Debug)]
pub enum Matcher {
    /// A fixed token or keyword, e.g. `fn` or `=>`.
    Literal(String),
    /// A capture placeholder `$name:kind` accepting one fragment of the
    /// given syntactic kind.
    Capture { name: String, kind: String },
    /// Ordered composition of the children.
    Sequence(Vec<Matcher>),
    /// Mutually exclusive choice among the branches.
    Alternation(Vec<Matcher>),
    /// `$(...)sep*` or `$(...)sep+`: the body repeated, optionally with a
    /// separator token between consecutive occurrences. `min_count` is 0
    /// for `*` and 1 for `+`.
    Repetition { body: Box<Matcher>, separator: Option<String>, min_count: u32 },
    /// `$(...)?`: zero or one occurrence of the body.
    Optional(Box<Matcher>),
}

/// The spec-level mirror of `Matcher`: texts as `Seq<char>`, children as
/// `Seq<Node>`. All contracts and laws speak of this type.
pub enum Node {
    Lit(Seq<char>),
    Cap { name: Seq<char>, kind: Seq<char> },
    Cat(Seq<Node>),
    Alt(Seq<Node>),
    Rep { body: Box<Node>, sep: Option<Seq<char>>, min: nat },
    Opt(Box<Node>),
}

impl View for Matcher {
    type V = Node;

    open spec fn view(&self) -> Node
        decreases self,
    {
        match self {
            Matcher::Literal(t) => Node::Lit(t@),
            Matcher::Capture { name, kind } => Node::Cap { name: name@, kind: kind@ },
            Matcher::Sequence(cs) => Node::Cat(view_seq(cs@)),
            Matcher::Alternation(bs) => Node::Alt(view_seq(bs@)),
            Matcher::Repetition { body, separator, min_count } => Node::Rep {
                body: Box::new((**body)@),
                sep: match separator {
                    Option::Some(s) => Option::Some(s@),
                    Option::None => Option::None,
                },
                min: *min_count as nat,
            },
            Matcher::Optional(b) => Node::Opt(Box::new((**b)@)),
        }
    }
}

/// The views of a sequence of trees, in order.
pub open spec fn view_seq(s: Seq<Matcher>) -> Seq<Node>
    decreases s,
{
    if s.len() == 0 {
        Seq::empty()
    } else {
        seq![s[0]@] + view_seq(s.drop_first())
    }
}

pub proof fn lemma_view_seq(s: Seq<Matcher>)
    ensures
        view_seq(s).len() == s.len(),
        forall|i: int| 0 <= i < s.len() ==> view_seq(s)[i] == s[i]@,
    decreases s,
{
    if s.len() > 0 {
        lemma_view_seq(s.drop_first());
        assert(view_seq(s) == seq![s[0]@] + view_seq(s.drop_first()));
        assert forall|i: int| 0 <= i < s.len() implies view_seq(s)[i] == s[i]@ by {
            if i > 0 {
                assert(view_seq(s)[i] == view_seq(s.drop_first())[i - 1]);
                assert(s.drop_first()[i - 1] == s[i]);
            }
        }
    }
}

pub proof fn lemma_view_seq_concat(a: Seq<Matcher>, b: Seq<Matcher>)
    ensures
        view_seq(a + b) == view_seq(a) + view_seq(b),
{
    lemma_view_seq(a);
    lemma_view_seq(b);
    lemma_view_seq(a + b);
    assert(view_seq(a + b) =~= view_seq(a) + view_seq(b));
}

/// Index of the first space in `s`, or `s.len()` if there is none.
pub open spec fn word_end(s: Seq<char>) -> int
    decreases s.len(),
{
    if s.len() == 0 {
        0
    } else if s[0] == ' ' {
        0
    } else {
        1 + word_end(s.drop_first())
    }
}

pub proof fn lemma_word_end_bounds(s: Seq<char>)
    ensures
        0 <= word_end(s) <= s.len(),
        forall|i: int| 0 <= i < word_end(s) ==> s[i] != ' ',
        word_end(s) < s.len() ==> s[word_end(s)] == ' ',
    decreases s.len(),
{
    if s.len() > 0 && s[0] != ' ' {
        lemma_word_end_bounds(s.drop_first());
        assert forall|i: int| 0 <= i < word_end(s) implies s[i] != ' ' by {
            if i > 0 {
                assert(s.drop_first()[i - 1] == s[i]);
            }
        }
        if word_end(s) < s.len() {
            assert(s.drop_first()[word_end(s) - 1] == s[word_end(s)]);
        }
    }
}

/// The space-separated words of a literal's text. A literal token produced
/// by the parser is a single word; merging two literals joins their texts
/// with one space, so a merged literal's words are the two word lists
/// appended.
pub open spec fn words(s: Seq<char>) -> Seq<Seq<char>>
    decreases s.len(),
    via words_decreases
{
    if s.len() == 0 {
        Seq::empty()
    } else if s[0] == ' ' {
        words(s.drop_first())
    } else {
        let k = word_end(s);
        seq![s.take(k)] + words(s.skip(k))
    }
}

#[via_fn]
proof fn words_decreases(s: Seq<char>) {
    lemma_word_end_bounds(s);
}

/// The tokens a separator contributes between two repetitions of a body.
pub open spec fn sep_words(sep: Option<Seq<char>>) -> Seq<Seq<char>> {
    match sep {
        Option::Some(t) => words(t),
        Option::None => Seq::empty(),
    }
}

/// Trigger marker for a chosen split of a token sequence; always true.
/// The quantifiers of the matching semantics trigger on it, so that a
/// proof names a split by asserting the marker for its two halves.
pub open spec fn tok_split(u: Seq<Seq<char>>, v: Seq<Seq<char>>) -> bool {
    true
}

/// Trigger marker for a chosen repetition count; always true.
pub open spec fn rep_count(n: nat) -> bool {
    true
}

/// Trigger marker for a chosen alternation branch; always true.
pub open spec fn alt_pick(k: int) -> bool {
    true
}

/// The language semantics of a tree: `matches(t, s)` holds when the token
/// sequence `s` is one complete input accepted by the grammar `t`. A
/// capture accepts any single token; a literal accepts exactly its words.
pub open spec fn matches(t: Node, s: Seq<Seq<char>>) -> bool
    decreases t, 0nat,
{
    match t {
        Node::Lit(txt) => s == words(txt),
        Node::Cap { .. } => s.len() == 1,
        Node::Cat(cs) => cat_matches(cs, s),
        Node::Alt(bs) => exists|k: int|
            #![trigger alt_pick(k)]
            (alt_pick(k) && 0 <= k < bs.len() && matches(bs[k], s)),
        Node::Opt(b) => s.len() == 0 || matches(*b, s),
        Node::Rep { body, sep, min } => exists|n: nat|
            #![trigger rep_count(n)]
            (rep_count(n) && n >= min && rep_matches(*body, sep_words(sep), n, s)),
    }
}

/// `s` splits into consecutive parts matching the children `cs` in order.
pub open spec fn cat_matches(cs: Seq<Node>, s: Seq<Seq<char>>) -> bool
    decreases cs, 1nat,
{
    if cs.len() == 0 {
        s.len() == 0
    } else {
        exists|u: Seq<Seq<char>>, v: Seq<Seq<char>>|
            #![trigger tok_split(u, v)]
            (tok_split(u, v) && s == u + v && matches(cs[0], u) && cat_matches(
                cs.drop_first(),
                v,
            ))
    }
}

/// `s` is exactly `n` matches of `body`, with the separator tokens between
/// consecutive occurrences.
pub open spec fn rep_matches(body: Node, sept: Seq<Seq<char>>, n: nat, s: Seq<Seq<char>>) -> bool
    decreases body, n + 1,
{
    if n == 0 {
        s.len() == 0
    } else {
        exists|u: Seq<Seq<char>>, v: Seq<Seq<char>>|
            #![trigger tok_split(u, v)]
            (tok_split(u, v) && s == u + v && matches(body, u) && rep_rest(
                body,
                sept,
                (n - 1) as nat,
                v,
            ))
    }
}

/// `s` is `k` further occurrences of `body`, each preceded by the separator.
pub open spec fn rep_rest(body: Node, sept: Seq<Seq<char>>, k: nat, s: Seq<Seq<char>>) -> bool
    decreases body, k + 1,
{
    if k == 0 {
        s.len() == 0
    } else {
        exists|u: Seq<Seq<char>>, v: Seq<Seq<char>>|
            #![trigger tok_split(u, v)]
            (tok_split(u, v) && s == sept + u + v && matches(body, u) && rep_rest(
                body,
                sept,
                (k - 1) as nat,
                v,
            ))
    }
}

} // verus!
