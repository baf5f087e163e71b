//! Tokenization of the textual form of a `macro_rules!` declaration.
//!
//! A token is a run of word characters, a quoted string literal, the
//! two-character arrow `=>`, or a single other non-space character; each
//! token carries the character offset at which it starts.

use vstd::prelude::*;

verus! {

broadcast use vstd::seq::group_seq_axioms, vstd::std_specs::vec::group_vec_axioms;

/// Relies on str::chars: yields exactly the characters of the string, in
/// order.
#[verifier::external_body]
pub fn str_chars(s: &str) -> (r: Vec<char>)
    ensures
        r@ == s@,
{
    s.chars().collect()
}

/// Relies on String implementing FromIterator<char>: collecting characters
/// builds the string of exactly those characters, in order.
#[verifier::external_body]
pub fn chars_to_string(v: &Vec<char>) -> (r: String)
    ensures
        r@ == v@,
{
    v.iter().collect()
}

/// One token of the macro's source text and the character offset of its
/// first character.
pub struct Token {
    pub text: Vec<char>,
    pub start: usize,
}

impl View for Token {
    type V = (Seq<char>, int);

    open spec fn view(&self) -> (Seq<char>, int) {
        (self.text@, self.start as int)
    }
}

/// The views of a token list.
pub open spec fn tok_views(ts: Seq<Token>) -> Seq<(Seq<char>, int)> {
    Seq::new(ts.len(), |i: int| ts[i]@)
}

pub open spec fn is_space_char(c: char) -> bool {
    c == ' ' || c == '\t' || c == '\n' || c == '\r'
}

pub open spec fn is_word_char(c: char) -> bool {
    c == '_' || ('a' <= c && c <= 'z') || ('A' <= c && c <= 'Z') || ('0' <= c && c <= '9')
}

/// Length of the run of word characters starting at `i`.
pub open spec fn word_len(s: Seq<char>, i: int) -> nat
    decreases s.len() - i,
{
    if 0 <= i < s.len() && is_word_char(s[i]) {
        1 + word_len(s, i + 1)
    } else {
        0
    }
}

/// Index just past the closing quote of a string literal whose opening
/// quote stands right before `j`; escaped characters are skipped. An
/// unterminated literal extends to the end of the input.
pub open spec fn str_end(s: Seq<char>, j: int) -> int
    decreases s.len() - j,
{
    if j < 0 || j >= s.len() {
        s.len() as int
    } else if s[j] == '"' {
        j + 1
    } else if s[j] == '\\' {
        if j + 2 <= s.len() {
            str_end(s, j + 2)
        } else {
            s.len() as int
        }
    } else {
        str_end(s, j + 1)
    }
}

pub proof fn lemma_word_len_bounds(s: Seq<char>, i: int)
    requires
        0 <= i <= s.len(),
    ensures
        i + word_len(s, i) <= s.len(),
    decreases s.len() - i,
{
    if i < s.len() && is_word_char(s[i]) {
        lemma_word_len_bounds(s, i + 1);
    }
}

pub proof fn lemma_str_end_bounds(s: Seq<char>, j: int)
    requires
        0 <= j <= s.len(),
    ensures
        j <= str_end(s, j) <= s.len(),
    decreases s.len() - j,
{
    if j < s.len() && s[j] != '"' {
        if s[j] == '\\' {
            if j + 2 <= s.len() {
                lemma_str_end_bounds(s, j + 2);
            }
        } else {
            lemma_str_end_bounds(s, j + 1);
        }
    }
}

/// The tokens of `s` from position `i` on, each with its start offset.
pub open spec fn spec_tokens(s: Seq<char>, i: int) -> Seq<(Seq<char>, int)>
    decreases s.len() - i,
    via spec_tokens_decreases
{
    if i < 0 || i >= s.len() {
        Seq::empty()
    } else if is_space_char(s[i]) {
        spec_tokens(s, i + 1)
    } else if is_word_char(s[i]) {
        let k = i + word_len(s, i);
        seq![(s.subrange(i, k), i)] + spec_tokens(s, k)
    } else if s[i] == '"' {
        let k = str_end(s, i + 1);
        seq![(s.subrange(i, k), i)] + spec_tokens(s, k)
    } else if s[i] == '=' && i + 1 < s.len() && s[i + 1] == '>' {
        seq![(s.subrange(i, i + 2), i)] + spec_tokens(s, i + 2)
    } else {
        seq![(s.subrange(i, i + 1), i)] + spec_tokens(s, i + 1)
    }
}

#[via_fn]
proof fn spec_tokens_decreases(s: Seq<char>, i: int) {
    if 0 <= i < s.len() {
        lemma_str_end_bounds(s, i + 1);
        lemma_word_len_bounds(s, i);
    }
}

fn space_char(c: char) -> (b: bool)
    ensures
        b == is_space_char(c),
{
    c == ' ' || c == '\t' || c == '\n' || c == '\r'
}

fn word_char(c: char) -> (b: bool)
    ensures
        b == is_word_char(c),
{
    c == '_' || ('a' <= c && c <= 'z') || ('A' <= c && c <= 'Z') || ('0' <= c && c <= '9')
}

/// Copy the characters `s[from..to]` into a fresh vector.
fn copy_range(s: &Vec<char>, from: usize, to: usize) -> (r: Vec<char>)
    requires
        from <= to <= s@.len(),
    ensures
        r@ == s@.subrange(from as int, to as int),
{
    let mut out: Vec<char> = Vec::new();
    let mut t = from;
    while t < to
        invariant
            from <= t <= to <= s@.len(),
            out@ =~= s@.subrange(from as int, t as int),
        decreases to - t,
    {
        out.push(s[t]);
        proof {
            assert(out@ =~= s@.subrange(from as int, t + 1));
        }
        t += 1;
    }
    out
}

/// Tokenize the macro's source text. Pure: the token list is a function of
/// the characters alone; see `spec_tokens`.
pub fn tokenize(input: &str) -> (r: Vec<Token>)
    ensures
        tok_views(r@) == spec_tokens(input@, 0),
{
    let s = str_chars(input);
    let ghost sv = s@;
    let n = s.len();
    let mut toks: Vec<Token> = Vec::new();
    let mut i: usize = 0;
    while i < n
        invariant
            0 <= i <= n,
            n == sv.len(),
            s@ == sv,
            spec_tokens(sv, 0) =~= tok_views(toks@) + spec_tokens(sv, i as int),
        decreases n - i,
    {
        let ghost toks0 = toks@;
        let c = s[i];
        if space_char(c) {
            i += 1;
        } else if word_char(c) {
            let mut k = i;
            while k < n && word_char_at(&s, k)
                invariant
                    i <= k <= n,
                    n == sv.len(),
                    s@ == sv,
                    word_len(sv, i as int) == (k - i) + word_len(sv, k as int),
                decreases n - k,
            {
                k += 1;
            }
            let text = copy_range(&s, i, k);
            toks.push(Token { text, start: i });
            proof {
                assert(word_len(sv, k as int) == 0);
                assert(k == i + word_len(sv, i as int));
                lemma_tok_push(toks0, toks@, (sv.subrange(i as int, k as int), i as int));
            }
            i = k;
        } else if c == '"' {
            let mut k = i + 1;
            let mut closed = false;
            while !closed && k < n
                invariant
                    i + 1 <= k <= n,
                    n == sv.len(),
                    s@ == sv,
                    str_end(sv, i + 1) == if closed {
                        k as int
                    } else {
                        str_end(sv, k as int)
                    },
                decreases n - k, (if closed { 0int } else { 1int }),
    {
                let d = s[k];
                if d == '"' {
                    k += 1;
                    closed = true;
                } else if d == '\\' {
                    if n - k >= 2 {
                        k += 2;
                    } else {
                        k = n;
                    }
                } else {
                    k += 1;
                }
            }
            proof {
                if !closed {
                    assert(str_end(sv, k as int) == sv.len());
                }
                assert(str_end(sv, i + 1) == k as int);
            }
            let text = copy_range(&s, i, k);
            toks.push(Token { text, start: i });
            proof {
                lemma_tok_push(toks0, toks@, (sv.subrange(i as int, k as int), i as int));
            }
            i = k;
        } else if c == '=' && i + 1 < n && s[i + 1] == '>' {
            let text = copy_range(&s, i, i + 2);
            toks.push(Token { text, start: i });
            proof {
                lemma_tok_push(toks0, toks@, (sv.subrange(i as int, i + 2), i as int));
            }
            i += 2;
        } else {
            let text = copy_range(&s, i, i + 1);
            toks.push(Token { text, start: i });
            proof {
                lemma_tok_push(toks0, toks@, (sv.subrange(i as int, i + 1), i as int));
            }
            i += 1;
        }
    }
    proof {
        assert(spec_tokens(sv, n as int) =~= Seq::<(Seq<char>, int)>::empty());
        assert(tok_views(toks@) =~= tok_views(toks@) + spec_tokens(sv, n as int));
    }
    toks
}

/// Word-character test on an indexed position, for loop conditions.
fn word_char_at(s: &Vec<char>, k: usize) -> (b: bool)
    requires
        k < s@.len(),
    ensures
        b == is_word_char(s@[k as int]),
{
    word_char(s[k])
}

proof fn lemma_tok_push(before: Seq<Token>, after: Seq<Token>, item: (Seq<char>, int))
    requires
        after.len() == before.len() + 1,
        forall|t: int| 0 <= t < before.len() ==> after[t] == before[t],
        after[after.len() - 1]@ == item,
    ensures
        tok_views(after) =~= tok_views(before) + seq![item],
{
}

} // verus!
