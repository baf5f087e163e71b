//! The laws of the lowering passes: what normalization leaves fixed, and
//! what the passes do and do not change about the accepted language.

use vstd::prelude::*;
use crate::lowering::{
    agree_at, back_agree_at, cpl, cpl_from, csl, csl_from, merge_lits, norm, norm_seq,
    rule_is_internal, spec_fold, spec_remove_internal, splice,
};
use crate::tree::{alt_pick, cat_matches, lemma_word_end_bounds, tok_split, word_end, words, Node};

verus! {

broadcast use vstd::seq::group_seq_axioms;

// ---------------------------------------------------------------------------
// Normal forms
// ---------------------------------------------------------------------------
/// A tree is normal when no alternation or sequence is a singleton, no
/// sequence directly nests a sequence, and no two literals stand adjacent
/// in a sequence.
pub open spec fn is_normal(t: Node) -> bool
    decreases t, 0nat,
{
    match t {
        Node::Lit(_) => true,
        Node::Cap { .. } => true,
        Node::Opt(b) => is_normal(*b),
        Node::Rep { body, .. } => is_normal(*body),
        Node::Alt(bs) => bs.len() != 1 && all_normal(bs),
        Node::Cat(cs) => cs.len() != 1 && all_normal(cs) && no_cat(cs) && no_adjacent_lits(cs),
    }
}

pub open spec fn all_normal(s: Seq<Node>) -> bool
    decreases s, 1nat,
{
    if s.len() == 0 {
        true
    } else {
        is_normal(s[0]) && all_normal(s.drop_first())
    }
}

pub open spec fn no_cat(s: Seq<Node>) -> bool {
    forall|i: int| 0 <= i < s.len() ==> !(#[trigger] s[i] is Cat)
}

pub open spec fn no_adjacent_lits(s: Seq<Node>) -> bool {
    forall|i: int| 0 <= i && i + 1 < s.len() ==> !(#[trigger] s[i] is Lit && s[i + 1] is Lit)
}

proof fn lemma_all_normal_index(s: Seq<Node>, i: int)
    requires
        all_normal(s),
        0 <= i < s.len(),
    ensures
        is_normal(s[i]),
    decreases i,
{
    if i == 0 {
    } else {
        lemma_all_normal_index(s.drop_first(), i - 1);
        assert(s.drop_first()[i - 1] == s[i]);
    }
}

proof fn lemma_all_normal_concat(a: Seq<Node>, b: Seq<Node>)
    requires
        all_normal(a),
        all_normal(b),
    ensures
        all_normal(a + b),
    decreases a.len(),
{
    if a.len() == 0 {
        assert(a + b =~= b);
    } else {
        lemma_all_normal_concat(a.drop_first(), b);
        assert((a + b).drop_first() =~= a.drop_first() + b);
        assert((a + b)[0] == a[0]);
    }
}

// ---------------------------------------------------------------------------
// The normalization pass yields normal trees
// ---------------------------------------------------------------------------
proof fn lemma_norm_seq_shape(s: Seq<Node>)
    ensures
        norm_seq(s).len() == s.len(),
        forall|i: int| 0 <= i < s.len() ==> norm_seq(s)[i] == norm(#[trigger] s[i]),
    decreases s,
{
    if s.len() > 0 {
        lemma_norm_seq_shape(s.drop_first());
        assert forall|i: int| 0 <= i < s.len() implies norm_seq(s)[i] == norm(#[trigger] s[i]) by {
            if i > 0 {
                assert(norm_seq(s)[i] == norm_seq(s.drop_first())[i - 1]);
                assert(s.drop_first()[i - 1] == s[i]);
            }
        }
    }
}

proof fn lemma_splice_props(s: Seq<Node>)
    requires
        all_normal(s),
    ensures
        all_normal(splice(s)),
        no_cat(splice(s)),
    decreases s.len(),
{
    if s.len() > 0 {
        lemma_splice_props(s.drop_first());
        match s[0] {
            Node::Cat(xs) => {
                assert(is_normal(s[0]));
                lemma_all_normal_concat(xs, splice(s.drop_first()));
                assert forall|i: int| 0 <= i < splice(s).len() implies !(#[trigger] splice(
                    s,
                )[i] is Cat) by {
                    if i < xs.len() {
                        assert(splice(s)[i] == xs[i]);
                        assert(no_cat(xs));
                    } else {
                        assert(splice(s)[i] == splice(s.drop_first())[i - xs.len()]);
                    }
                }
            },
            _ => {
                assert(splice(s) =~= seq![s[0]] + splice(s.drop_first()));
                lemma_all_normal_single(s[0]);
                lemma_all_normal_concat(seq![s[0]], splice(s.drop_first()));
                assert forall|i: int| 0 <= i < splice(s).len() implies !(#[trigger] splice(
                    s,
                )[i] is Cat) by {
                    if i > 0 {
                        assert(splice(s)[i] == splice(s.drop_first())[i - 1]);
                    }
                }
            },
        }
    }
}

#[verifier::rlimit(60)]
proof fn lemma_merge_props(s: Seq<Node>)
    requires
        all_normal(s),
        no_cat(s),
    ensures
        all_normal(merge_lits(s)),
        no_cat(merge_lits(s)),
        no_adjacent_lits(merge_lits(s)),
        merge_lits(s).len() <= s.len(),
        s.len() > 0 ==> merge_lits(s).len() > 0,
        s.len() > 0 ==> ((merge_lits(s)[0] is Lit) ==> s[0] is Lit),
    decreases s.len(),
{
    if s.len() <= 1 {
    } else {
        match (s[0], s[1]) {
            (Node::Lit(a), Node::Lit(b)) => {
                let merged = seq![Node::Lit(a + seq![' '] + b)] + s.skip(2);
                assert forall|i: int| 0 <= i < merged.len() implies !(#[trigger] merged[
                    i] is Cat) by {
                    if i > 0 {
                        assert(merged[i] == s[i + 1]);
                    }
                }
                assert(all_normal(merged)) by {
                    lemma_all_normal_tail2(s);
                    lemma_all_normal_single(Node::Lit(a + seq![' '] + b));
                    lemma_all_normal_concat(seq![Node::Lit(a + seq![' '] + b)], s.skip(2));
                }
                lemma_merge_props(merged);
            },
            _ => {
                lemma_all_normal_head(s);
                lemma_no_cat_drop(s);
                lemma_merge_props(s.drop_first());
                lemma_all_normal_single(s[0]);
                let r = seq![s[0]] + merge_lits(s.drop_first());
                assert(merge_lits(s) =~= r);
                lemma_all_normal_concat(seq![s[0]], merge_lits(s.drop_first()));
                assert forall|i: int| 0 <= i < r.len() implies !(#[trigger] r[i] is Cat) by {
                    if i > 0 {
                        assert(r[i] == merge_lits(s.drop_first())[i - 1]);
                    }
                }
                assert forall|i: int| 0 <= i && i + 1 < r.len() implies !(#[trigger] r[i] is Lit && r[i
                    + 1] is Lit) by {
                    if i == 0 {
                        if r[0] is Lit && r[1] is Lit {
                            assert(r[1] == merge_lits(s.drop_first())[0]);
                            assert(s.drop_first()[0] == s[1]);
                            assert(s[0] is Lit && s[1] is Lit);
                        }
                    } else {
                        assert(r[i] == merge_lits(s.drop_first())[i - 1]);
                        assert(r[i + 1] == merge_lits(s.drop_first())[i]);
                    }
                }
            },
        }
    }
}

proof fn lemma_all_normal_single(x: Node)
    requires
        is_normal(x),
    ensures
        all_normal(seq![x]),
{
    assert(seq![x].drop_first() =~= Seq::<Node>::empty());
    assert(all_normal(Seq::<Node>::empty()));
    assert(seq![x][0] == x);
}

proof fn lemma_no_cat_drop(s: Seq<Node>)
    requires
        no_cat(s),
        s.len() > 0,
    ensures
        no_cat(s.drop_first()),
{
    assert forall|i: int| 0 <= i < s.drop_first().len() implies !(#[trigger] s.drop_first()[
        i] is Cat) by {
        assert(s.drop_first()[i] == s[i + 1]);
    }
}

proof fn lemma_no_adj_drop(s: Seq<Node>)
    requires
        no_adjacent_lits(s),
        s.len() > 0,
    ensures
        no_adjacent_lits(s.drop_first()),
{
    assert forall|i: int| 0 <= i && i + 1 < s.drop_first().len() implies !(#[trigger] s.drop_first()[
        i] is Lit && s.drop_first()[i + 1] is Lit) by {
        assert(s.drop_first()[i] == s[i + 1]);
        assert(s.drop_first()[i + 1] == s[i + 2]);
        assert(!(s[i + 1] is Lit && s[i + 2] is Lit));
    }
}

proof fn lemma_all_normal_head(s: Seq<Node>)
    requires
        all_normal(s),
        s.len() > 0,
    ensures
        is_normal(s[0]),
        all_normal(s.drop_first()),
{
}

proof fn lemma_all_normal_tail2(s: Seq<Node>)
    requires
        all_normal(s),
        s.len() >= 2,
    ensures
        all_normal(s.skip(2)),
{
    assert(all_normal(s.drop_first()));
    assert(all_normal(s.drop_first().drop_first()));
    assert(s.drop_first().drop_first() =~= s.skip(2));
}

/// Normalization yields a normal tree.
pub proof fn lemma_norm_normal(t: Node)
    ensures
        is_normal(norm(t)),
    decreases t, 0nat,
{
    match t {
        Node::Lit(_) => {},
        Node::Cap { .. } => {},
        Node::Opt(b) => {
            lemma_norm_normal(*b);
        },
        Node::Rep { body, .. } => {
            lemma_norm_normal(*body);
        },
        Node::Alt(bs) => {
            lemma_norm_seq_normal(bs);
            lemma_norm_seq_shape(bs);
            if norm_seq(bs).len() == 1 {
                lemma_all_normal_index(norm_seq(bs), 0);
            }
        },
        Node::Cat(cs) => {
            lemma_norm_seq_normal(cs);
            lemma_norm_seq_shape(cs);
            lemma_splice_props(norm_seq(cs));
            lemma_merge_props(splice(norm_seq(cs)));
            let nc = merge_lits(splice(norm_seq(cs)));
            if nc.len() == 1 {
                lemma_all_normal_index(nc, 0);
            }
        },
    }
}

proof fn lemma_norm_seq_normal(s: Seq<Node>)
    ensures
        all_normal(norm_seq(s)),
    decreases s, 1nat,
{
    if s.len() > 0 {
        lemma_norm_normal(s[0]);
        lemma_norm_seq_normal(s.drop_first());
        assert(norm_seq(s).drop_first() =~= norm_seq(s.drop_first()));
        assert(norm_seq(s)[0] == norm(s[0]));
    }
}

// ---------------------------------------------------------------------------
// Normal trees are fixed points of normalization
// ---------------------------------------------------------------------------
proof fn lemma_splice_id(s: Seq<Node>)
    requires
        no_cat(s),
    ensures
        splice(s) == s,
    decreases s.len(),
{
    if s.len() > 0 {
        lemma_splice_id(s.drop_first());
        assert(splice(s) =~= seq![s[0]] + s.drop_first());
        assert(seq![s[0]] + s.drop_first() =~= s);
    }
}

proof fn lemma_merge_id(s: Seq<Node>)
    requires
        no_adjacent_lits(s),
    ensures
        merge_lits(s) == s,
    decreases s.len(),
{
    if s.len() > 1 {
        assert(!(s[0] is Lit && s[1] is Lit));
        lemma_no_adj_drop(s);
        lemma_merge_id(s.drop_first());
        assert(merge_lits(s) =~= seq![s[0]] + s.drop_first());
        assert(seq![s[0]] + s.drop_first() =~= s);
    }
}

/// A normal tree is left unchanged by normalization.
pub proof fn lemma_normal_fixed(t: Node)
    requires
        is_normal(t),
    ensures
        norm(t) == t,
    decreases t, 0nat,
{
    match t {
        Node::Lit(_) => {},
        Node::Cap { .. } => {},
        Node::Opt(b) => {
            lemma_normal_fixed(*b);
        },
        Node::Rep { body, .. } => {
            lemma_normal_fixed(*body);
        },
        Node::Alt(bs) => {
            lemma_norm_seq_fixed(bs);
        },
        Node::Cat(cs) => {
            lemma_norm_seq_fixed(cs);
            lemma_splice_id(cs);
            lemma_merge_id(cs);
        },
    }
}

proof fn lemma_norm_seq_fixed(s: Seq<Node>)
    requires
        all_normal(s),
    ensures
        norm_seq(s) == s,
    decreases s, 1nat,
{
    if s.len() > 0 {
        lemma_normal_fixed(s[0]);
        lemma_norm_seq_fixed(s.drop_first());
        assert(norm_seq(s) =~= seq![s[0]] + s.drop_first());
        assert(seq![s[0]] + s.drop_first() =~= s);
    }
}

/// Idempotent normalization: normalizing an already-normalized tree
/// yields the tree unchanged.
pub proof fn lemma_norm_idempotent(t: Node)
    ensures
        norm(norm(t)) == norm(t),
{
    lemma_norm_normal(t);
    lemma_normal_fixed(norm(t));
}

// ---------------------------------------------------------------------------
// Splitting lemmas for sequence composition
// ---------------------------------------------------------------------------
/// `s` is `u + v`, with `u` matched by the row `a` and `v` by the row `b`.
pub open spec fn splits_step(
    a: Seq<Node>,
    b: Seq<Node>,
    s: Seq<Seq<char>>,
    u: Seq<Seq<char>>,
    v: Seq<Seq<char>>,
) -> bool {
    s == u + v && cat_matches(a, u) && cat_matches(b, v)
}

/// `s` splits into a part matched by the row `a` followed by a part
/// matched by the row `b`.
pub open spec fn splits_into(a: Seq<Node>, b: Seq<Node>, s: Seq<Seq<char>>) -> bool {
    exists|u: Seq<Seq<char>>, v: Seq<Seq<char>>| #[trigger] splits_step(a, b, s, u, v)
}

/// Sequence composition: a concatenated row matches `s` exactly when `s`
/// splits between the two rows.
pub proof fn lemma_cat_concat(a: Seq<Node>, b: Seq<Node>, s: Seq<Seq<char>>)
    ensures
        cat_matches(a + b, s) <==> splits_into(a, b, s),
    decreases a.len(),
{
    if a.len() == 0 {
        assert(a + b =~= b);
        if cat_matches(b, s) {
            assert(cat_matches(a, Seq::<Seq<char>>::empty()));
            assert(s =~= Seq::<Seq<char>>::empty() + s);
            assert(splits_step(a, b, s, Seq::<Seq<char>>::empty(), s));
        }
        if splits_into(a, b, s) {
            let (u, v) = choose|u: Seq<Seq<char>>, v: Seq<Seq<char>>|
                #[trigger] splits_step(a, b, s, u, v);
            assert(u.len() == 0);
            assert(s =~= v);
        }
    } else {
        assert((a + b)[0] == a[0]);
        assert((a + b).drop_first() =~= a.drop_first() + b);
        if cat_matches(a + b, s) {
            let (u1, v1) = choose|u1: Seq<Seq<char>>, v1: Seq<Seq<char>>|
                #![trigger tok_split(u1, v1)]
                (tok_split(u1, v1) && s == u1 + v1 && crate::tree::matches((a + b)[0], u1)
                    && cat_matches(
                    (a + b).drop_first(),
                    v1,
                ));
            lemma_cat_concat(a.drop_first(), b, v1);
            let (u2, v2) = choose|u2: Seq<Seq<char>>, v2: Seq<Seq<char>>|
                #[trigger] splits_step(a.drop_first(), b, v1, u2, v2);
            assert(crate::tree::matches(a[0], u1));
            lemma_cat_intro2(a, u1, u2);
            assert(s =~= (u1 + u2) + v2);
            assert(splits_step(a, b, s, u1 + u2, v2));
        }
        if splits_into(a, b, s) {
            let (u, v) = choose|u: Seq<Seq<char>>, v: Seq<Seq<char>>|
                #[trigger] splits_step(a, b, s, u, v);
            let (ua, ub) = choose|ua: Seq<Seq<char>>, ub: Seq<Seq<char>>|
                #![trigger tok_split(ua, ub)]
                (tok_split(ua, ub) && u == ua + ub && crate::tree::matches(a[0], ua)
                    && cat_matches(
                    a.drop_first(),
                    ub,
                ));
            lemma_cat_concat(a.drop_first(), b, ub + v);
            assert(splits_step(a.drop_first(), b, ub + v, ub, v));
            assert(cat_matches(a.drop_first() + b, ub + v));
            assert(s =~= ua + (ub + v));
            assert(tok_split(ua, ub + v));
            assert(crate::tree::matches((a + b)[0], ua));
            assert(cat_matches((a + b).drop_first(), ub + v));
            assert(cat_matches(a + b, s));
        }
    }
}

/// Introduction form of `cat_matches` stated on the split halves.
proof fn lemma_cat_intro2(cs: Seq<Node>, u: Seq<Seq<char>>, v: Seq<Seq<char>>)
    requires
        cs.len() > 0,
        crate::tree::matches(cs[0], u),
        cat_matches(cs.drop_first(), v),
    ensures
        cat_matches(cs, u + v),
{
    assert(tok_split(u, v));
}

/// A one-element row matches what its single node matches.
pub proof fn lemma_cat_single(x: Node, s: Seq<Seq<char>>)
    ensures
        cat_matches(seq![x], s) <==> crate::tree::matches(x, s),
{
    assert(seq![x][0] == x);
    assert(seq![x].drop_first() =~= Seq::<Node>::empty());
    if crate::tree::matches(x, s) {
        assert(cat_matches(Seq::<Node>::empty(), Seq::<Seq<char>>::empty()));
        assert(s =~= s + Seq::<Seq<char>>::empty());
        assert(tok_split(s, Seq::<Seq<char>>::empty()));
        assert(crate::tree::matches(seq![x][0], s));
        assert(cat_matches(seq![x].drop_first(), Seq::<Seq<char>>::empty()));
        assert(cat_matches(seq![x], s));
    }
    if cat_matches(seq![x], s) {
        let (u, v) = choose|u: Seq<Seq<char>>, v: Seq<Seq<char>>|
            #![trigger tok_split(u, v)]
            (tok_split(u, v) && s == u + v && crate::tree::matches(seq![x][0], u)
                && cat_matches(
                seq![x].drop_first(),
                v,
            ));
        assert(v.len() == 0);
        assert(s =~= u);
    }
}

// ---------------------------------------------------------------------------
// Folding does not change the accepted language
// ---------------------------------------------------------------------------
proof fn lemma_cpl_agrees(rs: Seq<Seq<Node>>, i: nat, j: int)
    requires
        i <= j < i + cpl_from(rs, i),
    ensures
        agree_at(rs, j),
    decreases j - i,
{
    if !(rs.len() > 0 && i < rs[0].len() && agree_at(rs, i as int)) {
        assert(cpl_from(rs, i) == 0);
    } else if j > i {
        lemma_cpl_agrees(rs, i + 1, j);
    }
}

proof fn lemma_csl_agrees(rs: Seq<Seq<Node>>, p: nat, i: nat, j: int)
    requires
        i <= j < i + csl_from(rs, p, i),
    ensures
        back_agree_at(rs, p, j),
    decreases j - i,
{
    if !(rs.len() > 0 && i < rs[0].len() && back_agree_at(rs, p, i as int)) {
        assert(csl_from(rs, p, i) == 0);
    } else if j > i {
        lemma_csl_agrees(rs, p, i + 1, j);
    }
}

/// Every rule of the set carries the common prefix and the common suffix:
/// it decomposes as prefix, divergent middle, suffix, the prefix and the
/// suffix being those of the first rule.
proof fn lemma_rule_decomp(rs: Seq<Seq<Node>>, k: int)
    requires
        rs.len() > 0,
        0 <= k < rs.len(),
    ensures
        cpl(rs) + csl(rs, cpl(rs)) <= rs[k].len(),
        cpl(rs) + csl(rs, cpl(rs)) <= rs[0].len(),
        rs[k].take(cpl(rs) as int) == rs[0].take(cpl(rs) as int),
        rs[k].skip(rs[k].len() - csl(rs, cpl(rs))) == rs[0].skip(
            rs[0].len() - csl(rs, cpl(rs)),
        ),
        rs[k] == rs[k].take(cpl(rs) as int) + rs[k].subrange(
            cpl(rs) as int,
            rs[k].len() - csl(rs, cpl(rs)),
        ) + rs[k].skip(rs[k].len() - csl(rs, cpl(rs))),
{
    let p = cpl(rs);
    let q = csl(rs, p);
    if p > 0 {
        lemma_cpl_agrees(rs, 0, p - 1);
        assert(p - 1 < rs[k].len());
        assert(p - 1 < rs[0].len());
    }
    if q > 0 {
        lemma_csl_agrees(rs, p, 0, q - 1);
        assert(p + (q - 1) < rs[k].len());
        assert(p + (q - 1) < rs[0].len());
    }
    assert forall|j: int| 0 <= j < p implies #[trigger] rs[k][j] == rs[0][j] by {
        lemma_cpl_agrees(rs, 0, j);
    }
    assert(rs[k].take(p as int) =~= rs[0].take(p as int));
    assert forall|j: int| 0 <= j < q implies #[trigger] rs[k].skip(rs[k].len() - q)[j] == rs[0].skip(
        rs[0].len() - q,
    )[j] by {
        let jj = q - 1 - j;
        lemma_csl_agrees(rs, p, 0, jj);
        assert(back_agree_at(rs, p, jj));
        assert(rs[k][rs[k].len() - 1 - jj] == rs[0][rs[0].len() - 1 - jj]);
        assert(rs[k].skip(rs[k].len() - q)[j] == rs[k][rs[k].len() - q + j]);
        assert(rs[k].len() - 1 - jj == rs[k].len() - q + j);
        assert(rs[0].len() - 1 - jj == rs[0].len() - q + j);
    }
    assert(rs[k].skip(rs[k].len() - q) =~= rs[0].skip(rs[0].len() - q));
    assert(rs[k] =~= rs[k].take(p as int) + rs[k].subrange(p as int, rs[k].len() - q) + rs[k].skip(
        rs[k].len() - q,
    ));
}

/// Common-tail/head folding does not change the accepted language: the
/// folded tree accepts exactly what some alternative of the rule set
/// accepts.
pub proof fn lemma_fold_preserves(rs: Seq<Seq<Node>>, s: Seq<Seq<char>>)
    ensures
        crate::tree::matches(spec_fold(rs), s) <==> ruleset_accepts(rs, s),
{
    if rs.len() == 0 {
    } else {
        let p = cpl(rs);
        let q = csl(rs, p);
        let pre = rs[0].take(p as int);
        let suf = rs[0].skip(rs[0].len() - q);
        let mids = Seq::new(
            rs.len(),
            |i: int| Node::Cat(rs[i].subrange(p as int, rs[i].len() - q)),
        );
        let alt = Node::Alt(mids);
        assert(spec_fold(rs) == Node::Cat(pre + seq![alt] + suf));
        assert(pre + seq![alt] + suf =~= pre + (seq![alt] + suf));
        lemma_cat_concat(pre, seq![alt] + suf, s);
        if crate::tree::matches(spec_fold(rs), s) {
            assert(cat_matches(pre + (seq![alt] + suf), s));
            let (u, v) = choose|u: Seq<Seq<char>>, v: Seq<Seq<char>>|
                #[trigger] splits_step(pre, seq![alt] + suf, s, u, v);
            lemma_cat_concat(seq![alt], suf, v);
            let (w, z) = choose|w: Seq<Seq<char>>, z: Seq<Seq<char>>|
                #[trigger] splits_step(seq![alt], suf, v, w, z);
            lemma_cat_single(alt, w);
            let k = choose|k: int|
                #![trigger alt_pick(k)]
                (alt_pick(k) && 0 <= k < mids.len() && crate::tree::matches(mids[k], w));
            assert(mids[k] == Node::Cat(rs[k].subrange(p as int, rs[k].len() - q)));
            assert(cat_matches(rs[k].subrange(p as int, rs[k].len() - q), w));
            lemma_rule_decomp(rs, k);
            lemma_cat_concat(rs[k].subrange(p as int, rs[k].len() - q), suf, w + z);
            assert(splits_step(rs[k].subrange(p as int, rs[k].len() - q), suf, w + z, w, z));
            assert(cat_matches(rs[k].subrange(p as int, rs[k].len() - q) + suf, w + z));
            lemma_cat_concat(
                pre,
                rs[k].subrange(p as int, rs[k].len() - q) + suf,
                u + (w + z),
            );
            assert(splits_step(
                pre,
                rs[k].subrange(p as int, rs[k].len() - q) + suf,
                u + (w + z),
                u,
                w + z,
            ));
            assert(cat_matches(pre + (rs[k].subrange(p as int, rs[k].len() - q) + suf), u + (w
                + z)));
            assert(rs[k] =~= pre + (rs[k].subrange(p as int, rs[k].len() - q) + suf));
            assert(s =~= u + (w + z));
            assert(cat_matches(rs[k], s));
            assert(ruleset_accepts(rs, s));
        }
        if ruleset_accepts(rs, s) {
            let k = choose|k: int| 0 <= k < rs.len() && cat_matches(#[trigger] rs[k], s);
            lemma_rule_decomp(rs, k);
            let mid = rs[k].subrange(p as int, rs[k].len() - q);
            assert(rs[k] =~= pre + (mid + suf));
            lemma_cat_concat(pre, mid + suf, s);
            assert(cat_matches(pre + (mid + suf), s));
            let (u, v) = choose|u: Seq<Seq<char>>, v: Seq<Seq<char>>|
                #[trigger] splits_step(pre, mid + suf, s, u, v);
            lemma_cat_concat(mid, suf, v);
            let (w, z) = choose|w: Seq<Seq<char>>, z: Seq<Seq<char>>|
                #[trigger] splits_step(mid, suf, v, w, z);
            assert(mids[k] == Node::Cat(mid));
            assert(crate::tree::matches(mids[k], w));
            assert(alt_pick(k));
            assert(crate::tree::matches(alt, w));
            lemma_cat_single(alt, w);
            assert(cat_matches(seq![alt], w));
            lemma_cat_concat(seq![alt], suf, v);
            assert(splits_step(seq![alt], suf, v, w, z));
            assert(cat_matches(seq![alt] + suf, v));
            assert(splits_step(pre, seq![alt] + suf, s, u, v));
            assert(cat_matches(pre + (seq![alt] + suf), s));
            assert(crate::tree::matches(spec_fold(rs), s));
        }
    }
}

// ---------------------------------------------------------------------------
// Words of joined literal texts
// ---------------------------------------------------------------------------
proof fn lemma_word_end_space_concat(x: Seq<char>, rest: Seq<char>)
    requires
        rest.len() > 0,
        rest[0] == ' ',
    ensures
        word_end(x + rest) == word_end(x),
    decreases x.len(),
{
    if x.len() == 0 {
        assert(x + rest =~= rest);
    } else if x[0] == ' ' {
        assert((x + rest)[0] == ' ');
    } else {
        assert((x + rest)[0] == x[0]);
        assert((x + rest).drop_first() =~= x.drop_first() + rest);
        lemma_word_end_space_concat(x.drop_first(), rest);
    }
}

/// Words of two texts joined by one space: the two word lists, appended.
pub proof fn lemma_words_concat(a: Seq<char>, b: Seq<char>)
    ensures
        words(a + seq![' '] + b) == words(a) + words(b),
    decreases a.len(),
{
    let m = seq![' '] + b;
    assert(a + seq![' '] + b =~= a + m);
    if a.len() == 0 {
        assert(a + m =~= m);
        assert(m[0] == ' ');
        assert(m.drop_first() =~= b);
        assert(words(a) + words(b) =~= words(b));
    } else if a[0] == ' ' {
        assert((a + m)[0] == ' ');
        assert((a + m).drop_first() =~= a.drop_first() + m);
        assert(a.drop_first() + m =~= a.drop_first() + seq![' '] + b);
        lemma_words_concat(a.drop_first(), b);
    } else {
        assert((a + m)[0] == a[0]);
        lemma_word_end_space_concat(a, m);
        lemma_word_end_bounds(a);
        let k = word_end(a);
        assert(1 <= k <= a.len());
        assert((a + m).take(k) =~= a.take(k));
        assert((a + m).skip(k) =~= a.skip(k) + m);
        assert(a.skip(k) + m =~= a.skip(k) + seq![' '] + b);
        lemma_words_concat(a.skip(k), b);
        assert(words(a + m) == seq![a.take(k)] + (words(a.skip(k)) + words(b)));
        assert(words(a) == seq![a.take(k)] + words(a.skip(k)));
        assert(seq![a.take(k)] + (words(a.skip(k)) + words(b)) =~= (seq![a.take(k)] + words(
            a.skip(k),
        )) + words(b));
    }
}

// ---------------------------------------------------------------------------
// Normalization does not change the accepted language
// ---------------------------------------------------------------------------
/// The two trees accept exactly the same token sequences.
pub open spec fn lang_equiv(t1: Node, t2: Node) -> bool {
    forall|s: Seq<Seq<char>>|
        #![trigger crate::tree::matches(t1, s)]
        #![trigger crate::tree::matches(t2, s)]
        crate::tree::matches(t1, s) <==> crate::tree::matches(t2, s)
}

/// The two rows accept exactly the same token sequences.
pub open spec fn row_equiv(a: Seq<Node>, b: Seq<Node>) -> bool {
    forall|s: Seq<Seq<char>>|
        #![trigger cat_matches(a, s)]
        #![trigger cat_matches(b, s)]
        cat_matches(a, s) <==> cat_matches(b, s)
}

/// A one-literal row accepts exactly the literal's words.
proof fn lemma_lit_row(x: Seq<char>, u: Seq<Seq<char>>)
    ensures
        cat_matches(seq![Node::Lit(x)], u) <==> u == words(x),
{
    lemma_cat_single(Node::Lit(x), u);
}

/// Rows whose members accept the same languages accept the same language.
proof fn lemma_row_congruence(a: Seq<Node>, b: Seq<Node>)
    requires
        a.len() == b.len(),
        forall|i: int| 0 <= i < a.len() ==> lang_equiv(#[trigger] a[i], #[trigger] b[i]),
    ensures
        row_equiv(a, b),
    decreases a.len(),
{
    if a.len() == 0 {
    } else {
        assert(forall|i: int|
            0 <= i < a.drop_first().len() ==> lang_equiv(
                #[trigger] a.drop_first()[i],
                #[trigger] b.drop_first()[i],
            )) by {
            assert(forall|i: int|
                0 <= i < a.drop_first().len() ==> a.drop_first()[i] == a[i + 1] && b.drop_first()[
                    i] == b[i + 1]);
        }
        lemma_row_congruence(a.drop_first(), b.drop_first());
        assert forall|s: Seq<Seq<char>>|
            #![trigger cat_matches(a, s)]
            #![trigger cat_matches(b, s)]
            cat_matches(a, s) <==> cat_matches(b, s) by {
            if cat_matches(a, s) {
                let (u, v) = choose|u: Seq<Seq<char>>, v: Seq<Seq<char>>|
                    #![trigger tok_split(u, v)]
                    (tok_split(u, v) && s == u + v && crate::tree::matches(a[0], u)
                        && cat_matches(a.drop_first(), v));
                assert(lang_equiv(a[0], b[0]));
                assert(crate::tree::matches(b[0], u));
                assert(cat_matches(b.drop_first(), v));
                assert(cat_matches(b, s));
            }
            if cat_matches(b, s) {
                let (u, v) = choose|u: Seq<Seq<char>>, v: Seq<Seq<char>>|
                    #![trigger tok_split(u, v)]
                    (tok_split(u, v) && s == u + v && crate::tree::matches(b[0], u)
                        && cat_matches(b.drop_first(), v));
                assert(lang_equiv(a[0], b[0]));
                assert(crate::tree::matches(a[0], u));
                assert(cat_matches(a.drop_first(), v));
                assert(cat_matches(a, s));
            }
        }
    }
}

/// Splicing nested sequences into the surrounding row keeps the language.
proof fn lemma_splice_lang(s: Seq<Node>)
    ensures
        row_equiv(splice(s), s),
    decreases s.len(),
{
    if s.len() == 0 {
    } else {
        lemma_splice_lang(s.drop_first());
        let head: Seq<Node> = match s[0] {
            Node::Cat(xs) => xs,
            _ => seq![s[0]],
        };
        assert forall|inp: Seq<Seq<char>>|
            #![trigger cat_matches(splice(s), inp)]
            #![trigger cat_matches(s, inp)]
            cat_matches(splice(s), inp) <==> cat_matches(s, inp) by {
            let single = seq![s[0]];
            lemma_cat_concat(head, splice(s.drop_first()), inp);
            lemma_cat_concat(single, s.drop_first(), inp);
            assert(single + s.drop_first() =~= s);
            assert(splice(s) == head + splice(s.drop_first()));
            if cat_matches(splice(s), inp) {
                let (u, v) = choose|u: Seq<Seq<char>>, v: Seq<Seq<char>>|
                    #[trigger] splits_step(head, splice(s.drop_first()), inp, u, v);
                assert(cat_matches(head, u));
                match s[0] {
                    Node::Cat(xs) => {
                        assert(crate::tree::matches(s[0], u));
                    },
                    _ => {},
                }
                lemma_cat_single(s[0], u);
                assert(cat_matches(single, u));
                assert(cat_matches(s.drop_first(), v));
                assert(splits_step(single, s.drop_first(), inp, u, v));
                assert(cat_matches(single + s.drop_first(), inp));
            }
            if cat_matches(s, inp) {
                assert(cat_matches(single + s.drop_first(), inp));
                let (u, v) = choose|u: Seq<Seq<char>>, v: Seq<Seq<char>>|
                    #[trigger] splits_step(single, s.drop_first(), inp, u, v);
                lemma_cat_single(s[0], u);
                assert(crate::tree::matches(s[0], u));
                match s[0] {
                    Node::Cat(xs) => {
                        assert(cat_matches(xs, u));
                        assert(cat_matches(head, u));
                    },
                    _ => {
                        lemma_cat_single(s[0], u);
                        assert(cat_matches(head, u));
                    },
                }
                assert(cat_matches(splice(s.drop_first()), v));
                assert(splits_step(head, splice(s.drop_first()), inp, u, v));
                assert(cat_matches(head + splice(s.drop_first()), inp));
            }
        }
    }
}

/// Merging adjacent literals keeps the language.
proof fn lemma_merge_lang(s: Seq<Node>)
    ensures
        row_equiv(merge_lits(s), s),
    decreases s.len(),
{
    if s.len() <= 1 {
    } else {
        match (s[0], s[1]) {
            (Node::Lit(a), Node::Lit(b)) => {
                let joined = Node::Lit(a + seq![' '] + b);
                let merged = seq![joined] + s.skip(2);
                lemma_merge_lang(merged);
                lemma_words_concat(a, b);
                assert forall|inp: Seq<Seq<char>>|
                    #![trigger cat_matches(merged, inp)]
                    #![trigger cat_matches(s, inp)]
                    cat_matches(merged, inp) <==> cat_matches(s, inp) by {
                    let jrow = seq![joined];
                    let two = seq![s[0], s[1]];
                    lemma_cat_concat(jrow, s.skip(2), inp);
                    lemma_cat_concat(two, s.skip(2), inp);
                    assert(two + s.skip(2) =~= s);
                    if cat_matches(merged, inp) {
                        let (u, v) = choose|u: Seq<Seq<char>>, v: Seq<Seq<char>>|
                            #[trigger] splits_step(jrow, s.skip(2), inp, u, v);
                        lemma_lit_row(a + seq![' '] + b, u);
                        assert(u == words(a) + words(b));
                        lemma_two_lit_row(a, b, u);
                        assert(splits_step(two, s.skip(2), inp, u, v));
                        assert(cat_matches(two + s.skip(2), inp));
                    }
                    if cat_matches(s, inp) {
                        assert(cat_matches(two + s.skip(2), inp));
                        let (u, v) = choose|u: Seq<Seq<char>>, v: Seq<Seq<char>>|
                            #[trigger] splits_step(two, s.skip(2), inp, u, v);
                        lemma_two_lit_row(a, b, u);
                        assert(u == words(a) + words(b));
                        lemma_lit_row(a + seq![' '] + b, u);
                        assert(splits_step(jrow, s.skip(2), inp, u, v));
                        assert(cat_matches(jrow + s.skip(2), inp));
                    }
                }
                assert forall|inp: Seq<Seq<char>>|
                    #![trigger cat_matches(merge_lits(s), inp)]
                    #![trigger cat_matches(s, inp)]
                    cat_matches(merge_lits(s), inp) <==> cat_matches(s, inp) by {
                    assert(cat_matches(merge_lits(merged), inp) <==> cat_matches(merged, inp));
                    assert(cat_matches(merged, inp) <==> cat_matches(s, inp));
                }
            },
            _ => {
                lemma_merge_lang(s.drop_first());
                let r = seq![s[0]] + merge_lits(s.drop_first());
                assert(merge_lits(s) == r);
                assert forall|inp: Seq<Seq<char>>|
                    #![trigger cat_matches(merge_lits(s), inp)]
                    #![trigger cat_matches(s, inp)]
                    cat_matches(merge_lits(s), inp) <==> cat_matches(s, inp) by {
                    let single = seq![s[0]];
                    lemma_cat_concat(single, merge_lits(s.drop_first()), inp);
                    lemma_cat_concat(single, s.drop_first(), inp);
                    assert(single + s.drop_first() =~= s);
                    if cat_matches(r, inp) {
                        let (u, v) = choose|u: Seq<Seq<char>>, v: Seq<Seq<char>>|
                            #[trigger] splits_step(single, merge_lits(s.drop_first()), inp, u, v);
                        assert(cat_matches(s.drop_first(), v));
                        assert(splits_step(single, s.drop_first(), inp, u, v));
                        assert(cat_matches(single + s.drop_first(), inp));
                    }
                    if cat_matches(s, inp) {
                        assert(cat_matches(single + s.drop_first(), inp));
                        let (u, v) = choose|u: Seq<Seq<char>>, v: Seq<Seq<char>>|
                            #[trigger] splits_step(single, s.drop_first(), inp, u, v);
                        assert(cat_matches(merge_lits(s.drop_first()), v));
                        assert(splits_step(single, merge_lits(s.drop_first()), inp, u, v));
                        assert(cat_matches(single + merge_lits(s.drop_first()), inp));
                    }
                }
            },
        }
    }
}

/// A row of the two literals accepts exactly their words, appended.
proof fn lemma_two_lit_row(a: Seq<char>, b: Seq<char>, u: Seq<Seq<char>>)
    ensures
        cat_matches(seq![Node::Lit(a), Node::Lit(b)], u) <==> u == words(a) + words(b),
{
    let row = seq![Node::Lit(a), Node::Lit(b)];
    assert(row.drop_first() =~= seq![Node::Lit(b)]);
    if u == words(a) + words(b) {
        lemma_lit_row(b, words(b));
        assert(tok_split(words(a), words(b)));
        assert(crate::tree::matches(row[0], words(a)));
        assert(cat_matches(row.drop_first(), words(b)));
        assert(cat_matches(row, u));
    }
    if cat_matches(row, u) {
        let (x, y) = choose|x: Seq<Seq<char>>, y: Seq<Seq<char>>|
            #![trigger tok_split(x, y)]
            (tok_split(x, y) && u == x + y && crate::tree::matches(row[0], x) && cat_matches(
                row.drop_first(),
                y,
            ));
        lemma_lit_row(b, y);
        assert(x == words(a));
        assert(y == words(b));
    }
}

proof fn lemma_rep_rest_cong(b1: Node, b2: Node, sept: Seq<Seq<char>>, k: nat, s: Seq<Seq<char>>)
    requires
        lang_equiv(b1, b2),
    ensures
        crate::tree::rep_rest(b1, sept, k, s) <==> crate::tree::rep_rest(b2, sept, k, s),
    decreases k,
{
    if k > 0 {
        if crate::tree::rep_rest(b1, sept, k, s) {
            let (u, v) = choose|u: Seq<Seq<char>>, v: Seq<Seq<char>>|
                #![trigger tok_split(u, v)]
                (tok_split(u, v) && s == sept + u + v && crate::tree::matches(b1, u)
                    && crate::tree::rep_rest(b1, sept, (k - 1) as nat, v));
            lemma_rep_rest_cong(b1, b2, sept, (k - 1) as nat, v);
            assert(crate::tree::matches(b2, u));
            assert(crate::tree::rep_rest(b2, sept, k, s));
        }
        if crate::tree::rep_rest(b2, sept, k, s) {
            let (u, v) = choose|u: Seq<Seq<char>>, v: Seq<Seq<char>>|
                #![trigger tok_split(u, v)]
                (tok_split(u, v) && s == sept + u + v && crate::tree::matches(b2, u)
                    && crate::tree::rep_rest(b2, sept, (k - 1) as nat, v));
            lemma_rep_rest_cong(b1, b2, sept, (k - 1) as nat, v);
            assert(crate::tree::matches(b1, u));
            assert(crate::tree::rep_rest(b1, sept, k, s));
        }
    }
}

proof fn lemma_rep_cong(b1: Node, b2: Node, sept: Seq<Seq<char>>, n: nat, s: Seq<Seq<char>>)
    requires
        lang_equiv(b1, b2),
    ensures
        crate::tree::rep_matches(b1, sept, n, s) <==> crate::tree::rep_matches(b2, sept, n, s),
{
    if n > 0 {
        if crate::tree::rep_matches(b1, sept, n, s) {
            let (u, v) = choose|u: Seq<Seq<char>>, v: Seq<Seq<char>>|
                #![trigger tok_split(u, v)]
                (tok_split(u, v) && s == u + v && crate::tree::matches(b1, u)
                    && crate::tree::rep_rest(b1, sept, (n - 1) as nat, v));
            lemma_rep_rest_cong(b1, b2, sept, (n - 1) as nat, v);
            assert(crate::tree::matches(b2, u));
            assert(crate::tree::rep_matches(b2, sept, n, s));
        }
        if crate::tree::rep_matches(b2, sept, n, s) {
            let (u, v) = choose|u: Seq<Seq<char>>, v: Seq<Seq<char>>|
                #![trigger tok_split(u, v)]
                (tok_split(u, v) && s == u + v && crate::tree::matches(b2, u)
                    && crate::tree::rep_rest(b2, sept, (n - 1) as nat, v));
            lemma_rep_rest_cong(b1, b2, sept, (n - 1) as nat, v);
            assert(crate::tree::matches(b1, u));
            assert(crate::tree::rep_matches(b1, sept, n, s));
        }
    }
}

proof fn lemma_norm_seq_lang(s: Seq<Node>)
    ensures
        norm_seq(s).len() == s.len(),
        forall|i: int| 0 <= i < s.len() ==> lang_equiv(#[trigger] norm_seq(s)[i], s[i]),
    decreases s, 1nat,
{
    lemma_norm_seq_shape(s);
    if s.len() > 0 {
        lemma_norm_lang(s[0]);
        lemma_norm_seq_lang(s.drop_first());
        assert forall|i: int| 0 <= i < s.len() implies lang_equiv(
            #[trigger] norm_seq(s)[i],
            s[i],
        ) by {
            assert(norm_seq(s)[i] == norm(s[i]));
            if i > 0 {
                assert(s.drop_first()[i - 1] == s[i]);
                assert(norm_seq(s.drop_first())[i - 1] == norm(s[i]));
            }
        }
    }
}

/// Normalization does not change the accepted language.
pub proof fn lemma_norm_lang(t: Node)
    ensures
        lang_equiv(norm(t), t),
    decreases t, 0nat,
{
    match t {
        Node::Lit(_) => {},
        Node::Cap { .. } => {},
        Node::Opt(b) => {
            lemma_norm_lang(*b);
            assert forall|s: Seq<Seq<char>>|
                #![trigger crate::tree::matches(norm(t), s)]
                #![trigger crate::tree::matches(t, s)]
                crate::tree::matches(norm(t), s) <==> crate::tree::matches(t, s) by {
                assert(crate::tree::matches(norm(t), s) == (s.len() == 0
                    || crate::tree::matches(norm(*b), s)));
                assert(crate::tree::matches(t, s) == (s.len() == 0 || crate::tree::matches(
                    *b,
                    s,
                )));
            }
        },
        Node::Rep { body, sep, min } => {
            lemma_norm_lang(*body);
            let sept = crate::tree::sep_words(sep);
            assert forall|s: Seq<Seq<char>>|
                #![trigger crate::tree::matches(norm(t), s)]
                #![trigger crate::tree::matches(t, s)]
                crate::tree::matches(norm(t), s) <==> crate::tree::matches(t, s) by {
                if crate::tree::matches(norm(t), s) {
                    let n = choose|n: nat|
                        #![trigger crate::tree::rep_count(n)]
                        (crate::tree::rep_count(n) && n >= min && crate::tree::rep_matches(
                            norm(*body),
                            sept,
                            n,
                            s,
                        ));
                    lemma_rep_cong(norm(*body), *body, sept, n, s);
                    assert(crate::tree::rep_matches(*body, sept, n, s));
                    assert(crate::tree::matches(t, s));
                }
                if crate::tree::matches(t, s) {
                    let n = choose|n: nat|
                        #![trigger crate::tree::rep_count(n)]
                        (crate::tree::rep_count(n) && n >= min && crate::tree::rep_matches(
                            *body,
                            sept,
                            n,
                            s,
                        ));
                    lemma_rep_cong(norm(*body), *body, sept, n, s);
                    assert(crate::tree::rep_matches(norm(*body), sept, n, s));
                    assert(crate::tree::matches(norm(t), s));
                }
            }
        },
        Node::Alt(bs) => {
            lemma_norm_seq_lang(bs);
            let nb = norm_seq(bs);
            assert forall|s: Seq<Seq<char>>|
                #![trigger crate::tree::matches(norm(t), s)]
                #![trigger crate::tree::matches(t, s)]
                crate::tree::matches(norm(t), s) <==> crate::tree::matches(t, s) by {
                if nb.len() == 1 {
                    assert(norm(t) == nb[0]);
                    assert(lang_equiv(nb[0], bs[0]));
                    if crate::tree::matches(nb[0], s) {
                        assert(crate::tree::matches(bs[0], s));
                        assert(alt_pick(0));
                        assert(crate::tree::matches(t, s));
                    }
                    if crate::tree::matches(t, s) {
                        let k = choose|k: int|
                            #![trigger alt_pick(k)]
                            (alt_pick(k) && 0 <= k < bs.len() && crate::tree::matches(bs[k], s));
                        assert(k == 0);
                        assert(crate::tree::matches(nb[0], s));
                    }
                } else {
                    if crate::tree::matches(norm(t), s) {
                        let k = choose|k: int|
                            #![trigger alt_pick(k)]
                            (alt_pick(k) && 0 <= k < nb.len() && crate::tree::matches(nb[k], s));
                        assert(lang_equiv(nb[k], bs[k]));
                        assert(crate::tree::matches(bs[k], s));
                        assert(crate::tree::matches(t, s));
                    }
                    if crate::tree::matches(t, s) {
                        let k = choose|k: int|
                            #![trigger alt_pick(k)]
                            (alt_pick(k) && 0 <= k < bs.len() && crate::tree::matches(bs[k], s));
                        assert(lang_equiv(nb[k], bs[k]));
                        assert(crate::tree::matches(nb[k], s));
                        assert(crate::tree::matches(norm(t), s));
                    }
                }
            }
        },
        Node::Cat(cs) => {
            lemma_norm_seq_lang(cs);
            let ns = norm_seq(cs);
            lemma_row_congruence(ns, cs);
            lemma_splice_lang(ns);
            lemma_merge_lang(splice(ns));
            let nc = merge_lits(splice(ns));
            assert forall|s: Seq<Seq<char>>|
                #![trigger crate::tree::matches(norm(t), s)]
                #![trigger crate::tree::matches(t, s)]
                crate::tree::matches(norm(t), s) <==> crate::tree::matches(t, s) by {
                assert(cat_matches(nc, s) <==> cat_matches(splice(ns), s));
                assert(cat_matches(splice(ns), s) <==> cat_matches(ns, s));
                assert(cat_matches(ns, s) <==> cat_matches(cs, s));
                if nc.len() == 1 {
                    assert(norm(t) == nc[0]);
                    lemma_cat_single(nc[0], s);
                    assert(seq![nc[0]] =~= nc);
                    assert(crate::tree::matches(nc[0], s) <==> cat_matches(nc, s));
                } else {
                    assert(crate::tree::matches(norm(t), s) == cat_matches(nc, s));
                }
                assert(crate::tree::matches(t, s) == cat_matches(cs, s));
            }
        },
    }
}

// ---------------------------------------------------------------------------
// Internal-removal removes exactly the internal alternatives
// ---------------------------------------------------------------------------
/// Some alternative of the rule set accepts `s`.
pub open spec fn ruleset_accepts(rs: Seq<Seq<Node>>, s: Seq<Seq<char>>) -> bool {
    exists|k: int| 0 <= k < rs.len() && cat_matches(#[trigger] rs[k], s)
}

/// The internal-removal pass drops exactly the alternatives that follow
/// the internal convention: what the visible rule set accepts is what
/// some non-internal alternative of the full rule set accepts.
pub proof fn lemma_remove_internal_exact(rs: Seq<Seq<Node>>, s: Seq<Seq<char>>)
    ensures
        ruleset_accepts(spec_remove_internal(rs), s) <==> exists|k: int|
            0 <= k < rs.len() && !rule_is_internal(#[trigger] rs[k]) && cat_matches(rs[k], s),
    decreases rs.len(),
{
    if rs.len() == 0 {
    } else {
        lemma_remove_internal_exact(rs.drop_first(), s);
        let rest = spec_remove_internal(rs.drop_first());
        if rule_is_internal(rs[0]) {
            assert forall|k: int|
                0 <= k < rs.len() && !rule_is_internal(#[trigger] rs[k]) && cat_matches(
                    rs[k],
                    s,
                ) implies ruleset_accepts(spec_remove_internal(rs), s) by {
                assert(k > 0);
                assert(rs.drop_first()[k - 1] == rs[k]);
                assert(ruleset_accepts(rest, s));
            }
            if ruleset_accepts(spec_remove_internal(rs), s) {
                let k = choose|k: int|
                    0 <= k < rest.len() && cat_matches(#[trigger] rest[k], s);
                let k0 = choose|k0: int|
                    0 <= k0 < rs.drop_first().len() && !rule_is_internal(
                        #[trigger] rs.drop_first()[k0],
                    ) && cat_matches(rs.drop_first()[k0], s);
                assert(rs.drop_first()[k0] == rs[k0 + 1]);
            }
        } else {
            let full = seq![rs[0]] + rest;
            assert(spec_remove_internal(rs) == full);
            if cat_matches(rs[0], s) {
                assert(full[0] == rs[0]);
                assert(ruleset_accepts(full, s));
            }
            assert forall|k: int|
                0 <= k < rs.len() && !rule_is_internal(#[trigger] rs[k]) && cat_matches(
                    rs[k],
                    s,
                ) implies ruleset_accepts(full, s) by {
                if k == 0 {
                    assert(full[0] == rs[0]);
                } else {
                    assert(rs.drop_first()[k - 1] == rs[k]);
                    assert(ruleset_accepts(rest, s));
                    let j = choose|j: int|
                        0 <= j < rest.len() && cat_matches(#[trigger] rest[j], s);
                    assert(full[j + 1] == rest[j]);
                }
            }
            if ruleset_accepts(full, s) {
                let k = choose|k: int| 0 <= k < full.len() && cat_matches(#[trigger] full[k], s);
                if k == 0 {
                    assert(rs[0] == full[0]);
                } else {
                    assert(full[k] == rest[k - 1]);
                    assert(ruleset_accepts(rest, s));
                    let k0 = choose|k0: int|
                        0 <= k0 < rs.drop_first().len() && !rule_is_internal(
                            #[trigger] rs.drop_first()[k0],
                        ) && cat_matches(rs.drop_first()[k0], s);
                    assert(rs.drop_first()[k0] == rs[k0 + 1]);
                }
            }
        }
    }
}

/// Semantic preservation of the whole lowering: the normalized, folded,
/// internal-stripped tree accepts exactly the token sequences that some
/// non-internal alternative of the parsed rule set accepts.
pub proof fn lemma_semantic_preservation(rules: Seq<Seq<Node>>, s: Seq<Seq<char>>)
    ensures
        crate::tree::matches(crate::pipeline::spec_tree(rules), s) <==> exists|k: int|
            0 <= k < rules.len() && !rule_is_internal(#[trigger] rules[k]) && cat_matches(
                rules[k],
                s,
            ),
{
    lemma_norm_lang(spec_fold(spec_remove_internal(rules)));
    lemma_fold_preserves(spec_remove_internal(rules), s);
    lemma_remove_internal_exact(rules, s);
}

} // verus!
