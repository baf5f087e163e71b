//! Lowering of parsed rules into a diagram tree: internal-alternative
//! removal, common-prefix/suffix folding, and normalization.

use vstd::prelude::*;
use crate::tree::{lemma_view_seq, lemma_view_seq_concat, view_seq, Matcher, Node};

verus! {

broadcast use vstd::seq::group_seq_axioms, vstd::std_specs::vec::group_vec_axioms;

// ---------------------------------------------------------------------------
// Spec: internal-alternative removal
// ---------------------------------------------------------------------------
/// A rule is internal when its first matcher is a literal beginning with
/// `@`, the conventional sentinel of private helper alternatives of a
/// rule-based macro.
pub open spec fn rule_is_internal(r: Seq<Node>) -> bool {
    r.len() > 0 && match r[0] {
        Node::Lit(t) => t.len() > 0 && t[0] == '@',
        _ => false,
    }
}

/// The rules that remain visible after the internal-removal pass, in order.
pub open spec fn spec_remove_internal(rs: Seq<Seq<Node>>) -> Seq<Seq<Node>>
    decreases rs.len(),
{
    if rs.len() == 0 {
        Seq::empty()
    } else if rule_is_internal(rs[0]) {
        spec_remove_internal(rs.drop_first())
    } else {
        seq![rs[0]] + spec_remove_internal(rs.drop_first())
    }
}

/// The views of a list of rules, each rule a vector of matchers.
pub open spec fn rule_views(rs: Seq<Vec<Matcher>>) -> Seq<Seq<Node>> {
    Seq::new(rs.len(), |i: int| view_seq(rs[i]@))
}

// ---------------------------------------------------------------------------
// Spec: common-prefix/suffix folding
// ---------------------------------------------------------------------------
/// All rules agree on the matcher at position `j` (counted from the front).
pub open spec fn agree_at(rs: Seq<Seq<Node>>, j: int) -> bool {
    forall|i: int| 0 <= i < rs.len() ==> j < #[trigger] rs[i].len() && rs[i][j] == rs[0][j]
}

/// Length of the common prefix of all rules from position `j` on.
pub open spec fn cpl_from(rs: Seq<Seq<Node>>, j: nat) -> nat
    decreases rs[0].len() - j,
{
    if rs.len() > 0 && j < rs[0].len() && agree_at(rs, j as int) {
        1 + cpl_from(rs, j + 1)
    } else {
        0
    }
}

/// Length of the longest common prefix of all rules.
pub open spec fn cpl(rs: Seq<Seq<Node>>) -> nat {
    cpl_from(rs, 0)
}

/// All rules agree on the matcher `j` positions from their back ends, and
/// that matcher lies strictly after the common prefix of length `p`.
pub open spec fn back_agree_at(rs: Seq<Seq<Node>>, p: nat, j: int) -> bool {
    forall|i: int| 0 <= i < rs.len() ==> p + j < #[trigger] rs[i].len() && rs[i][rs[i].len() - 1
        - j] == rs[0][rs[0].len() - 1 - j]
}

/// Length of the common suffix from back position `j` on, kept disjoint
/// from the already-folded common prefix of length `p`.
pub open spec fn csl_from(rs: Seq<Seq<Node>>, p: nat, j: nat) -> nat
    decreases rs[0].len() - j,
{
    if rs.len() > 0 && j < rs[0].len() && back_agree_at(rs, p, j as int) {
        1 + csl_from(rs, p, j + 1)
    } else {
        0
    }
}

/// Length of the longest common suffix of all rules that does not overlap
/// the common prefix of length `p`.
pub open spec fn csl(rs: Seq<Seq<Node>>, p: nat) -> nat {
    csl_from(rs, p, 0)
}

/// Folding: the longest run of matchers shared by every rule at the front,
/// and then at the back, moves out of the branching; only the divergent
/// middles stay under the alternation.
pub open spec fn spec_fold(rs: Seq<Seq<Node>>) -> Node {
    if rs.len() == 0 {
        Node::Alt(Seq::empty())
    } else {
        let p = cpl(rs);
        let q = csl(rs, p);
        let pre = rs[0].take(p as int);
        let suf = rs[0].skip(rs[0].len() - q);
        let mids = Seq::new(
            rs.len(),
            |i: int| Node::Cat(rs[i].subrange(p as int, rs[i].len() - q)),
        );
        Node::Cat(pre + seq![Node::Alt(mids)] + suf)
    }
}

// ---------------------------------------------------------------------------
// Spec: normalization
// ---------------------------------------------------------------------------
/// Inline the children of sequence nodes one level into the surrounding
/// list.
pub open spec fn splice(s: Seq<Node>) -> Seq<Node>
    decreases s.len(),
{
    if s.len() == 0 {
        Seq::empty()
    } else {
        (match s[0] {
            Node::Cat(xs) => xs,
            _ => seq![s[0]],
        }) + splice(s.drop_first())
    }
}

/// Join each run of adjacent literals into one literal whose text is the
/// two texts separated by a single space.
pub open spec fn merge_lits(s: Seq<Node>) -> Seq<Node>
    decreases s.len(),
{
    if s.len() <= 1 {
        s
    } else {
        match (s[0], s[1]) {
            (Node::Lit(a), Node::Lit(b)) => merge_lits(
                seq![Node::Lit(a + seq![' '] + b)] + s.skip(2),
            ),
            _ => seq![s[0]] + merge_lits(s.drop_first()),
        }
    }
}

/// Normalization: collapse singleton alternations and sequences, flatten
/// nested sequences, and merge adjacent literals, bottom-up.
pub open spec fn norm(t: Node) -> Node
    decreases t, 0nat,
{
    match t {
        Node::Lit(x) => Node::Lit(x),
        Node::Cap { name, kind } => Node::Cap { name, kind },
        Node::Opt(b) => Node::Opt(Box::new(norm(*b))),
        Node::Rep { body, sep, min } => Node::Rep { body: Box::new(norm(*body)), sep, min },
        Node::Alt(bs) => {
            let nb = norm_seq(bs);
            if nb.len() == 1 {
                nb[0]
            } else {
                Node::Alt(nb)
            }
        },
        Node::Cat(cs) => {
            let nc = merge_lits(splice(norm_seq(cs)));
            if nc.len() == 1 {
                nc[0]
            } else {
                Node::Cat(nc)
            }
        },
    }
}

/// `norm` applied to every element of a list.
pub open spec fn norm_seq(s: Seq<Node>) -> Seq<Node>
    decreases s, 0nat,
{
    if s.len() == 0 {
        Seq::empty()
    } else {
        seq![norm(s[0])] + norm_seq(s.drop_first())
    }
}

// ---------------------------------------------------------------------------
// Exec: internal-alternative removal
// ---------------------------------------------------------------------------
/// Whether this rule follows the internal-only convention and is dropped
/// from the visible grammar.
pub fn is_internal_rule(r: &Vec<Matcher>) -> (b: bool)
    ensures
        b == rule_is_internal(view_seq(r@)),
{
    proof {
        lemma_view_seq(r@);
    }
    if r.len() == 0 {
        return false;
    }
    match &r[0] {
        Matcher::Literal(t) => {
            let n = t.as_str().unicode_len();
            if n == 0 {
                false
            } else {
                t.as_str().get_char(0) == '@'
            }
        },
        _ => false,
    }
}

/// Internal-removal pass: drop every rule that follows the internal-only
/// convention, keeping the declaration order of the rest.
pub fn remove_internal(rules: Vec<Vec<Matcher>>) -> (r: Vec<Vec<Matcher>>)
    ensures
        rule_views(r@) == spec_remove_internal(rule_views(rules@)),
    decreases rules@,
{
    let mut rules = rules;
    if rules.len() == 0 {
        assert(rule_views(rules@) =~= Seq::<Seq<Node>>::empty());
        assert(spec_remove_internal(rule_views(rules@)) =~= Seq::<Seq<Node>>::empty());
        rules
    } else {
        let ghost orig = rules@;
        let head = rules.remove(0);
        let internal = is_internal_rule(&head);
        let mut rest = remove_internal(rules);
        proof {
            assert(rule_views(orig).drop_first() =~= rule_views(orig.drop_first()));
            assert(rule_views(orig)[0] == view_seq(head@));
        }
        if internal {
            rest
        } else {
            rest.insert(0, head);
            proof {
                assert(rule_views(rest@) =~= seq![view_seq(head@)] + rule_views(
                    rest@.drop_first(),
                ));
            }
            rest
        }
    }
}

// ---------------------------------------------------------------------------
// Exec: common-prefix/suffix folding
// ---------------------------------------------------------------------------
proof fn lemma_cpl_value(rs: Seq<Seq<Node>>, j: nat, p: nat)
    requires
        rs.len() > 0,
        j <= p <= rs[0].len(),
        forall|k: int| j <= k < p ==> agree_at(rs, k),
        p == rs[0].len() || !agree_at(rs, p as int),
    ensures
        cpl_from(rs, j) == p - j,
    decreases p - j,
{
    if j < p {
        lemma_cpl_value(rs, j + 1, p);
    }
}

proof fn lemma_csl_value(rs: Seq<Seq<Node>>, p: nat, j: nat, q: nat)
    requires
        rs.len() > 0,
        j <= q,
        q <= rs[0].len(),
        forall|k: int| j <= k < q ==> back_agree_at(rs, p, k),
        !back_agree_at(rs, p, q as int),
    ensures
        csl_from(rs, p, j) == q - j,
    decreases q - j,
{
    if j < q {
        assert(back_agree_at(rs, p, j as int));
        assert(p + j < rs[0].len());
        lemma_csl_value(rs, p, j + 1, q);
    }
}

/// Whether every rule has a matcher at position `j` and all those matchers
/// are structurally equal.
fn agree_exec(rules: &Vec<Vec<Matcher>>, j: usize) -> (b: bool)
    requires
        rules@.len() > 0,
    ensures
        b == agree_at(rule_views(rules@), j as int),
{
    let ghost rv = rule_views(rules@);
    let mut i: usize = 0;
    while i < rules.len()
        invariant
            0 <= i <= rules@.len(),
            rules@.len() > 0,
            rv == rule_views(rules@),
            forall|k: int| 0 <= k < i ==> j < #[trigger] rv[k].len() && rv[k][j as int] == rv[0][j as int],
        decreases rules@.len() - i,
    {
        proof {
            lemma_view_seq(rules@[i as int]@);
            lemma_view_seq(rules@[0]@);
            assert(rv[i as int].len() == rules@[i as int]@.len());
            assert(rv[0].len() == rules@[0]@.len());
        }
        if j >= rules[i].len() {
            proof {
                assert(!(j < rv[i as int].len()));
                assert(!agree_at(rv, j as int));
            }
            return false;
        }
        proof {
            if i > 0 {
                assert(j < rv[0].len());
            }
        }
        if !matcher_eq(&rules[i][j], &rules[0][j]) {
            proof {
                assert(rv[i as int][j as int] == rules@[i as int]@[j as int]@);
                assert(rv[0][j as int] == rules@[0]@[j as int]@);
                assert(!agree_at(rv, j as int));
            }
            return false;
        }
        proof {
            assert(rv[i as int][j as int] == rules@[i as int]@[j as int]@);
            assert(rv[0][j as int] == rules@[0]@[j as int]@);
        }
        i += 1;
    }
    true
}

/// Whether every rule has a matcher `j` positions from its back end,
/// outside the folded prefix of length `p`, and all those matchers are
/// structurally equal.
fn back_agree_exec(rules: &Vec<Vec<Matcher>>, p: usize, j: usize) -> (b: bool)
    requires
        rules@.len() > 0,
    ensures
        b == back_agree_at(rule_views(rules@), p as nat, j as int),
{
    let ghost rv = rule_views(rules@);
    let mut i: usize = 0;
    while i < rules.len()
        invariant
            0 <= i <= rules@.len(),
            rules@.len() > 0,
            rv == rule_views(rules@),
            forall|k: int| 0 <= k < i ==> p + j < #[trigger] rv[k].len() && rv[k][rv[k].len() - 1
                - j] == rv[0][rv[0].len() - 1 - j],
        decreases rules@.len() - i,
    {
        proof {
            lemma_view_seq(rules@[i as int]@);
            lemma_view_seq(rules@[0]@);
            assert(rv[i as int].len() == rules@[i as int]@.len());
            assert(rv[0].len() == rules@[0]@.len());
        }
        if p >= rules[i].len() || j >= rules[i].len() - p {
            proof {
                assert(!(p + j < rv[i as int].len()));
                assert(!back_agree_at(rv, p as nat, j as int));
            }
            return false;
        }
        proof {
            if i > 0 {
                assert(p + j < rv[0].len());
            }
            assert(j < rules@[0]@.len());
        }
        if !matcher_eq(&rules[i][rules[i].len() - 1 - j], &rules[0][rules[0].len() - 1 - j]) {
            proof {
                assert(rv[i as int][rv[i as int].len() - 1 - j] == rules@[i as int]@[rules@[
                    i as int]@.len() - 1 - j]@);
                assert(rv[0][rv[0].len() - 1 - j] == rules@[0]@[rules@[0]@.len() - 1 - j]@);
                assert(!back_agree_at(rv, p as nat, j as int));
            }
            return false;
        }
        i += 1;
    }
    true
}

/// Common-tail/head folding: the longest run of matchers shared by every
/// rule at the front, then at the back, moves out of the branching, and
/// only the divergent middles stay under the alternation. See `spec_fold`.
pub fn fold_rules(rules: Vec<Vec<Matcher>>) -> (r: Matcher)
    ensures
        r@ == spec_fold(rule_views(rules@)),
{
    let ghost rv = rule_views(rules@);
    if rules.len() == 0 {
        let out: Vec<Matcher> = Vec::new();
        proof {
            assert(view_seq(out@) =~= Seq::<Node>::empty());
        }
        return Matcher::Alternation(out);
    }
    proof {
        lemma_view_seq(rules@[0]@);
        assert(rv[0].len() == rules@[0]@.len());
    }
    // longest common prefix
    let mut p: usize = 0;
    let mut done = false;
    while !done
        invariant
            rules@.len() > 0,
            rv == rule_views(rules@),
            0 <= p <= rv[0].len(),
            rv[0].len() == rules@[0]@.len(),
            forall|k: int| 0 <= k < p ==> agree_at(rv, k),
            done ==> (p == rv[0].len() || !agree_at(rv, p as int)),
        decreases (if done { 0int } else { 1int }), rv[0].len() - p,
    {
        if p < rules[0].len() {
            if agree_exec(&rules, p) {
                p += 1;
            } else {
                done = true;
            }
        } else {
            done = true;
        }
    }
    proof {
        lemma_cpl_value(rv, 0, p as nat);
    }
    // longest common suffix, disjoint from the prefix
    let mut q: usize = 0;
    let mut done2 = false;
    while !done2
        invariant
            rules@.len() > 0,
            rv == rule_views(rules@),
            0 <= q <= rv[0].len(),
            p <= rv[0].len(),
            rv[0].len() == rules@[0]@.len(),
            forall|k: int| 0 <= k < q ==> back_agree_at(rv, p as nat, k),
            done2 ==> !back_agree_at(rv, p as nat, q as int),
        decreases (if done2 { 0int } else { 1int }), rv[0].len() + 1 - q,
    {
        if back_agree_exec(&rules, p, q) {
            let len0 = rules[0].len();
            proof {
                assert(back_agree_at(rv, p as nat, q as int));
                assert(p + q < rv[0].len());
                assert(rv[0].len() == len0);
            }
            q += 1;
        } else {
            done2 = true;
        }
    }
    proof {
        lemma_csl_value(rv, p as nat, 0, q as nat);
        assert(cpl(rv) == p as nat);
        assert(csl(rv, p as nat) == q as nat);
        if q > 0 {
            assert(back_agree_at(rv, p as nat, q - 1));
            assert(p + q - 1 < rv[0].len());
        }
        assert(p + q <= rv[0].len());
    }
    // split every rule into prefix, middle, suffix
    let ghost allr = rules@;
    let total = rules.len();
    proof {
        assert(allr.len() == total);
    }
    let mut rules = rules;
    let mut mids: Vec<Matcher> = Vec::new();
    let mut prefix: Vec<Matcher> = Vec::new();
    let mut suffix: Vec<Matcher> = Vec::new();
    let mut idx: usize = 0;
    while rules.len() > 0
        invariant
            rv == rule_views(allr),
            rv.len() == allr.len(),
            allr.len() == total,
            0 <= idx <= allr.len(),
            rules@ =~= allr.skip(idx as int),
            rv.len() > 0,
            p + q <= rv[0].len(),
            forall|k: int| 0 <= k < p ==> agree_at(rv, k),
            forall|k: int| 0 <= k < q ==> back_agree_at(rv, p as nat, k),
            mids@.len() == idx,
            forall|i: int| 0 <= i < idx ==> view_seq(mids@)[i] == Node::Cat(
                #[trigger] rv[i].subrange(p as int, rv[i].len() - q),
            ),
            idx > 0 ==> view_seq(prefix@) == rv[0].take(p as int),
            idx > 0 ==> view_seq(suffix@) == rv[0].skip(rv[0].len() - q),
        decreases rules@.len(),
    {
        let mut rule = rules.remove(0);
        let ghost rulev = rv[idx as int];
        proof {
            assert(rule@ == allr[idx as int]@);
            lemma_view_seq(rule@);
            assert(rulev == view_seq(rule@));
            assert(rulev.len() == rule@.len());
            // the folded runs fit inside every rule
            if p > 0 {
                assert(agree_at(rv, p - 1));
                assert(p - 1 < rulev.len());
            }
            if q > 0 {
                assert(back_agree_at(rv, p as nat, q - 1));
                assert(p + q - 1 < rulev.len());
            }
            assert(p + q <= rulev.len());
        }
        let tail = rule.split_off(rule.len() - q);
        let mid = rule.split_off(p);
        proof {
            lemma_view_seq(rule@);
            lemma_view_seq(mid@);
            lemma_view_seq(tail@);
            // agreement: this rule's prefix and suffix equal rule 0's
            assert forall|k: int| 0 <= k < p implies #[trigger] rulev[k] == rv[0][k] by {
                assert(agree_at(rv, k));
            }
            assert forall|k: int| 0 <= k < q implies #[trigger] rulev[rulev.len() - 1 - k] == rv[0][
                rv[0].len() - 1 - k] by {
                assert(back_agree_at(rv, p as nat, k));
            }
            assert(view_seq(rule@).len() == p);
            assert forall|k: int| 0 <= k < p implies view_seq(rule@)[k] == rv[0].take(p as int)[k]
                by {
                assert(view_seq(rule@)[k] == rule@[k]@);
                assert(rule@[k] == allr[idx as int]@[k]);
                assert(rulev[k] == allr[idx as int]@[k]@);
            }
            assert(view_seq(rule@) =~= rv[0].take(p as int));
            assert(view_seq(tail@).len() == q);
            assert forall|k: int| 0 <= k < q implies view_seq(tail@)[k] == rv[0].skip(
                rv[0].len() - q,
            )[k] by {
                let len = rulev.len();
                assert(view_seq(tail@)[k] == tail@[k]@);
                assert(tail@[k] == allr[idx as int]@[len - q + k]);
                assert(rulev[len - q + k] == allr[idx as int]@[len - q + k]@);
                let j = q - 1 - k;
                assert(rulev[rulev.len() - 1 - j] == rv[0][rv[0].len() - 1 - j]);
                assert(rulev.len() - 1 - j == len - q + k);
            }
            assert(view_seq(tail@) =~= rv[0].skip(rv[0].len() - q));
            assert forall|k: int| 0 <= k < view_seq(mid@).len() implies view_seq(mid@)[k]
                == rulev.subrange(p as int, rulev.len() - q)[k] by {
                assert(view_seq(mid@)[k] == mid@[k]@);
                assert(mid@[k] == allr[idx as int]@[p + k]);
                assert(rulev[p + k] == allr[idx as int]@[p + k]@);
            }
            assert(view_seq(mid@) =~= rulev.subrange(p as int, rulev.len() - q));
        }
        let ghost midsv = mids@;
        mids.push(Matcher::Sequence(mid));
        proof {
            lemma_view_seq(midsv);
            lemma_view_seq(mids@);
            assert(view_seq(mids@)[idx as int] == Node::Cat(
                rv[idx as int].subrange(p as int, rv[idx as int].len() - q),
            ));
            assert(forall|i: int| 0 <= i < idx ==> view_seq(mids@)[i] == view_seq(midsv)[i]);
        }
        if idx == 0 {
            prefix = rule;
            suffix = tail;
        }
        idx += 1;
    }
    let ghost midsv = mids@;
    let ghost prev = prefix@;
    let ghost sufv = suffix@;
    let mut out = prefix;
    out.push(Matcher::Alternation(mids));
    let mut suffix = suffix;
    let ghost outv = out@;
    out.append(&mut suffix);
    proof {
        assert(allr.len() > 0);
        assert(idx == allr.len());
        assert(out@ =~= prev + seq![outv[prev.len() as int]] + sufv);
        lemma_view_seq(out@);
        lemma_view_seq(prev);
        lemma_view_seq(sufv);
        lemma_view_seq(midsv);
        let midseq = Seq::new(
            rv.len(),
            |i: int| Node::Cat(rv[i].subrange(p as int, rv[i].len() - q)),
        );
        assert(view_seq(midsv) =~= midseq);
        let goal = rv[0].take(p as int) + seq![Node::Alt(midseq)] + rv[0].skip(rv[0].len() - q);
        assert(view_seq(out@).len() == p + 1 + q);
        assert forall|k: int| 0 <= k < view_seq(out@).len() implies view_seq(out@)[k] == goal[k]
            by {
            assert(view_seq(out@)[k] == out@[k]@);
            if k < p {
                assert(out@[k] == prev[k]);
                assert(view_seq(prev)[k] == prev[k]@);
            } else if k == p {
                assert(out@[k] == outv[prev.len() as int]);
                assert(out@[k]@ == Node::Alt(view_seq(midsv)));
            } else {
                assert(out@[k] == sufv[k - p - 1]);
                assert(view_seq(sufv)[k - p - 1] == sufv[k - p - 1]@);
            }
        }
        assert(view_seq(out@) =~= goal);
    }
    Matcher::Sequence(out)
}

// ---------------------------------------------------------------------------
// Exec: structural equality
// ---------------------------------------------------------------------------
/// Structural equality of two matchers, decided at the view level.
pub fn matcher_eq(a: &Matcher, b: &Matcher) -> (r: bool)
    ensures
        r == (a@ == b@),
    decreases a,
{
    match (a, b) {
        (Matcher::Literal(x), Matcher::Literal(y)) => *x == *y,
        (
            Matcher::Capture { name: n1, kind: k1 },
            Matcher::Capture { name: n2, kind: k2 },
        ) => *n1 == *n2 && *k1 == *k2,
        (Matcher::Sequence(xs), Matcher::Sequence(ys)) => matcher_vec_eq(xs, ys),
        (Matcher::Alternation(xs), Matcher::Alternation(ys)) => matcher_vec_eq(xs, ys),
        (
            Matcher::Repetition { body: b1, separator: s1, min_count: m1 },
            Matcher::Repetition { body: b2, separator: s2, min_count: m2 },
        ) => {
            let sep_eq = match (s1, s2) {
                (Option::Some(x), Option::Some(y)) => *x == *y,
                (Option::None, Option::None) => true,
                _ => false,
            };
            sep_eq && *m1 == *m2 && matcher_eq(b1, b2)
        },
        (Matcher::Optional(x), Matcher::Optional(y)) => matcher_eq(x, y),
        _ => false,
    }
}

/// Pairwise structural equality of two matcher lists.
pub fn matcher_vec_eq(xs: &Vec<Matcher>, ys: &Vec<Matcher>) -> (r: bool)
    ensures
        r == (view_seq(xs@) == view_seq(ys@)),
    decreases xs@,
{
    proof {
        lemma_view_seq(xs@);
        lemma_view_seq(ys@);
    }
    if xs.len() != ys.len() {
        return false;
    }
    let mut i: usize = 0;
    while i < xs.len()
        invariant
            0 <= i <= xs.len(),
            xs.len() == ys.len(),
            forall|j: int| 0 <= j < i ==> xs@[j]@ == ys@[j]@,
            view_seq(xs@).len() == xs@.len(),
            view_seq(ys@).len() == ys@.len(),
            forall|j: int| 0 <= j < xs@.len() ==> view_seq(xs@)[j] == xs@[j]@,
            forall|j: int| 0 <= j < ys@.len() ==> view_seq(ys@)[j] == ys@[j]@,
        decreases xs@.len() - i,
    {
        if !matcher_eq(&xs[i], &ys[i]) {
            assert(view_seq(xs@)[i as int] != view_seq(ys@)[i as int]);
            return false;
        }
        i += 1;
    }
    assert(view_seq(xs@) =~= view_seq(ys@));
    true
}

// ---------------------------------------------------------------------------
// Exec: normalization
// ---------------------------------------------------------------------------
/// Normalization pass over one tree; see `norm` for the statement.
pub fn normalize(m: Matcher) -> (r: Matcher)
    ensures
        r@ == norm(m@),
    decreases m,
{
    match m {
        Matcher::Literal(t) => Matcher::Literal(t),
        Matcher::Capture { name, kind } => Matcher::Capture { name, kind },
        Matcher::Optional(b) => Matcher::Optional(Box::new(normalize(*b))),
        Matcher::Repetition { body, separator, min_count } => Matcher::Repetition {
            body: Box::new(normalize(*body)),
            separator,
            min_count,
        },
        Matcher::Alternation(bs) => {
            let mut nb = normalize_vec(bs);
            proof {
                lemma_view_seq(nb@);
            }
            if nb.len() == 1 {
                nb.remove(0)
            } else {
                Matcher::Alternation(nb)
            }
        },
        Matcher::Sequence(cs) => {
            let nc0 = normalize_vec(cs);
            let nc1 = splice_vec(nc0);
            let mut nc = merge_vec(nc1);
            proof {
                lemma_view_seq(nc@);
            }
            if nc.len() == 1 {
                nc.remove(0)
            } else {
                Matcher::Sequence(nc)
            }
        },
    }
}

/// `normalize` applied to every element of a list, in order.
pub fn normalize_vec(v: Vec<Matcher>) -> (r: Vec<Matcher>)
    ensures
        view_seq(r@) == norm_seq(view_seq(v@)),
    decreases v@,
{
    let ghost orig = v@;
    let mut v = v;
    if v.len() == 0 {
        assert(view_seq(v@) =~= Seq::<Node>::empty());
        assert(norm_seq(view_seq(v@)) =~= Seq::<Node>::empty());
        v
    } else {
        let head = v.remove(0);
        let nh = normalize(head);
        let rest = normalize_vec(v);
        let ghost restv = rest@;
        let mut rest = rest;
        rest.insert(0, nh);
        proof {
            lemma_view_seq(orig);
            lemma_view_seq(orig.drop_first());
            assert(view_seq(orig).drop_first() =~= view_seq(orig.drop_first()));
            lemma_view_seq(restv);
            lemma_view_seq(rest@);
            assert(rest@ =~= seq![nh] + restv);
            assert(view_seq(rest@) =~= seq![nh@] + view_seq(restv));
            assert(norm_seq(view_seq(orig)) == seq![norm(view_seq(orig)[0])] + norm_seq(
                view_seq(orig).drop_first(),
            ));
        }
        rest
    }
}

/// Inline the children of sequence nodes one level into the surrounding
/// list.
pub fn splice_vec(v: Vec<Matcher>) -> (r: Vec<Matcher>)
    ensures
        view_seq(r@) == splice(view_seq(v@)),
    decreases v@,
{
    let ghost orig = v@;
    let mut v = v;
    if v.len() == 0 {
        assert(view_seq(v@) =~= Seq::<Node>::empty());
        assert(splice(view_seq(v@)) =~= Seq::<Node>::empty());
        v
    } else {
        let head = v.remove(0);
        let rest = splice_vec(v);
        let ghost restv = rest@;
        proof {
            lemma_view_seq(orig);
            lemma_view_seq(orig.drop_first());
            assert(view_seq(orig).drop_first() =~= view_seq(orig.drop_first()));
            assert(view_seq(orig)[0] == head@);
        }
        match head {
            Matcher::Sequence(xs) => {
                let mut xs = xs;
                let mut rest = rest;
                let ghost xsv = xs@;
                xs.append(&mut rest);
                proof {
                    assert(xs@ == xsv + restv);
                    lemma_view_seq_concat(xsv, restv);
                }
                xs
            },
            other => {
                let mut rest = rest;
                rest.insert(0, other);
                proof {
                    lemma_view_seq(restv);
                    lemma_view_seq(rest@);
                    assert(rest@ =~= seq![other] + restv);
                    assert(view_seq(rest@) =~= seq![other@] + view_seq(restv));
                }
                rest
            },
        }
    }
}

/// Join each run of adjacent literals into one literal, texts separated by
/// single spaces.
pub fn merge_vec(v: Vec<Matcher>) -> (r: Vec<Matcher>)
    ensures
        view_seq(r@) == merge_lits(view_seq(v@)),
    decreases v@.len(),
{
    let ghost orig = v@;
    proof {
        lemma_view_seq(orig);
    }
    if v.len() <= 1 {
        v
    } else {
        let both = matches!(&v[0], Matcher::Literal(_)) && matches!(
            &v[1],
            Matcher::Literal(_),
        );
        if both {
            let mut v = v;
            let a = v.remove(0);
            let b = v.remove(0);
            let ta = match a {
                Matcher::Literal(t) => t,
                _ => {
                    proof {
                        assert(false);
                    }
                    String::new()
                },
            };
            let tb = match b {
                Matcher::Literal(t) => t,
                _ => {
                    proof {
                        assert(false);
                    }
                    String::new()
                },
            };
            let joined = ta.concat(" ").concat(tb.as_str());
            proof {
                reveal_strlit(" ");
                assert(" "@ =~= seq![' ']);
            }
            v.insert(0, Matcher::Literal(joined));
            let ghost merged = v@;
            let r = merge_vec(v);
            proof {
                lemma_view_seq(merged);
                lemma_view_seq(orig.skip(2));
                assert(merged =~= seq![Matcher::Literal(joined)] + orig.skip(2));
                assert(view_seq(orig).skip(2) =~= view_seq(orig.skip(2)));
                assert(view_seq(merged) =~= seq![Node::Lit(joined@)] + view_seq(orig).skip(2));
                assert(joined@ =~= ta@ + seq![' '] + tb@);
                assert(view_seq(orig)[0] == Node::Lit(ta@));
                assert(view_seq(orig)[1] == Node::Lit(tb@));
            }
            r
        } else {
            let mut v = v;
            let head = v.remove(0);
            let rest = merge_vec(v);
            let ghost restv = rest@;
            let mut rest = rest;
            rest.insert(0, head);
            proof {
                lemma_view_seq(orig.drop_first());
                assert(view_seq(orig).drop_first() =~= view_seq(orig.drop_first()));
                lemma_view_seq(restv);
                lemma_view_seq(rest@);
                assert(rest@ =~= seq![head] + restv);
                assert(view_seq(rest@) =~= seq![head@] + view_seq(restv));
            }
            rest
        }
    }
}

} // verus!
