//! The diagram renderer: a normalized tree becomes an SVG document with a
//! deterministic layout. Literals are boxes, captures are stadium shapes,
//! alternations are vertically stacked branches between junction rails,
//! repetitions carry a loop-back path below the body (the separator is
//! drawn on the loop), and optionals carry a bypass path above the body.
//! All dimensions saturate at `DIM_CAP` units, so layout arithmetic is
//! total.

use vstd::prelude::*;
use crate::lexer::{chars_to_string, str_chars};
use crate::tree::{view_seq, Matcher, Node};

verus! {

broadcast use vstd::seq::group_seq_axioms, vstd::std_specs::vec::group_vec_axioms;

/// Upper bound on every coordinate and dimension of a diagram.
pub const DIM_CAP: u64 = 100000000;

/// Saturating cap on a dimension.
pub open spec fn sat(a: int) -> int {
    if a > DIM_CAP as int {
        DIM_CAP as int
    } else {
        a
    }
}

/// Width of a box holding `n` characters of text.
pub open spec fn text_w(n: nat) -> int {
    sat(10 * (n as int) + 20)
}

/// Width of a rendered node.
pub open spec fn node_w(t: Node) -> int
    decreases t, 0nat,
{
    match t {
        Node::Lit(s) => text_w(s.len()),
        Node::Cap { name, kind } => text_w(name.len() + kind.len() + 2),
        Node::Cat(cs) => sat(row_w(cs)),
        Node::Alt(bs) => sat(col_w(bs) + 40),
        Node::Rep { body, .. } => sat(node_w(*body) + 40),
        Node::Opt(b) => sat(node_w(*b) + 40),
    }
}

/// Width of a row of nodes, 10 units of spacing around each.
pub open spec fn row_w(cs: Seq<Node>) -> int
    decreases cs, 1nat,
{
    if cs.len() == 0 {
        10
    } else {
        sat(node_w(cs[0]) + 10 + row_w(cs.drop_first()))
    }
}

/// Largest width among stacked branches.
pub open spec fn col_w(bs: Seq<Node>) -> int
    decreases bs, 1nat,
{
    if bs.len() == 0 {
        0
    } else {
        let rest = col_w(bs.drop_first());
        if node_w(bs[0]) > rest {
            node_w(bs[0])
        } else {
            rest
        }
    }
}

/// Height of a rendered node.
pub open spec fn node_h(t: Node) -> int
    decreases t, 0nat,
{
    match t {
        Node::Lit(_) => 30,
        Node::Cap { .. } => 30,
        Node::Cat(cs) => row_h(cs),
        Node::Alt(bs) => if bs.len() == 0 {
            30
        } else {
            sat(col_h(bs) + 10)
        },
        Node::Rep { body, .. } => sat(node_h(*body) + 30),
        Node::Opt(b) => sat(node_h(*b) + 30),
    }
}

/// Largest height in a row of nodes.
pub open spec fn row_h(cs: Seq<Node>) -> int
    decreases cs, 1nat,
{
    if cs.len() == 0 {
        30
    } else {
        let rest = row_h(cs.drop_first());
        if node_h(cs[0]) > rest {
            node_h(cs[0])
        } else {
            rest
        }
    }
}

/// Summed height of stacked branches, 10 units of spacing below each.
pub open spec fn col_h(bs: Seq<Node>) -> int
    decreases bs, 1nat,
{
    if bs.len() == 0 {
        0
    } else {
        sat(node_h(bs[0]) + 10 + col_h(bs.drop_first()))
    }
}

/// Decimal digits of `n`, most significant first.
pub open spec fn dec_str(n: nat) -> Seq<char>
    decreases n,
{
    if n < 10 {
        seq![digit_char(n)]
    } else {
        dec_str(n / 10) + seq![digit_char(n % 10)]
    }
}

pub open spec fn digit_char(d: nat) -> char {
    ((d + 48) as u8) as char
}

/// Decimal text of a coordinate; negative never occurs, but the rendering
/// is total.
pub open spec fn dec(n: int) -> Seq<char> {
    if n < 0 {
        dec_str(0)
    } else {
        dec_str(n as nat)
    }
}

/// A character XML-escaped for use in SVG text content and attributes.
pub open spec fn esc_char(c: char) -> Seq<char> {
    if c == '<' {
        "&lt;"@
    } else if c == '>' {
        "&gt;"@
    } else if c == '&' {
        "&amp;"@
    } else if c == '"' {
        "&quot;"@
    } else {
        seq![c]
    }
}

/// A string XML-escaped character by character.
pub open spec fn esc(s: Seq<char>) -> Seq<char>
    decreases s.len(),
{
    if s.len() == 0 {
        Seq::empty()
    } else {
        esc(s.drop_last()) + esc_char(s.last())
    }
}

/// `<rect/>` with the given geometry and corner radius.
pub open spec fn svg_rect(x: int, y: int, w: int, h: int, rx: int) -> Seq<char> {
    "<rect x=\""@ + dec(x) + "\" y=\""@ + dec(y) + "\" width=\""@ + dec(w) + "\" height=\""@ + dec(
        h,
    ) + "\" rx=\""@ + dec(rx) + "\"/>"@
}

/// `<text>` at the given position.
pub open spec fn svg_text(x: int, y: int, s: Seq<char>) -> Seq<char> {
    "<text x=\""@ + dec(x) + "\" y=\""@ + dec(y) + "\">"@ + esc(s) + "</text>"@
}

/// `<line/>` between two points.
pub open spec fn svg_line(x1: int, y1: int, x2: int, y2: int) -> Seq<char> {
    "<line x1=\""@ + dec(x1) + "\" y1=\""@ + dec(y1) + "\" x2=\""@ + dec(x2) + "\" y2=\""@ + dec(
        y2,
    ) + "\"/>"@
}

/// A three-segment connector path: vertical, horizontal, vertical.
pub open spec fn svg_hook(x1: int, y1: int, y2: int, x2: int) -> Seq<char> {
    "<path d=\"M "@ + dec(x1) + " "@ + dec(y1) + " V "@ + dec(y2) + " H "@ + dec(x2) + " V "@
        + dec(y1) + "\" fill=\"none\"/>"@
}

/// The SVG elements of one node drawn with its top-left corner at (x, y).
pub open spec fn svg_node(t: Node, x: int, y: int) -> Seq<char>
    decreases t, 0nat,
{
    match t {
        Node::Lit(s) => svg_rect(x, y, node_w(t), 30, 4) + svg_text(sat(x + 10), sat(y + 20), s),
        Node::Cap { name, kind } => svg_rect(x, y, node_w(t), 30, 15) + svg_text(
            sat(x + 10),
            sat(y + 20),
            seq!['$'] + name + seq![':'] + kind,
        ),
        Node::Cat(cs) => svg_line(x, sat(y + 15), sat(x + node_w(t)), sat(y + 15)) + svg_row(
            cs,
            sat(x + 10),
            y,
        ),
        Node::Alt(bs) => svg_line(sat(x + 10), sat(y + 15), sat(x + 10), sat(y + node_h(t) - 15))
            + svg_line(
            sat(x + node_w(t) - 10),
            sat(y + 15),
            sat(x + node_w(t) - 10),
            sat(y + node_h(t) - 15),
        ) + svg_col(bs, sat(x + 20), sat(y + 10)),
        Node::Rep { body, sep, .. } => svg_node(*body, sat(x + 20), y) + svg_hook(
            sat(x + node_w(t) - 10),
            sat(y + 15),
            sat(y + node_h(t) - 10),
            sat(x + 10),
        ) + match sep {
            Option::Some(s) => svg_text(sat(x + 20), sat(y + node_h(t) - 15), s),
            Option::None => Seq::empty(),
        },
        Node::Opt(b) => svg_hook(sat(x + 10), sat(y + 25), sat(y + 5), sat(x + node_w(t) - 10))
            + svg_node(*b, sat(x + 20), sat(y + 20)),
    }
}

/// A row of nodes left to right, 10 units apart.
pub open spec fn svg_row(cs: Seq<Node>, x: int, y: int) -> Seq<char>
    decreases cs, 1nat,
{
    if cs.len() == 0 {
        Seq::empty()
    } else {
        svg_node(cs[0], x, y) + svg_row(cs.drop_first(), sat(x + node_w(cs[0]) + 10), y)
    }
}

/// A column of branches top to bottom, 10 units apart.
pub open spec fn svg_col(bs: Seq<Node>, x: int, y: int) -> Seq<char>
    decreases bs, 1nat,
{
    if bs.len() == 0 {
        Seq::empty()
    } else {
        svg_node(bs[0], x, y) + svg_col(bs.drop_first(), x, sat(y + node_h(bs[0]) + 10))
    }
}

/// The complete SVG document of a tree: viewbox sized to content, one
/// uniform default style, then the nodes.
pub open spec fn svg_doc(t: Node) -> Seq<char> {
    "<svg xmlns=\"http://www.w3.org/2000/svg\" viewBox=\"0 0 "@ + dec(sat(node_w(t) + 20)) + " "@
        + dec(sat(node_h(t) + 20))
        + "\"><style>rect{fill:#f6f8fa;stroke:#30a0c0}text{font:14px monospace;fill:#24292f}line,path{stroke:#30a0c0}</style>"@
        + svg_node(t, 10, 10) + "</svg>"@
}

// ---------------------------------------------------------------------------
// Exec: dimensions
// ---------------------------------------------------------------------------
/// Every node's drawn size is at least one box and at most the cap.
pub proof fn lemma_dims(t: Node)
    ensures
        10 <= node_w(t) <= DIM_CAP as int,
        30 <= node_h(t) <= DIM_CAP as int,
    decreases t, 0nat,
{
    match t {
        Node::Lit(_) => {},
        Node::Cap { .. } => {},
        Node::Cat(cs) => {
            lemma_dims_seq(cs);
        },
        Node::Alt(bs) => {
            lemma_dims_seq(bs);
        },
        Node::Rep { body, .. } => {
            lemma_dims(*body);
        },
        Node::Opt(b) => {
            lemma_dims(*b);
        },
    }
}

pub proof fn lemma_dims_seq(s: Seq<Node>)
    ensures
        10 <= row_w(s) <= DIM_CAP as int,
        0 <= col_w(s) <= DIM_CAP as int,
        30 <= row_h(s) <= DIM_CAP as int,
        0 <= col_h(s) <= DIM_CAP as int,
        s.len() > 0 ==> col_h(s) >= 40,
    decreases s, 1nat,
{
    if s.len() > 0 {
        lemma_dims(s[0]);
        lemma_dims_seq(s.drop_first());
    }
}

/// Saturating addition of two capped dimensions.
fn sat_add(a: u64, b: u64) -> (r: u64)
    requires
        a <= DIM_CAP,
        b <= DIM_CAP,
    ensures
        r as int == sat(a + b),
        r <= DIM_CAP,
{
    let s = a + b;
    if s > DIM_CAP {
        DIM_CAP
    } else {
        s
    }
}

/// Width of a text box of `n` characters, capped.
fn text_w_x(n: usize) -> (r: u64)
    ensures
        r as int == text_w(n as nat),
        r <= DIM_CAP,
{
    if n as u64 > 9999998 {
        DIM_CAP
    } else {
        10 * (n as u64) + 20
    }
}

/// Width of a rendered node; see `node_w`.
pub fn width_of(t: &Matcher) -> (w: u64)
    ensures
        w as int == node_w(t@),
        w <= DIM_CAP,
    decreases t, 0nat,
{
    proof {
        lemma_dims(t@);
    }
    match t {
        Matcher::Literal(s) => text_w_x(s.as_str().unicode_len()),
        Matcher::Capture { name, kind } => {
            let n1 = name.as_str().unicode_len();
            let n2 = kind.as_str().unicode_len();
            if n1 as u64 >= 10000000 || n2 as u64 >= 10000000 {
                DIM_CAP
            } else {
                text_w_x(n1 + n2 + 2)
            }
        },
        Matcher::Sequence(cs) => {
            proof {
                assert(view_seq(cs@).skip(0) =~= view_seq(cs@));
            }
            row_w_x(cs, 0)
        },
        Matcher::Alternation(bs) => {
            proof {
                assert(view_seq(bs@).skip(0) =~= view_seq(bs@));
            }
            sat_add(col_w_x(bs, 0), 40)
        },
        Matcher::Repetition { body, .. } => sat_add(width_of(body), 40),
        Matcher::Optional(b) => sat_add(width_of(b), 40),
    }
}

/// Width of the row of nodes from index `i` on; see `row_w`.
fn row_w_x(cs: &Vec<Matcher>, i: usize) -> (w: u64)
    requires
        i <= cs@.len(),
    ensures
        w as int == row_w(view_seq(cs@).skip(i as int)),
        w <= DIM_CAP,
    decreases cs@, 1nat, cs@.len() - i,
{
    proof {
        crate::tree::lemma_view_seq(cs@);
        lemma_dims_seq(view_seq(cs@).skip(i as int));
    }
    if i >= cs.len() {
        proof {
            assert(view_seq(cs@).skip(i as int).len() == 0);
        }
        10
    } else {
        let hw = width_of(&cs[i]);
        let rest = row_w_x(cs, i + 1);
        proof {
            assert(view_seq(cs@).skip(i as int)[0] == cs@[i as int]@);
            assert(view_seq(cs@).skip(i as int).drop_first() =~= view_seq(cs@).skip(i + 1));
        }
        sat_add(sat_add(hw, 10), rest)
    }
}

/// Largest width among the branches from index `i` on; see `col_w`.
fn col_w_x(bs: &Vec<Matcher>, i: usize) -> (w: u64)
    requires
        i <= bs@.len(),
    ensures
        w as int == col_w(view_seq(bs@).skip(i as int)),
        w <= DIM_CAP,
    decreases bs@, 1nat, bs@.len() - i,
{
    proof {
        crate::tree::lemma_view_seq(bs@);
        lemma_dims_seq(view_seq(bs@).skip(i as int));
    }
    if i >= bs.len() {
        proof {
            assert(view_seq(bs@).skip(i as int).len() == 0);
        }
        0
    } else {
        let hw = width_of(&bs[i]);
        let rest = col_w_x(bs, i + 1);
        proof {
            assert(view_seq(bs@).skip(i as int)[0] == bs@[i as int]@);
            assert(view_seq(bs@).skip(i as int).drop_first() =~= view_seq(bs@).skip(i + 1));
        }
        if hw > rest {
            hw
        } else {
            rest
        }
    }
}

/// Height of a rendered node; see `node_h`.
pub fn height_of(t: &Matcher) -> (h: u64)
    ensures
        h as int == node_h(t@),
        h <= DIM_CAP,
    decreases t, 0nat,
{
    proof {
        lemma_dims(t@);
    }
    match t {
        Matcher::Literal(_) => 30,
        Matcher::Capture { .. } => 30,
        Matcher::Sequence(cs) => {
            proof {
                assert(view_seq(cs@).skip(0) =~= view_seq(cs@));
            }
            row_h_x(cs, 0)
        },
        Matcher::Alternation(bs) => {
            if bs.len() == 0 {
                proof {
                    crate::tree::lemma_view_seq(bs@);
                }
                30
            } else {
                proof {
                    crate::tree::lemma_view_seq(bs@);
                    assert(view_seq(bs@).skip(0) =~= view_seq(bs@));
                    assert(view_seq(bs@).len() > 0);
                }
                sat_add(col_h_x(bs, 0), 10)
            }
        },
        Matcher::Repetition { body, .. } => sat_add(height_of(body), 30),
        Matcher::Optional(b) => sat_add(height_of(b), 30),
    }
}

/// Largest height in the row of nodes from index `i` on; see `row_h`.
fn row_h_x(cs: &Vec<Matcher>, i: usize) -> (h: u64)
    requires
        i <= cs@.len(),
    ensures
        h as int == row_h(view_seq(cs@).skip(i as int)),
        h <= DIM_CAP,
    decreases cs@, 1nat, cs@.len() - i,
{
    proof {
        crate::tree::lemma_view_seq(cs@);
        lemma_dims_seq(view_seq(cs@).skip(i as int));
    }
    if i >= cs.len() {
        proof {
            assert(view_seq(cs@).skip(i as int).len() == 0);
        }
        30
    } else {
        let hh = height_of(&cs[i]);
        let rest = row_h_x(cs, i + 1);
        proof {
            assert(view_seq(cs@).skip(i as int)[0] == cs@[i as int]@);
            assert(view_seq(cs@).skip(i as int).drop_first() =~= view_seq(cs@).skip(i + 1));
        }
        if hh > rest {
            hh
        } else {
            rest
        }
    }
}

/// Summed height of the branches from index `i` on; see `col_h`.
fn col_h_x(bs: &Vec<Matcher>, i: usize) -> (h: u64)
    requires
        i <= bs@.len(),
    ensures
        h as int == col_h(view_seq(bs@).skip(i as int)),
        h <= DIM_CAP,
    decreases bs@, 1nat, bs@.len() - i,
{
    proof {
        crate::tree::lemma_view_seq(bs@);
        lemma_dims_seq(view_seq(bs@).skip(i as int));
    }
    if i >= bs.len() {
        proof {
            assert(view_seq(bs@).skip(i as int).len() == 0);
        }
        0
    } else {
        let hh = height_of(&bs[i]);
        let rest = col_h_x(bs, i + 1);
        proof {
            assert(view_seq(bs@).skip(i as int)[0] == bs@[i as int]@);
            assert(view_seq(bs@).skip(i as int).drop_first() =~= view_seq(bs@).skip(i + 1));
        }
        sat_add(sat_add(hh, 10), rest)
    }
}

// ---------------------------------------------------------------------------
// Exec: SVG assembly
// ---------------------------------------------------------------------------
/// Decimal text of a number; see `dec_str`.
fn num_string(n: u64) -> (r: String)
    ensures
        r@ == dec_str(n as nat),
    decreases n,
{
    let d: u8 = 48 + (n % 10) as u8;
    let c = d as char;
    proof {
        assert(c == digit_char((n % 10) as nat));
    }
    if n < 10 {
        let mut v: Vec<char> = Vec::new();
        v.push(c);
        let r = chars_to_string(&v);
        proof {
            assert(r@ =~= seq![digit_char(n as nat)]);
        }
        r
    } else {
        let rest = num_string(n / 10);
        let mut v: Vec<char> = Vec::new();
        v.push(c);
        let tail = chars_to_string(&v);
        let r = rest.concat(tail.as_str());
        proof {
            assert(r@ =~= dec_str((n / 10) as nat) + seq![digit_char((n % 10) as nat)]);
        }
        r
    }
}

/// A string XML-escaped character by character; see `esc`.
fn esc_str(s: &str) -> (r: String)
    ensures
        r@ == esc(s@),
{
    let cs = str_chars(s);
    let ghost sv = s@;
    let mut out: Vec<char> = Vec::new();
    let mut i: usize = 0;
    while i < cs.len()
        invariant
            0 <= i <= cs@.len(),
            cs@ == sv,
            out@ =~= esc(sv.take(i as int)),
        decreases cs@.len() - i,
    {
        let c = cs[i];
        proof {
            reveal_strlit("&lt;");
            reveal_strlit("&gt;");
            reveal_strlit("&amp;");
            reveal_strlit("&quot;");
            assert(sv.take(i + 1).drop_last() =~= sv.take(i as int));
            assert(sv.take(i + 1).last() == sv[i as int]);
        }
        if c == '<' {
            out.push('&');
            out.push('l');
            out.push('t');
            out.push(';');
        } else if c == '>' {
            out.push('&');
            out.push('g');
            out.push('t');
            out.push(';');
        } else if c == '&' {
            out.push('&');
            out.push('a');
            out.push('m');
            out.push('p');
            out.push(';');
        } else if c == '"' {
            out.push('&');
            out.push('q');
            out.push('u');
            out.push('o');
            out.push('t');
            out.push(';');
        } else {
            out.push(c);
        }
        proof {
            assert(out@ =~= esc(sv.take(i as int)) + esc_char(sv[i as int]));
        }
        i += 1;
    }
    proof {
        assert(sv.take(sv.len() as int) =~= sv);
    }
    chars_to_string(&out)
}

/// `<rect/>`; see `svg_rect`.
fn rect_x(x: u64, y: u64, w: u64, h: u64, rx: u64) -> (r: String)
    ensures
        r@ == svg_rect(x as int, y as int, w as int, h as int, rx as int),
{
    let mut o = String::new();
    o.append("<rect x=\"");
    o.append(num_string(x).as_str());
    o.append("\" y=\"");
    o.append(num_string(y).as_str());
    o.append("\" width=\"");
    o.append(num_string(w).as_str());
    o.append("\" height=\"");
    o.append(num_string(h).as_str());
    o.append("\" rx=\"");
    o.append(num_string(rx).as_str());
    o.append("\"/>");
    proof {
        assert(o@ =~= svg_rect(x as int, y as int, w as int, h as int, rx as int));
    }
    o
}

/// `<text>`; see `svg_text`.
fn text_x(x: u64, y: u64, s: &str) -> (r: String)
    ensures
        r@ == svg_text(x as int, y as int, s@),
{
    let mut o = String::new();
    o.append("<text x=\"");
    o.append(num_string(x).as_str());
    o.append("\" y=\"");
    o.append(num_string(y).as_str());
    o.append("\">");
    o.append(esc_str(s).as_str());
    o.append("</text>");
    proof {
        assert(o@ =~= svg_text(x as int, y as int, s@));
    }
    o
}

/// `<line/>`; see `svg_line`.
fn line_x(x1: u64, y1: u64, x2: u64, y2: u64) -> (r: String)
    ensures
        r@ == svg_line(x1 as int, y1 as int, x2 as int, y2 as int),
{
    let mut o = String::new();
    o.append("<line x1=\"");
    o.append(num_string(x1).as_str());
    o.append("\" y1=\"");
    o.append(num_string(y1).as_str());
    o.append("\" x2=\"");
    o.append(num_string(x2).as_str());
    o.append("\" y2=\"");
    o.append(num_string(y2).as_str());
    o.append("\"/>");
    proof {
        assert(o@ =~= svg_line(x1 as int, y1 as int, x2 as int, y2 as int));
    }
    o
}

/// Three-segment connector `<path/>`; see `svg_hook`.
fn hook_x(x1: u64, y1: u64, y2: u64, x2: u64) -> (r: String)
    ensures
        r@ == svg_hook(x1 as int, y1 as int, y2 as int, x2 as int),
{
    let mut o = String::new();
    o.append("<path d=\"M ");
    o.append(num_string(x1).as_str());
    o.append(" ");
    o.append(num_string(y1).as_str());
    o.append(" V ");
    o.append(num_string(y2).as_str());
    o.append(" H ");
    o.append(num_string(x2).as_str());
    o.append(" V ");
    o.append(num_string(y1).as_str());
    o.append("\" fill=\"none\"/>");
    proof {
        assert(o@ =~= svg_hook(x1 as int, y1 as int, y2 as int, x2 as int));
    }
    o
}

/// Offset within the cap: `sat(a + b - c)`, where the geometry guarantees
/// `a + b >= c`.
fn sat_off(a: u64, b: u64, c: u64) -> (r: u64)
    requires
        a <= DIM_CAP,
        b <= DIM_CAP,
        a + b >= c,
    ensures
        r as int == sat(a + b - c),
        r <= DIM_CAP,
{
    let s = a + b - c;
    if s > DIM_CAP {
        DIM_CAP
    } else {
        s
    }
}

/// The SVG elements of one node at (x, y); see `svg_node`.
pub fn svg_node_x(t: &Matcher, x: u64, y: u64) -> (r: String)
    requires
        x <= DIM_CAP,
        y <= DIM_CAP,
    ensures
        r@ == svg_node(t@, x as int, y as int),
    decreases t, 0nat,
{
    proof {
        lemma_dims(t@);
    }
    match t {
        Matcher::Literal(s) => {
            let w = width_of(t);
            let mut o = rect_x(x, y, w, 30, 4);
            o.append(text_x(sat_add(x, 10), sat_add(y, 20), s.as_str()).as_str());
            o
        },
        Matcher::Capture { name, kind } => {
            let w = width_of(t);
            let mut label = String::new();
            label.append("$");
            label.append(name.as_str());
            label.append(":");
            label.append(kind.as_str());
            proof {
                reveal_strlit("$");
                reveal_strlit(":");
                assert(label@ =~= seq!['$'] + name@ + seq![':'] + kind@);
            }
            let mut o = rect_x(x, y, w, 30, 15);
            o.append(text_x(sat_add(x, 10), sat_add(y, 20), label.as_str()).as_str());
            o
        },
        Matcher::Sequence(cs) => {
            let w = width_of(t);
            proof {
                assert(view_seq(cs@).skip(0) =~= view_seq(cs@));
            }
            let mut o = line_x(x, sat_add(y, 15), sat_add(x, w), sat_add(y, 15));
            o.append(svg_row_x(cs, 0, sat_add(x, 10), y).as_str());
            o
        },
        Matcher::Alternation(bs) => {
            let w = width_of(t);
            let h = height_of(t);
            proof {
                assert(view_seq(bs@).skip(0) =~= view_seq(bs@));
            }
            let mut o = line_x(sat_add(x, 10), sat_add(y, 15), sat_add(x, 10), sat_off(y, h, 15));
            o.append(
                line_x(sat_off(x, w, 10), sat_add(y, 15), sat_off(x, w, 10), sat_off(y, h, 15))
                    .as_str(),
            );
            o.append(svg_col_x(bs, 0, sat_add(x, 20), sat_add(y, 10)).as_str());
            o
        },
        Matcher::Repetition { body, separator, .. } => {
            let w = width_of(t);
            let h = height_of(t);
            let mut o = svg_node_x(body, sat_add(x, 20), y);
            o.append(hook_x(sat_off(x, w, 10), sat_add(y, 15), sat_off(y, h, 10), sat_add(x, 10))
                .as_str());
            match separator {
                Option::Some(s) => {
                    o.append(text_x(sat_add(x, 20), sat_off(y, h, 15), s.as_str()).as_str());
                },
                Option::None => {},
            }
            o
        },
        Matcher::Optional(b) => {
            let w = width_of(t);
            let mut o = hook_x(sat_add(x, 10), sat_add(y, 25), sat_add(y, 5), sat_off(x, w, 10));
            o.append(svg_node_x(b, sat_add(x, 20), sat_add(y, 20)).as_str());
            o
        },
    }
}

/// A row of nodes from index `i` on; see `svg_row`.
fn svg_row_x(cs: &Vec<Matcher>, i: usize, x: u64, y: u64) -> (r: String)
    requires
        i <= cs@.len(),
        x <= DIM_CAP,
        y <= DIM_CAP,
    ensures
        r@ == svg_row(view_seq(cs@).skip(i as int), x as int, y as int),
    decreases cs@, 1nat, cs@.len() - i,
{
    proof {
        crate::tree::lemma_view_seq(cs@);
    }
    if i >= cs.len() {
        proof {
            assert(view_seq(cs@).skip(i as int).len() == 0);
            assert(svg_row(view_seq(cs@).skip(i as int), x as int, y as int) =~= Seq::<
                char,
            >::empty());
        }
        String::new()
    } else {
        let w = width_of(&cs[i]);
        let mut o = svg_node_x(&cs[i], x, y);
        let nx = sat_add(sat_add(x, w), 10);
        o.append(svg_row_x(cs, i + 1, nx, y).as_str());
        proof {
            assert(view_seq(cs@).skip(i as int)[0] == cs@[i as int]@);
            assert(view_seq(cs@).skip(i as int).drop_first() =~= view_seq(cs@).skip(i + 1));
            assert(nx as int == sat(x as int + node_w(cs@[i as int]@) + 10));
        }
        o
    }
}

/// A column of branches from index `i` on; see `svg_col`.
fn svg_col_x(bs: &Vec<Matcher>, i: usize, x: u64, y: u64) -> (r: String)
    requires
        i <= bs@.len(),
        x <= DIM_CAP,
        y <= DIM_CAP,
    ensures
        r@ == svg_col(view_seq(bs@).skip(i as int), x as int, y as int),
    decreases bs@, 1nat, bs@.len() - i,
{
    proof {
        crate::tree::lemma_view_seq(bs@);
    }
    if i >= bs.len() {
        proof {
            assert(view_seq(bs@).skip(i as int).len() == 0);
            assert(svg_col(view_seq(bs@).skip(i as int), x as int, y as int) =~= Seq::<
                char,
            >::empty());
        }
        String::new()
    } else {
        let h = height_of(&bs[i]);
        let mut o = svg_node_x(&bs[i], x, y);
        let ny = sat_add(sat_add(y, h), 10);
        o.append(svg_col_x(bs, i + 1, x, ny).as_str());
        proof {
            assert(view_seq(bs@).skip(i as int)[0] == bs@[i as int]@);
            assert(view_seq(bs@).skip(i as int).drop_first() =~= view_seq(bs@).skip(i + 1));
            assert(ny as int == sat(y as int + node_h(bs@[i as int]@) + 10));
        }
        o
    }
}

/// Diagram Renderer: the complete SVG document of a tree. Deterministic:
/// the text is a function of the tree alone; see `svg_doc`.
pub fn render_svg(t: &Matcher) -> (r: String)
    ensures
        r@ == svg_doc(t@),
{
    proof {
        lemma_dims(t@);
    }
    let w = width_of(t);
    let h = height_of(t);
    let mut o = String::new();
    o.append("<svg xmlns=\"http://www.w3.org/2000/svg\" viewBox=\"0 0 ");
    o.append(num_string(sat_add(w, 20)).as_str());
    o.append(" ");
    o.append(num_string(sat_add(h, 20)).as_str());
    o.append(
        "\"><style>rect{fill:#f6f8fa;stroke:#30a0c0}text{font:14px monospace;fill:#24292f}line,path{stroke:#30a0c0}</style>",
    );
    o.append(svg_node_x(t, 10, 10).as_str());
    o.append("</svg>");
    proof {
        assert(o@ =~= svg_doc(t@));
    }
    o
}

} // verus!
