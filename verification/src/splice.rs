//! The annotation splicer's computed side: where, among the declaration's
//! existing annotations, the generated documentation lines go, and the
//! exact text of those lines.

use vstd::prelude::*;

verus! {

broadcast use vstd::seq::group_seq_axioms, vstd::std_specs::vec::group_vec_axioms;

/// What the splicer reads of one existing annotation of the declaration:
/// the byte offset at which it starts, and whether it is an outer doc
/// annotation.
pub struct AttrInfo {
    pub span_start: usize,
    pub outer_doc: bool,
}

impl View for AttrInfo {
    type V = (int, bool);

    open spec fn view(&self) -> (int, bool) {
        (self.span_start as int, self.outer_doc)
    }
}

pub open spec fn attr_views(s: Seq<AttrInfo>) -> Seq<(int, bool)> {
    Seq::new(s.len(), |i: int| s[i]@)
}

/// Index of the first annotation that starts at or after the point of the
/// invocation, defaulting to the front; the placeholder image line goes
/// there.
pub open spec fn find_at_or_after(avs: Seq<(int, bool)>, m: int, i: int) -> int
    decreases avs.len() - i,
{
    if i < 0 || i >= avs.len() {
        0
    } else if avs[i].0 >= m {
        i
    } else {
        find_at_or_after(avs, m, i + 1)
    }
}

pub open spec fn spec_image_pos(avs: Seq<(int, bool)>, m: int) -> int {
    find_at_or_after(avs, m, 0)
}

/// One past the last outer doc annotation, scanning down from `i`;
/// defaults to the end. The label-definition line goes there, after all
/// existing documentation.
pub open spec fn label_pos_from(avs: Seq<(int, bool)>, i: int) -> int
    decreases i,
{
    if i <= 0 {
        avs.len() as int
    } else if avs[i - 1].1 {
        i
    } else {
        label_pos_from(avs, i - 1)
    }
}

pub open spec fn spec_label_pos(avs: Seq<(int, bool)>) -> int {
    label_pos_from(avs, avs.len() as int)
}

/// The label-definition doc line: a markdown reference-style definition
/// binding the label to the `data:` URI of the encoded diagram.
pub open spec fn spec_label_line(label: Seq<char>, payload: Seq<char>) -> Seq<char> {
    "\n \n  ["@ + label + "]: data:image/svg+xml;base64,"@ + payload
}

/// The alternative text of the placeholder: the declared macro's name in
/// a doc link when there is one.
pub open spec fn spec_alt(ident: Option<Seq<char>>) -> Seq<char> {
    match ident {
        Option::Some(id) => "[`"@ + id + "`]"@,
        Option::None => "below"@,
    }
}

/// How many `=` filler characters pad the placeholder banner beyond its
/// fixed width.
pub open spec fn spec_pad(ident: Option<Seq<char>>) -> nat {
    match ident {
        Option::Some(id) => id.len(),
        Option::None => 5,
    }
}

/// A run of `n` `=` characters.
pub open spec fn eq_run(n: nat) -> Seq<char>
    decreases n,
{
    if n == 0 {
        Seq::empty()
    } else {
        eq_run((n - 1) as nat).push('=')
    }
}

/// The placeholder image-reference doc line, inserted only when no
/// explicit label was supplied.
pub open spec fn spec_image_line(ident: Option<Seq<char>>, label: Seq<char>) -> Seq<char> {
    " !["@ + "=============================================="@ + eq_run(spec_pad(ident))
        + "\n_Here would be a railroad diagram of the macro "@ + spec_alt(ident) + "_\n"@
        + "=============================================="@ + eq_run(spec_pad(ident)) + "]["@
        + label + "]\n\n"@
}

/// Where the placeholder image line is inserted; see `spec_image_pos`.
pub fn image_pos(attrs: &Vec<AttrInfo>, macro_span_end: usize) -> (r: usize)
    ensures
        r as int == spec_image_pos(attr_views(attrs@), macro_span_end as int),
        r <= attrs@.len(),
{
    let ghost avs = attr_views(attrs@);
    let mut i: usize = 0;
    while i < attrs.len()
        invariant
            0 <= i <= attrs@.len(),
            avs == attr_views(attrs@),
            spec_image_pos(avs, macro_span_end as int) == find_at_or_after(
                avs,
                macro_span_end as int,
                i as int,
            ),
        decreases attrs@.len() - i,
    {
        proof {
            assert(avs[i as int] == attrs@[i as int]@);
        }
        if attrs[i].span_start >= macro_span_end {
            return i;
        }
        i += 1;
    }
    proof {
        assert(find_at_or_after(avs, macro_span_end as int, i as int) == 0);
    }
    0
}

/// Where the label-definition line is inserted; see `spec_label_pos`.
pub fn label_pos(attrs: &Vec<AttrInfo>) -> (r: usize)
    ensures
        r as int == spec_label_pos(attr_views(attrs@)),
        r <= attrs@.len(),
{
    let ghost avs = attr_views(attrs@);
    let mut i: usize = attrs.len();
    while i > 0
        invariant
            0 <= i <= attrs@.len(),
            avs == attr_views(attrs@),
            spec_label_pos(avs) == label_pos_from(avs, i as int),
        decreases i,
    {
        proof {
            assert(avs[i - 1] == attrs@[i - 1]@);
        }
        if attrs[i - 1].outer_doc {
            return i;
        }
        i -= 1;
    }
    attrs.len()
}

/// A run of `n` `=` characters; see `eq_run`.
pub fn eq_run_x(n: usize) -> (r: String)
    ensures
        r@ == eq_run(n as nat),
{
    let mut o = String::new();
    let mut i: usize = 0;
    proof {
        reveal_strlit("=");
    }
    while i < n
        invariant
            0 <= i <= n,
            o@ =~= eq_run(i as nat),
            "="@ == seq!['='],
        decreases n - i,
    {
        o.append("=");
        proof {
            assert(o@ =~= eq_run((i + 1) as nat));
        }
        i += 1;
    }
    o
}

/// The label-definition doc line; see `spec_label_line`.
pub fn label_line(label: &str, payload: &str) -> (r: String)
    ensures
        r@ == spec_label_line(label@, payload@),
{
    let mut o = String::new();
    o.append("\n \n  [");
    o.append(label);
    o.append("]: data:image/svg+xml;base64,");
    o.append(payload);
    proof {
        assert(o@ =~= spec_label_line(label@, payload@));
    }
    o
}

/// The placeholder image-reference doc line; see `spec_image_line`.
pub fn image_line(ident: &Option<String>, label: &str) -> (r: String)
    ensures
        r@ == spec_image_line(
            match ident {
                Option::Some(id) => Option::Some(id@),
                Option::None => Option::None,
            },
            label@,
        ),
{
    let pad = match ident {
        Option::Some(id) => id.as_str().unicode_len(),
        Option::None => 5,
    };
    let pads = eq_run_x(pad);
    let mut o = String::new();
    o.append(" ![");
    o.append("==============================================");
    o.append(pads.as_str());
    o.append("\n_Here would be a railroad diagram of the macro ");
    match ident {
        Option::Some(id) => {
            o.append("[`");
            o.append(id.as_str());
            o.append("`]");
        },
        Option::None => {
            o.append("below");
        },
    }
    o.append("_\n");
    o.append("==============================================");
    o.append(pads.as_str());
    o.append("][");
    o.append(label);
    o.append("]\n\n");
    proof {
        assert(o@ =~= spec_image_line(
            match ident {
                Option::Some(id) => Option::Some(id@),
                Option::None => Option::None,
            },
            label@,
        ));
    }
    o
}

} // verus!
