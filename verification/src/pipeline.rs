//! The whole pipeline for one annotated declaration: parse the macro's
//! source text, lower and normalize the rule tree, render the diagram,
//! encode it, resolve the label, and compute the documentation patch that
//! the annotation splicer applies.

use vstd::prelude::*;
use crate::encode::{base64_of, encode_payload};
use crate::label::{is_fallback_label, resolve_label};
use crate::lexer::spec_tokens;
use crate::lowering::{
    fold_rules, normalize, norm, remove_internal, rule_views, spec_fold, spec_remove_internal,
};
use crate::parser::{parse_rules, sp_parse, GrammarSyntaxError};
use crate::render::{render_svg, svg_doc};
use crate::splice::{
    attr_views, image_line, image_pos, label_line, label_pos, spec_image_line, spec_image_pos,
    spec_label_line, spec_label_pos, AttrInfo,
};
use crate::tree::Node;

verus! {

/// The diagram tree of a parsed rule list: internal alternatives removed,
/// common affixes folded, and the result normalized.
pub open spec fn spec_tree(rules: Seq<Seq<Node>>) -> Node {
    norm(spec_fold(spec_remove_internal(rules)))
}

/// The encoded payload of a rule list's diagram: the base64 of the UTF-8
/// bytes of the rendered SVG document. A function of the rules alone.
pub open spec fn spec_payload(rules: Seq<Seq<Node>>) -> Seq<char> {
    base64_of(vstd::utf8::encode_utf8(svg_doc(spec_tree(rules))))
}

/// Determinism of the pipeline: the payload is a function of the parsed
/// rules alone, so rendering the same grammar twice (holding the label
/// fixed) yields byte-identical encoded payloads.
pub proof fn lemma_payload_deterministic(r1: Seq<Seq<Node>>, r2: Seq<Seq<Node>>)
    requires
        r1 == r2,
    ensures
        spec_payload(r1) == spec_payload(r2),
{
}

/// The documentation patch for one declaration: the two generated doc
/// lines and the annotation indices at which they are inserted.
pub struct DocPatch {
    /// The label-definition line carrying the `data:` URI payload.
    pub label_line: String,
    /// Index among the existing annotations where the label line goes.
    pub label_pos: usize,
    /// The placeholder image-reference line; present only when no
    /// explicit label was supplied.
    pub image_line: Option<String>,
    /// Index among the existing annotations where the placeholder goes.
    pub image_pos: usize,
}

/// The pipeline for one annotated `macro_rules!` declaration.
///
/// `macro_text` is the declaration's source text; `explicit_label`, the
/// optional label argument of the annotation; `ident`, the macro's name if
/// it has one; `attrs`, what the splicer reads of the declaration's
/// existing annotations; `macro_span_end`, the byte offset at which the
/// annotation's own invocation ends.
///
/// On success the patch holds the label-definition line, placed after the
/// last existing outer doc annotation, and — only when no explicit label
/// was given — a placeholder image line at the invocation point, both
/// referring to one and the same label. Text that does not parse as a
/// `macro_rules!` declaration is rejected, and nothing is emitted.
pub fn generate_railroad(
    macro_text: &str,
    explicit_label: Option<String>,
    ident: Option<String>,
    attrs: &Vec<AttrInfo>,
    macro_span_end: usize,
) -> (r: Result<DocPatch, GrammarSyntaxError>)
    ensures
        (r is Ok) == (sp_parse(spec_tokens(macro_text@, 0)) is Some),
        match r {
            Result::Ok(p) => {
                &&& p.label_pos as int == spec_label_pos(attr_views(attrs@))
                &&& p.image_pos as int == spec_image_pos(
                    attr_views(attrs@),
                    macro_span_end as int,
                )
                &&& match explicit_label {
                    Option::Some(l) => p.label_line@ == spec_label_line(
                        l@,
                        spec_payload(sp_parse(spec_tokens(macro_text@, 0))->0),
                    ) && p.image_line is None,
                    Option::None => exists|lab: Seq<char>|
                        {
                            &&& is_fallback_label(lab)
                            &&& p.label_line@ == spec_label_line(
                                lab,
                                #[trigger] spec_payload(sp_parse(spec_tokens(macro_text@, 0))->0),
                            )
                            &&& p.image_line is Some
                            &&& p.image_line->0@ == spec_image_line(
                                match ident {
                                    Option::Some(id) => Option::Some(id@),
                                    Option::None => Option::None,
                                },
                                lab,
                            )
                        },
                }
            },
            Result::Err(_) => true,
        },
{
    let parsed = match parse_rules(macro_text) {
        Result::Ok(rs) => rs,
        Result::Err(e) => {
            return Result::Err(e);
        },
    };
    let ghost rules0 = rule_views(parsed@);
    let visible = remove_internal(parsed);
    let tree = fold_rules(visible);
    let tree = normalize(tree);
    proof {
        assert(tree@ == spec_tree(rules0));
    }
    let svg = render_svg(&tree);
    let payload = encode_payload(svg.as_str());
    let (label, given) = resolve_label(explicit_label);
    let lab_line = label_line(label.as_str(), payload.as_str());
    let img = if given {
        Option::None
    } else {
        Option::Some(image_line(&ident, label.as_str()))
    };
    let patch = DocPatch {
        label_line: lab_line,
        label_pos: label_pos(attrs),
        image_line: img,
        image_pos: image_pos(attrs, macro_span_end),
    };
    Result::Ok(patch)
}

} // verus!
