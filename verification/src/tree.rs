use vstd::prelude::*;

verus! {

/// The rules of the pipe grammar that the tree walk tells apart; every other rule is `other`.
#[allow(non_camel_case_types)]
#[derive(Clone, Copy, Debug, PartialEq, Eq, Structural, Hash, PartialOrd, Ord)]
pub enum Rule {
    pipe,
    sessions,
    session_generic_config,
    session_pipeline,
    session_generic_config_content,
    session_pipeline_content,
    module,
    module_content,
    attach,
    param,
    param_macro,
    param_macro_content,
    common_content,
    object,
    array,
    number,
    boolean,
    string,
    string_alt,
    string_content,
    string_content_alt,
    ident,
    string_interpolation,
    string_interpolation_content,
    interpolation,
    object_interpolation,
    reference,
    tag,
    tag_args,
    null,
    other,
}

/// One node of a parse tree: the rule that matched, the text it matched, the text spanned by
/// its children (from the start of the first to the end of the last, empty without children)
/// and the children in order.
#[derive(Debug)]
pub struct ParseNode {
    pub rule: Rule,
    pub text: String,
    pub inner_text: String,
    pub children: Vec<ParseNode>,
}

} // verus!
