use vstd::prelude::*;

use crate::assoc::{entries_extend, entries_get, entries_insert};
use crate::tree::{ParseNode, Rule};
use crate::value::{Entries, ScriptKind, ValueModel};

verus! {

/// Unicode `White_Space` characters.
pub open spec fn is_white_space(c: char) -> bool {
    ||| '\u{9}' <= c <= '\u{d}'
    ||| c == ' '
    ||| c == '\u{85}'
    ||| c == '\u{a0}'
    ||| c == '\u{1680}'
    ||| '\u{2000}' <= c <= '\u{200a}'
    ||| c == '\u{2028}'
    ||| c == '\u{2029}'
    ||| c == '\u{202f}'
    ||| c == '\u{205f}'
    ||| c == '\u{3000}'
}

pub open spec fn trim_start_chars(s: Seq<char>) -> Seq<char>
    decreases s.len(),
{
    if s.len() > 0 && is_white_space(s[0]) {
        trim_start_chars(s.drop_first())
    } else {
        s
    }
}

pub open spec fn trim_end_chars(s: Seq<char>) -> Seq<char>
    decreases s.len(),
{
    if s.len() > 0 && is_white_space(s.last()) {
        trim_end_chars(s.drop_last())
    } else {
        s
    }
}

/// The text without leading and trailing white space.
pub open spec fn trim_chars(s: Seq<char>) -> Seq<char> {
    trim_end_chars(trim_start_chars(s))
}

/// The value a parse tree stands for; `None` where the tree does not have the shape the
/// walk relies on.
pub open spec fn parse_spec(n: ParseNode) -> Option<ValueModel>
    decreases n,
{
    let cs = n.children@;
    match n.rule {
        Rule::sessions => match sessions_fold(cs) {
            Some(e) => Some(ValueModel::Object(e)),
            None => None,
        },
        Rule::session_generic_config_content => if cs.len() > 0 {
            parse_spec(cs[0])
        } else {
            Some(ValueModel::Undefined)
        },
        Rule::session_pipeline_content | Rule::array | Rule::tag_args => match parse_all(cs) {
            Some(items) => Some(ValueModel::Array(items)),
            None => None,
        },
        Rule::module => module_spec(cs),
        Rule::module_content => match module_content_fold(cs) {
            Some(e) => Some(ValueModel::Object(e)),
            None => None,
        },
        Rule::attach | Rule::string | Rule::string_alt | Rule::string_interpolation => if cs.len()
            > 0 {
            parse_spec(cs[0])
        } else {
            None
        },
        Rule::param_macro_content => if cs.len() > 0 {
            parse_spec(cs[0])
        } else {
            Some(ValueModel::Object(Seq::empty()))
        },
        Rule::common_content => match common_fold(cs) {
            Some(e) => Some(ValueModel::Object(e)),
            None => None,
        },
        Rule::object => match object_fold(cs) {
            Some(e) => Some(ValueModel::Object(e)),
            None => None,
        },
        Rule::number => Some(ValueModel::Number(n.text@)),
        Rule::boolean => Some(ValueModel::Boolean(n.text@ == "true"@)),
        Rule::string_content | Rule::string_content_alt | Rule::ident | Rule::reference => Some(
            ValueModel::String(n.text@),
        ),
        Rule::string_interpolation_content | Rule::object_interpolation => Some(
            ValueModel::Interpolation(ScriptKind::Template, n.text@),
        ),
        Rule::interpolation => Some(
            ValueModel::Interpolation(ScriptKind::Expression, trim_chars(n.inner_text@)),
        ),
        Rule::tag => tag_spec(cs),
        Rule::null => Some(ValueModel::Null),
        _ => Some(ValueModel::Undefined),
    }
}

/// The values of a sequence of trees, all of which must parse.
pub open spec fn parse_all(cs: Seq<ParseNode>) -> Option<Seq<ValueModel>>
    decreases cs,
{
    if cs.len() == 0 {
        Some(Seq::empty())
    } else {
        match parse_all(cs.drop_last()) {
            Some(a) => match parse_spec(cs.last()) {
                Some(v) => Some(a.push(v)),
                None => None,
            },
            None => None,
        }
    }
}

/// Sections of a pipe file: a repeated configuration section merges into the earlier one,
/// a repeated pipeline section appends its steps.
pub open spec fn sessions_fold(cs: Seq<ParseNode>) -> Option<Entries>
    decreases cs,
{
    if cs.len() == 0 {
        Some(Seq::empty())
    } else {
        match sessions_fold(cs.drop_last()) {
            Some(item) => sessions_step(item, cs.last()),
            None => None,
        }
    }
}

pub open spec fn sessions_step(item: Entries, ch: ParseNode) -> Option<Entries>
    decreases ch,
{
    let inner = ch.children@;
    if ch.rule == Rule::session_generic_config || ch.rule == Rule::session_pipeline {
        if inner.len() < 2 {
            None
        } else {
            let name = inner[0].text@;
            match parse_spec(inner[1]) {
                None => None,
                Some(value) => match entries_get(item, name) {
                    None => Some(entries_insert(item, name, value)),
                    Some(cur) => if ch.rule == Rule::session_generic_config {
                        match value.to_object() {
                            Some(vo) => match cur.merge_object(vo) {
                                Some(merged) => Some(entries_insert(item, name, merged)),
                                None => None,
                            },
                            None => None,
                        }
                    } else {
                        match cur.to_array() {
                            Some(a) => match value.to_array() {
                                Some(b) => Some(
                                    entries_insert(item, name, ValueModel::Array(a + b)),
                                ),
                                None => None,
                            },
                            None => None,
                        }
                    },
                },
            }
        }
    } else {
        Some(item)
    }
}

/// A module step: its name, then either parameters, or a reference and parameters, then tags.
pub open spec fn module_spec(cs: Seq<ParseNode>) -> Option<ValueModel>
    decreases cs,
{
    if cs.len() < 2 {
        None
    } else {
        let module_name = ValueModel::String(cs[0].text@);
        match parse_spec(cs[1]) {
            None => None,
            Some(attr2) => {
                let head = seq![("module"@, module_name)];
                if attr2.is_object() {
                    module_finish(
                        entries_extend(
                            entries_insert(head, "ref"@, ValueModel::Null),
                            attr2.to_object().unwrap(),
                        ),
                        tags_fold(cs.skip(2)),
                    )
                } else if cs.len() < 3 {
                    None
                } else {
                    match parse_spec(cs[2]) {
                        Some(p) => match p.to_object() {
                            Some(params) => module_finish(
                                entries_extend(entries_insert(head, "ref"@, attr2), params),
                                tags_fold(cs.skip(3)),
                            ),
                            None => None,
                        },
                        None => None,
                    }
                }
            },
        }
    }
}

pub open spec fn module_finish(map: Entries, tags: Option<Entries>) -> Option<ValueModel> {
    match tags {
        Some(t) => if t.len() > 0 {
            Some(ValueModel::Object(entries_insert(map, "___tags"@, ValueModel::Object(t))))
        } else {
            Some(ValueModel::Object(map))
        },
        None => None,
    }
}

/// Tags of a module step: each parses to `[name, arguments]`.
pub open spec fn tags_fold(cs: Seq<ParseNode>) -> Option<Entries>
    decreases cs,
{
    if cs.len() == 0 {
        Some(Seq::empty())
    } else {
        match tags_fold(cs.drop_last()) {
            Some(tags) => match parse_spec(cs.last()) {
                Some(t) => match t.to_array() {
                    Some(tag) => if tag.len() >= 2 {
                        match tag[0].to_text() {
                            Some(key) => Some(entries_insert(tags, key, tag[1])),
                            None => None,
                        }
                    } else {
                        None
                    },
                    None => None,
                },
                None => None,
            },
            None => None,
        }
    }
}

/// Body of a module: an `attach` entry, and `params` from the first parameter block.
pub open spec fn module_content_fold(cs: Seq<ParseNode>) -> Option<Entries>
    decreases cs,
{
    if cs.len() == 0 {
        Some(Seq::empty())
    } else {
        match module_content_fold(cs.drop_last()) {
            Some(map) => match parse_spec(cs.last()) {
                Some(value) => if cs.last().rule == Rule::attach {
                    Some(entries_insert(map, "attach"@, value))
                } else {
                    match entries_get(map, "params"@) {
                        Some(cur) => match value.to_object() {
                            Some(vo) => match cur.merge_object(vo) {
                                Some(_) => Some(entries_insert(map, "params"@, cur)),
                                None => None,
                            },
                            None => None,
                        },
                        None => Some(entries_insert(map, "params"@, value)),
                    }
                },
                None => None,
            },
            None => None,
        }
    }
}

/// Parameters of a block: `attach`, plain parameters, and macros collected in arrays.
pub open spec fn common_fold(cs: Seq<ParseNode>) -> Option<Entries>
    decreases cs,
{
    if cs.len() == 0 {
        Some(Seq::empty())
    } else {
        match common_fold(cs.drop_last()) {
            Some(map) => common_step(map, cs.last()),
            None => None,
        }
    }
}

pub open spec fn common_step(map: Entries, ch: ParseNode) -> Option<Entries>
    decreases ch,
{
    let inner = ch.children@;
    if ch.rule == Rule::attach {
        // an `attach` node stands for its first child
        if inner.len() > 0 {
            match parse_spec(inner[0]) {
                Some(v) => Some(entries_insert(map, "attach"@, v)),
                None => None,
            }
        } else {
            None
        }
    } else if ch.rule == Rule::param {
        match make_param_spec(inner) {
            Some(kv) => Some(entries_insert(map, kv.0, kv.1)),
            None => None,
        }
    } else if ch.rule == Rule::param_macro {
        match make_param_macro_spec(inner) {
            Some(kv) => match entries_get(map, kv.0) {
                Some(cur) => match cur.array_push(kv.1) {
                    Some(pushed) => Some(entries_insert(map, kv.0, pushed)),
                    None => None,
                },
                None => Some(entries_insert(map, kv.0, ValueModel::Array(seq![kv.1]))),
            },
            None => None,
        }
    } else {
        Some(entries_insert(map, Seq::empty(), ValueModel::Undefined))
    }
}

/// A parameter `key=value`, from the children of its node.
pub open spec fn make_param_spec(cs: Seq<ParseNode>) -> Option<(Seq<char>, ValueModel)>
    decreases cs,
{
    if cs.len() < 2 {
        None
    } else {
        match parse_spec(cs[1]) {
            Some(v) => Some((cs[0].text@, v)),
            None => None,
        }
    }
}

/// A macro `name arg.. (params)`, from the children of its node: one argument lands under
/// the macro's name in the parameters, several land there as an array, none leaves the
/// parameters as they are.
pub open spec fn make_param_macro_spec(cs: Seq<ParseNode>) -> Option<(Seq<char>, ValueModel)>
    decreases cs,
{
    let total = cs.len();
    if total < 2 {
        None
    } else {
        let key = cs[0].text@;
        if total == 2 {
            match parse_spec(cs[1]) {
                Some(v) => Some((key, v)),
                None => None,
            }
        } else {
            let arg = if total == 3 {
                parse_spec(cs[1])
            } else {
                match parse_all(cs.subrange(1, total - 1)) {
                    Some(list) => Some(ValueModel::Array(list)),
                    None => None,
                }
            };
            match arg {
                Some(a) => match parse_spec(cs[total - 1]) {
                    Some(params) => match params.merge_object(seq![(key, a)]) {
                        Some(merged) => Some((key, merged)),
                        None => None,
                    },
                    None => None,
                },
                None => None,
            }
        }
    }
}

/// An object literal: each pair holds a key node (whose first child carries the key text)
/// and a value.
pub open spec fn object_fold(cs: Seq<ParseNode>) -> Option<Entries>
    decreases cs,
{
    if cs.len() == 0 {
        Some(Seq::empty())
    } else {
        match object_fold(cs.drop_last()) {
            Some(map) => {
                let pair = cs.last().children@;
                if pair.len() < 2 || pair[0].children@.len() < 1 {
                    None
                } else {
                    match parse_spec(pair[1]) {
                        Some(v) => Some(entries_insert(map, pair[0].children@[0].text@, v)),
                        None => None,
                    }
                }
            },
            None => None,
        }
    }
}

/// A tag `name(args..)`: `[name, [args..]]`.
pub open spec fn tag_spec(cs: Seq<ParseNode>) -> Option<ValueModel>
    decreases cs,
{
    if cs.len() == 0 {
        None
    } else {
        match parse_spec(cs[0]) {
            Some(k) => match k.to_text() {
                Some(key) => {
                    let args = if cs.len() >= 2 {
                        match parse_spec(cs[1]) {
                            Some(a) => a.to_array(),
                            None => None,
                        }
                    } else {
                        Some(Seq::empty())
                    };
                    match args {
                        Some(value) => Some(
                            ValueModel::Array(
                                seq![ValueModel::String(key), ValueModel::Array(value)],
                            ),
                        ),
                        None => None,
                    }
                },
                None => None,
            },
            None => None,
        }
    }
}


pub proof fn lemma_parse_all_none_extends(cs: Seq<ParseNode>, k: int)
    requires
        0 <= k <= cs.len(),
        parse_all(cs.take(k)) is None,
    ensures
        parse_all(cs) is None,
    decreases cs.len() - k,
{
    if k < cs.len() {
        assert(cs.take(k + 1).drop_last() =~= cs.take(k));
        lemma_parse_all_none_extends(cs, k + 1);
    } else {
        assert(cs.take(k) =~= cs);
    }
}

pub proof fn lemma_sessions_none_extends(cs: Seq<ParseNode>, k: int)
    requires
        0 <= k <= cs.len(),
        sessions_fold(cs.take(k)) is None,
    ensures
        sessions_fold(cs) is None,
    decreases cs.len() - k,
{
    if k < cs.len() {
        assert(cs.take(k + 1).drop_last() =~= cs.take(k));
        lemma_sessions_none_extends(cs, k + 1);
    } else {
        assert(cs.take(k) =~= cs);
    }
}

pub proof fn lemma_tags_none_extends(cs: Seq<ParseNode>, k: int)
    requires
        0 <= k <= cs.len(),
        tags_fold(cs.take(k)) is None,
    ensures
        tags_fold(cs) is None,
    decreases cs.len() - k,
{
    if k < cs.len() {
        assert(cs.take(k + 1).drop_last() =~= cs.take(k));
        lemma_tags_none_extends(cs, k + 1);
    } else {
        assert(cs.take(k) =~= cs);
    }
}

pub proof fn lemma_module_content_none_extends(cs: Seq<ParseNode>, k: int)
    requires
        0 <= k <= cs.len(),
        module_content_fold(cs.take(k)) is None,
    ensures
        module_content_fold(cs) is None,
    decreases cs.len() - k,
{
    if k < cs.len() {
        assert(cs.take(k + 1).drop_last() =~= cs.take(k));
        lemma_module_content_none_extends(cs, k + 1);
    } else {
        assert(cs.take(k) =~= cs);
    }
}

pub proof fn lemma_common_none_extends(cs: Seq<ParseNode>, k: int)
    requires
        0 <= k <= cs.len(),
        common_fold(cs.take(k)) is None,
    ensures
        common_fold(cs) is None,
    decreases cs.len() - k,
{
    if k < cs.len() {
        assert(cs.take(k + 1).drop_last() =~= cs.take(k));
        lemma_common_none_extends(cs, k + 1);
    } else {
        assert(cs.take(k) =~= cs);
    }
}

pub proof fn lemma_object_none_extends(cs: Seq<ParseNode>, k: int)
    requires
        0 <= k <= cs.len(),
        object_fold(cs.take(k)) is None,
    ensures
        object_fold(cs) is None,
    decreases cs.len() - k,
{
    if k < cs.len() {
        assert(cs.take(k + 1).drop_last() =~= cs.take(k));
        lemma_object_none_extends(cs, k + 1);
    } else {
        assert(cs.take(k) =~= cs);
    }
}

} // verus!
