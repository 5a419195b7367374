use vstd::prelude::*;

use crate::assoc::{
    entries_extend, entries_get, entries_insert, has_key, keys_unique, lemma_extend_get,
    lemma_insert_get, lemma_insert_get_other,
};
use crate::tree::{ParseNode, Rule};
use crate::value::{
    entries_wf, lemma_extend_wf, lemma_get_wf, lemma_insert_wf, lemma_merge_wf,
    lemma_single_entry_wf, model_wf, values_wf, Entries, ValueModel,
};
use crate::walk_spec::{
    common_fold, common_step, make_param_macro_spec, make_param_spec, module_content_fold,
    module_finish, module_spec, object_fold, parse_all, parse_spec, sessions_fold, sessions_step,
    tag_spec, tags_fold,
};

verus! {

/// Every object the tree walk builds, at any depth, holds each key once.
pub proof fn law_parsed_objects_have_unique_keys(n: ParseNode)
    ensures
        parse_spec(n) matches Some(v) ==> model_wf(v),
    decreases n,
{
    let cs = n.children@;
    match n.rule {
        Rule::sessions => {
            lemma_sessions_wf(cs);
        },
        Rule::session_generic_config_content | Rule::attach | Rule::string | Rule::string_alt
        | Rule::string_interpolation | Rule::param_macro_content => {
            if cs.len() > 0 {
                law_parsed_objects_have_unique_keys(cs[0]);
            } else {
                assert(model_wf(ValueModel::Object(Seq::empty())));
            }
        },
        Rule::session_pipeline_content | Rule::array | Rule::tag_args => {
            lemma_parse_all_wf(cs);
        },
        Rule::module => {
            lemma_module_wf(cs);
        },
        Rule::module_content => {
            lemma_module_content_wf(cs);
        },
        Rule::common_content => {
            lemma_common_wf(cs);
        },
        Rule::object => {
            lemma_object_wf(cs);
        },
        Rule::tag => {
            lemma_tag_wf(cs);
        },
        _ => {},
    }
}

pub proof fn lemma_parse_all_wf(cs: Seq<ParseNode>)
    ensures
        parse_all(cs) matches Some(a) ==> values_wf(a),
    decreases cs,
{
    if cs.len() > 0 {
        lemma_parse_all_wf(cs.drop_last());
        law_parsed_objects_have_unique_keys(cs.last());
        if let Some(a) = parse_all(cs) {
            let a0 = parse_all(cs.drop_last()).unwrap();
            assert forall|i: int| 0 <= i < a.len() implies model_wf(#[trigger] a[i]) by {
                if i < a0.len() {
                    assert(a[i] == a0[i]);
                }
            }
        }
    }
}

pub proof fn lemma_sessions_wf(cs: Seq<ParseNode>)
    ensures
        sessions_fold(cs) matches Some(e) ==> entries_wf(e),
    decreases cs,
{
    if cs.len() > 0 {
        lemma_sessions_wf(cs.drop_last());
        if let Some(item) = sessions_fold(cs.drop_last()) {
            lemma_sessions_step_wf(item, cs.last());
        }
    }
}

pub proof fn lemma_sessions_step_wf(item: Entries, ch: ParseNode)
    requires
        entries_wf(item),
    ensures
        sessions_step(item, ch) matches Some(e) ==> entries_wf(e),
    decreases ch,
{
    let inner = ch.children@;
    if (ch.rule == Rule::session_generic_config || ch.rule == Rule::session_pipeline)
        && inner.len() >= 2 {
        let name = inner[0].text@;
        law_parsed_objects_have_unique_keys(inner[1]);
        if let Some(value) = parse_spec(inner[1]) {
            lemma_get_wf(item, name);
            match entries_get(item, name) {
                None => {
                    lemma_insert_wf(item, name, value);
                },
                Some(cur) => {
                    if ch.rule == Rule::session_generic_config {
                        if let Some(vo) = value.to_object() {
                            lemma_merge_wf(cur, vo);
                            if let Some(m) = cur.merge_object(vo) {
                                lemma_insert_wf(item, name, m);
                            }
                        }
                    } else {
                        if let (Some(a), Some(b)) = (cur.to_array(), value.to_array()) {
                            let c = a + b;
                            assert forall|i: int| 0 <= i < c.len() implies model_wf(
                                #[trigger] c[i],
                            ) by {
                                if i < a.len() {
                                    assert(c[i] == a[i]);
                                } else {
                                    assert(c[i] == b[i - a.len()]);
                                }
                            }
                            lemma_insert_wf(item, name, ValueModel::Array(c));
                        }
                    }
                },
            }
        }
    }
}

pub proof fn lemma_module_wf(cs: Seq<ParseNode>)
    ensures
        module_spec(cs) matches Some(v) ==> model_wf(v),
    decreases cs,
{
    if cs.len() >= 2 {
        law_parsed_objects_have_unique_keys(cs[1]);
        if let Some(attr2) = parse_spec(cs[1]) {
            let head = seq![("module"@, ValueModel::String(cs[0].text@))];
            lemma_single_entry_wf("module"@, ValueModel::String(cs[0].text@));
            if attr2.is_object() {
                lemma_insert_wf(head, "ref"@, ValueModel::Null);
                lemma_extend_wf(entries_insert(head, "ref"@, ValueModel::Null), attr2.to_object().unwrap());
                lemma_tags_wf(cs.skip(2));
                lemma_finish_wf(
                    entries_extend(entries_insert(head, "ref"@, ValueModel::Null), attr2.to_object().unwrap()),
                    tags_fold(cs.skip(2)),
                );
            } else if cs.len() >= 3 {
                law_parsed_objects_have_unique_keys(cs[2]);
                if let Some(p) = parse_spec(cs[2]) {
                    if let Some(params) = p.to_object() {
                        lemma_insert_wf(head, "ref"@, attr2);
                        lemma_extend_wf(entries_insert(head, "ref"@, attr2), params);
                        lemma_tags_wf(cs.skip(3));
                        lemma_finish_wf(
                            entries_extend(entries_insert(head, "ref"@, attr2), params),
                            tags_fold(cs.skip(3)),
                        );
                    }
                }
            }
        }
    }
}

pub proof fn lemma_finish_wf(map: Entries, tags: Option<Entries>)
    requires
        entries_wf(map),
        tags matches Some(t) ==> entries_wf(t),
    ensures
        module_finish(map, tags) matches Some(v) ==> model_wf(v),
{
    if let Some(t) = tags {
        if t.len() > 0 {
            assert(model_wf(ValueModel::Object(t)));
            lemma_insert_wf(map, "___tags"@, ValueModel::Object(t));
        }
    }
}

pub proof fn lemma_tags_wf(cs: Seq<ParseNode>)
    ensures
        tags_fold(cs) matches Some(e) ==> entries_wf(e),
    decreases cs,
{
    if cs.len() > 0 {
        lemma_tags_wf(cs.drop_last());
        law_parsed_objects_have_unique_keys(cs.last());
        if let (Some(tags), Some(t)) = (tags_fold(cs.drop_last()), parse_spec(cs.last())) {
            if let Some(tag) = t.to_array() {
                if tag.len() >= 2 {
                    if let Some(key) = tag[0].to_text() {
                        assert(model_wf(tag[1]));
                        lemma_insert_wf(tags, key, tag[1]);
                    }
                }
            }
        }
    }
}

pub proof fn lemma_module_content_wf(cs: Seq<ParseNode>)
    ensures
        module_content_fold(cs) matches Some(e) ==> entries_wf(e),
    decreases cs,
{
    if cs.len() > 0 {
        lemma_module_content_wf(cs.drop_last());
        law_parsed_objects_have_unique_keys(cs.last());
        if let (Some(map), Some(value)) = (module_content_fold(cs.drop_last()), parse_spec(cs.last())) {
            lemma_get_wf(map, "params"@);
            lemma_insert_wf(map, "attach"@, value);
            lemma_insert_wf(map, "params"@, value);
            if let Some(cur) = entries_get(map, "params"@) {
                lemma_insert_wf(map, "params"@, cur);
            }
        }
    }
}

pub proof fn lemma_common_wf(cs: Seq<ParseNode>)
    ensures
        common_fold(cs) matches Some(e) ==> entries_wf(e),
    decreases cs,
{
    if cs.len() > 0 {
        lemma_common_wf(cs.drop_last());
        if let Some(map) = common_fold(cs.drop_last()) {
            lemma_common_step_wf(map, cs.last());
        }
    }
}

pub proof fn lemma_common_step_wf(map: Entries, ch: ParseNode)
    requires
        entries_wf(map),
    ensures
        common_step(map, ch) matches Some(e) ==> entries_wf(e),
    decreases ch,
{
    let inner = ch.children@;
    if ch.rule == Rule::attach {
        if inner.len() > 0 {
            law_parsed_objects_have_unique_keys(inner[0]);
            if let Some(v) = parse_spec(inner[0]) {
                lemma_insert_wf(map, "attach"@, v);
            }
        }
    } else if ch.rule == Rule::param {
        lemma_make_param_wf(inner);
        if let Some(kv) = make_param_spec(inner) {
            lemma_insert_wf(map, kv.0, kv.1);
        }
    } else if ch.rule == Rule::param_macro {
        lemma_make_param_macro_wf(inner);
        if let Some(kv) = make_param_macro_spec(inner) {
            lemma_get_wf(map, kv.0);
            match entries_get(map, kv.0) {
                Some(cur) => {
                    if let Some(pushed) = cur.array_push(kv.1) {
                        let a = cur.to_array().unwrap();
                        let b = a.push(kv.1);
                        assert forall|i: int| 0 <= i < b.len() implies model_wf(#[trigger] b[i]) by {
                            if i < a.len() {
                                assert(b[i] == a[i]);
                            }
                        }
                        lemma_insert_wf(map, kv.0, pushed);
                    }
                },
                None => {
                    assert(model_wf(ValueModel::Array(seq![kv.1]))) by {
                        assert(seq![kv.1][0] == kv.1);
                    }
                    lemma_insert_wf(map, kv.0, ValueModel::Array(seq![kv.1]));
                },
            }
        }
    } else {
        lemma_insert_wf(map, Seq::empty(), ValueModel::Undefined);
    }
}

pub proof fn lemma_make_param_wf(cs: Seq<ParseNode>)
    ensures
        make_param_spec(cs) matches Some(kv) ==> model_wf(kv.1),
    decreases cs,
{
    if cs.len() >= 2 {
        law_parsed_objects_have_unique_keys(cs[1]);
    }
}

pub proof fn lemma_make_param_macro_wf(cs: Seq<ParseNode>)
    ensures
        make_param_macro_spec(cs) matches Some(kv) ==> model_wf(kv.1),
    decreases cs,
{
    let total = cs.len();
    if total >= 2 {
        let key = cs[0].text@;
        law_parsed_objects_have_unique_keys(cs[1]);
        if total > 2 {
            law_parsed_objects_have_unique_keys(cs[total - 1]);
            lemma_parse_all_wf(cs.subrange(1, total - 1));
            let arg = if total == 3 {
                parse_spec(cs[1])
            } else {
                match parse_all(cs.subrange(1, total - 1)) {
                    Some(list) => Some(ValueModel::Array(list)),
                    None => None,
                }
            };
            if let (Some(a), Some(params)) = (arg, parse_spec(cs[total - 1])) {
                assert(model_wf(a));
                lemma_single_entry_wf(key, a);
                lemma_merge_wf(params, seq![(key, a)]);
            }
        }
    }
}

pub proof fn lemma_object_wf(cs: Seq<ParseNode>)
    ensures
        object_fold(cs) matches Some(e) ==> entries_wf(e),
    decreases cs,
{
    if cs.len() > 0 {
        lemma_object_wf(cs.drop_last());
        let pair = cs.last().children@;
        if pair.len() >= 2 {
            law_parsed_objects_have_unique_keys(pair[1]);
            if let (Some(map), Some(v)) = (object_fold(cs.drop_last()), parse_spec(pair[1])) {
                if pair[0].children@.len() >= 1 {
                    lemma_insert_wf(map, pair[0].children@[0].text@, v);
                }
            }
        }
    }
}

pub proof fn lemma_tag_wf(cs: Seq<ParseNode>)
    ensures
        tag_spec(cs) matches Some(v) ==> model_wf(v),
    decreases cs,
{
    if cs.len() >= 2 {
        law_parsed_objects_have_unique_keys(cs[1]);
    }
    if let Some(ValueModel::Array(items)) = tag_spec(cs) {
        assert forall|i: int| 0 <= i < items.len() implies model_wf(#[trigger] items[i]) by {
            if i == 1 {
                assert(model_wf(items[1]));
            }
        }
    }
}

/// What the sections named `n` make of that name, section by section in source order: the
/// first gives its value, a later configuration section merges into it, a later pipeline
/// section appends its steps to it.
pub open spec fn section_fold(cs: Seq<ParseNode>, n: Seq<char>) -> Option<ValueModel>
    decreases cs.len(),
{
    if cs.len() == 0 {
        None
    } else {
        let prev = section_fold(cs.drop_last(), n);
        let ch = cs.last();
        let inner = ch.children@;
        if (ch.rule == Rule::session_generic_config || ch.rule == Rule::session_pipeline)
            && inner.len() >= 2 && inner[0].text@ == n {
            let v = parse_spec(inner[1]).unwrap();
            match prev {
                None => Some(v),
                Some(cur) => if ch.rule == Rule::session_generic_config {
                    cur.merge_object(v.to_object().unwrap())
                } else {
                    Some(ValueModel::Array(cur.to_array().unwrap() + v.to_array().unwrap()))
                },
            }
        } else {
            prev
        }
    }
}

/// The entry of each name in the sections of a pipe file is what its own sections make of it,
/// in source order: repeated configuration sections merge, repeated pipeline sections append
/// their steps, and sections of other names change nothing.
pub proof fn law_sections_by_name(cs: Seq<ParseNode>, n: Seq<char>)
    ensures
        sessions_fold(cs) matches Some(e) ==> entries_get(e, n) == section_fold(cs, n),
    decreases cs.len(),
{
    if cs.len() > 0 {
        law_sections_by_name(cs.drop_last(), n);
        if let Some(e0) = sessions_fold(cs.drop_last()) {
            let ch = cs.last();
            let inner = ch.children@;
            if (ch.rule == Rule::session_generic_config || ch.rule == Rule::session_pipeline)
                && inner.len() >= 2 {
                let m = inner[0].text@;
                if let Some(e) = sessions_step(e0, ch) {
                    let value = parse_spec(inner[1]).unwrap();
                    let new_value = match entries_get(e0, m) {
                        None => value,
                        Some(cur) => if ch.rule == Rule::session_generic_config {
                            cur.merge_object(value.to_object().unwrap()).unwrap()
                        } else {
                            ValueModel::Array(cur.to_array().unwrap() + value.to_array().unwrap())
                        },
                    };
                    assert(e == entries_insert(e0, m, new_value));
                    if m == n {
                        lemma_insert_get(e0, m, new_value);
                    } else {
                        lemma_insert_get_other(e0, m, new_value, n);
                    }
                }
            }
        }
    }
}

/// What the entries of a block make of key `k`, entry by entry: `attach` sets `attach`, a
/// parameter sets its key, a macro is pushed onto the array under its name (which it starts),
/// any other entry sets the empty key to `Undefined`.
pub open spec fn block_entry(cs: Seq<ParseNode>, k: Seq<char>) -> Option<ValueModel>
    decreases cs.len(),
{
    if cs.len() == 0 {
        None
    } else {
        let prev = block_entry(cs.drop_last(), k);
        let ch = cs.last();
        let inner = ch.children@;
        if ch.rule == Rule::attach {
            if k == "attach"@ {
                parse_spec(inner[0])
            } else {
                prev
            }
        } else if ch.rule == Rule::param {
            let kv = make_param_spec(inner).unwrap();
            if kv.0 == k {
                Some(kv.1)
            } else {
                prev
            }
        } else if ch.rule == Rule::param_macro {
            let kv = make_param_macro_spec(inner).unwrap();
            if kv.0 == k {
                match prev {
                    Some(cur) => cur.array_push(kv.1),
                    None => Some(ValueModel::Array(seq![kv.1])),
                }
            } else {
                prev
            }
        } else if k == Seq::<char>::empty() {
            Some(ValueModel::Undefined)
        } else {
            prev
        }
    }
}

/// Each key of a block holds what the block's entries for that key make of it, in source
/// order; entries for other keys change nothing.
pub proof fn law_block_by_key(cs: Seq<ParseNode>, k: Seq<char>)
    ensures
        common_fold(cs) matches Some(e) ==> entries_get(e, k) == block_entry(cs, k),
    decreases cs.len(),
{
    if cs.len() > 0 {
        law_block_by_key(cs.drop_last(), k);
        if let (Some(e0), Some(e)) = (common_fold(cs.drop_last()), common_fold(cs)) {
            let ch = cs.last();
            let inner = ch.children@;
            assert(common_step(e0, ch) == Some(e));
            let (m, v) = if ch.rule == Rule::attach {
                ("attach"@, parse_spec(inner[0]).unwrap())
            } else if ch.rule == Rule::param {
                make_param_spec(inner).unwrap()
            } else if ch.rule == Rule::param_macro {
                let kv = make_param_macro_spec(inner).unwrap();
                (
                    kv.0,
                    match entries_get(e0, kv.0) {
                        Some(cur) => cur.array_push(kv.1).unwrap(),
                        None => ValueModel::Array(seq![kv.1]),
                    },
                )
            } else {
                (Seq::<char>::empty(), ValueModel::Undefined)
            };
            assert(e == entries_insert(e0, m, v));
            if m == k {
                lemma_insert_get(e0, m, v);
            } else {
                lemma_insert_get_other(e0, m, v, k);
            }
        }
    }
}

/// The key entry `ch` of a block sets, where it is no macro.
pub open spec fn sets_key(ch: ParseNode, k: Seq<char>) -> bool {
    ||| ch.rule == Rule::attach && k == "attach"@
    ||| ch.rule == Rule::param && ch.children@.len() > 0 && ch.children@[0].text@ == k
    ||| ch.rule != Rule::attach && ch.rule != Rule::param && ch.rule != Rule::param_macro && k
        == Seq::<char>::empty()
}

/// The values of the macros named `k`, in source order.
pub open spec fn macro_values(cs: Seq<ParseNode>, k: Seq<char>) -> Seq<ValueModel>
    decreases cs.len(),
{
    if cs.len() == 0 {
        Seq::empty()
    } else {
        let prev = macro_values(cs.drop_last(), k);
        let ch = cs.last();
        if ch.rule == Rule::param_macro {
            match make_param_macro_spec(ch.children@) {
                Some(kv) => if kv.0 == k {
                    prev.push(kv.1)
                } else {
                    prev
                },
                None => prev,
            }
        } else {
            prev
        }
    }
}

/// Macros of one name collect in an array, in source order, where no other entry of the
/// block sets that name.
pub proof fn law_macros_collect_in_order(cs: Seq<ParseNode>, k: Seq<char>)
    requires
        forall|i: int| 0 <= i < cs.len() ==> !sets_key(#[trigger] cs[i], k),
    ensures
        common_fold(cs) matches Some(e) ==> entries_get(e, k) == if macro_values(cs, k).len()
            > 0 {
            Some(ValueModel::Array(macro_values(cs, k)))
        } else {
            None
        },
{
    law_block_by_key(cs, k);
    if common_fold(cs) is Some {
        lemma_block_macros(cs, k);
    }
}

proof fn lemma_block_macros(cs: Seq<ParseNode>, k: Seq<char>)
    requires
        forall|i: int| 0 <= i < cs.len() ==> !sets_key(#[trigger] cs[i], k),
        common_fold(cs) is Some,
    ensures
        block_entry(cs, k) == if macro_values(cs, k).len() > 0 {
            Some(ValueModel::Array(macro_values(cs, k)))
        } else {
            None
        },
    decreases cs.len(),
{
    if cs.len() > 0 {
        let d = cs.drop_last();
        assert forall|i: int| 0 <= i < d.len() implies !sets_key(#[trigger] d[i], k) by {
            assert(d[i] == cs[i]);
        }
        if common_fold(d) is None {
            assert(common_fold(cs) is None);
        }
        lemma_block_macros(d, k);
        let ch = cs.last();
        assert(!sets_key(cs[cs.len() - 1], k));
        let e0 = common_fold(d).unwrap();
        assert(common_step(e0, ch) is Some);
        if ch.rule == Rule::param {
            let kv = make_param_spec(ch.children@).unwrap();
            assert(kv.0 == ch.children@[0].text@);
        } else if ch.rule == Rule::param_macro {
            let kv = make_param_macro_spec(ch.children@).unwrap();
            if kv.0 == k {
                let prev = macro_values(d, k);
                assert(macro_values(cs, k) == prev.push(kv.1));
                if prev.len() == 0 {
                    assert(prev.push(kv.1) =~= seq![kv.1]);
                }
            }
        }
    }
}

/// What the pairs of an object literal make of key `k`: the value of the last pair with
/// that key.
pub open spec fn object_entry(cs: Seq<ParseNode>, k: Seq<char>) -> Option<ValueModel>
    decreases cs.len(),
{
    if cs.len() == 0 {
        None
    } else {
        let pair = cs.last().children@;
        if pair.len() >= 2 && pair[0].children@.len() >= 1 && pair[0].children@[0].text@ == k {
            parse_spec(pair[1])
        } else {
            object_entry(cs.drop_last(), k)
        }
    }
}

/// In an object literal the last pair with a key wins, and the object has exactly the keys of
/// its pairs.
pub proof fn law_object_last_key_wins(cs: Seq<ParseNode>, k: Seq<char>)
    ensures
        object_fold(cs) matches Some(e) ==> entries_get(e, k) == object_entry(cs, k),
    decreases cs.len(),
{
    if cs.len() > 0 {
        law_object_last_key_wins(cs.drop_last(), k);
        if let (Some(e0), Some(e)) = (object_fold(cs.drop_last()), object_fold(cs)) {
            let pair = cs.last().children@;
            let m = pair[0].children@[0].text@;
            let v = parse_spec(pair[1]).unwrap();
            assert(e == entries_insert(e0, m, v));
            if m == k {
                lemma_insert_get(e0, m, v);
            } else {
                lemma_insert_get_other(e0, m, v, k);
            }
        }
    }
}

/// A sequence of trees parses exactly when each tree does, to their values in the same order.
pub proof fn law_parse_all_items(cs: Seq<ParseNode>)
    ensures
        parse_all(cs) is Some <==> forall|i: int|
            0 <= i < cs.len() ==> (#[trigger] parse_spec(cs[i])) is Some,
        parse_all(cs) matches Some(a) ==> a.len() == cs.len() && forall|i: int|
            0 <= i < cs.len() ==> Some(a[i]) == #[trigger] parse_spec(cs[i]),
    decreases cs.len(),
{
    if cs.len() > 0 {
        let d = cs.drop_last();
        law_parse_all_items(d);
        assert forall|i: int| 0 <= i < d.len() implies d[i] == cs[i] by {}
        if !(parse_spec(cs.last()) is Some) {
            assert(parse_spec(cs[cs.len() - 1]) is None);
        }
        if (forall|i: int| 0 <= i < cs.len() ==> (#[trigger] parse_spec(cs[i])) is Some) {
            assert forall|i: int| 0 <= i < d.len() implies (#[trigger] parse_spec(d[i])) is Some by {
                assert(parse_spec(cs[i]) is Some);
            }
            assert(parse_spec(cs[cs.len() - 1]) is Some);
        }
    }
}

/// An array, a pipeline's steps or a tag's arguments parse to the values of their items, in
/// the same order, exactly when every item parses.
pub proof fn law_array_items(n: ParseNode)
    requires
        n.rule == Rule::array || n.rule == Rule::session_pipeline_content || n.rule
            == Rule::tag_args,
    ensures
        parse_spec(n) is Some <==> forall|i: int|
            0 <= i < n.children@.len() ==> (#[trigger] parse_spec(n.children@[i])) is Some,
        parse_spec(n) matches Some(v) ==> v matches ValueModel::Array(a) && a.len()
            == n.children@.len() && forall|i: int|
            0 <= i < a.len() ==> Some(a[i]) == #[trigger] parse_spec(n.children@[i]),
{
    law_parse_all_items(n.children@);
}

/// A tag parses to `[name, arguments]`, with no arguments where it has no argument node.
pub proof fn law_tag_shape(n: ParseNode)
    requires
        n.rule == Rule::tag,
        parse_spec(n) is Some,
    ensures
        parse_spec(n) == Some(
            ValueModel::Array(
                seq![
                    ValueModel::String(parse_spec(n.children@[0]).unwrap().to_text().unwrap()),
                    ValueModel::Array(
                        if n.children@.len() >= 2 {
                            parse_spec(n.children@[1]).unwrap().to_array().unwrap()
                        } else {
                            Seq::empty()
                        },
                    ),
                ],
            ),
        ),
{
    assert(parse_spec(n) == tag_spec(n.children@));
    let key = parse_spec(n.children@[0]).unwrap().to_text().unwrap();
    let args = if n.children@.len() >= 2 {
        parse_spec(n.children@[1]).unwrap().to_array().unwrap()
    } else {
        Seq::empty()
    };
    assert(tag_spec(n.children@) == Some(
        ValueModel::Array(seq![ValueModel::String(key), ValueModel::Array(args)]),
    ));
}

/// A parameter `k=v` is the text of its key with the value of `v`.
pub proof fn law_param_pair(cs: Seq<ParseNode>)
    requires
        cs.len() >= 2,
    ensures
        make_param_spec(cs) == match parse_spec(cs[1]) {
            Some(v) => Some((cs[0].text@, v)),
            None => None,
        },
{
}

/// A macro with no argument is its name with its parameters, nothing merged into them.
pub proof fn law_macro_without_argument(cs: Seq<ParseNode>)
    requires
        cs.len() == 2,
    ensures
        make_param_macro_spec(cs) == match parse_spec(cs[1]) {
            Some(params) => Some((cs[0].text@, params)),
            None => None,
        },
{
}

/// A macro with one argument puts that argument, bare, under its name in its parameters.
pub proof fn law_macro_with_one_argument(cs: Seq<ParseNode>)
    requires
        cs.len() == 3,
    ensures
        make_param_macro_spec(cs) == match (parse_spec(cs[1]), parse_spec(cs[2])) {
            (Some(arg), Some(params)) => match params.merge_object(seq![(cs[0].text@, arg)]) {
                Some(merged) => Some((cs[0].text@, merged)),
                None => None,
            },
            _ => None,
        },
{
}

/// A macro with two or more arguments puts the array of all their values, in order, under its
/// name in its parameters, and leaves the parameters' other keys as they are.
pub proof fn law_macro_with_several_arguments(cs: Seq<ParseNode>, p: Entries)
    requires
        cs.len() >= 4,
        forall|i: int| 1 <= i < cs.len() - 1 ==> (#[trigger] parse_spec(cs[i])) is Some,
        parse_spec(cs[cs.len() - 1]) == Some(ValueModel::Object(p)),
    ensures
        match make_param_macro_spec(cs) {
            Some((key, ValueModel::Object(m))) => {
                &&& key == cs[0].text@
                &&& entries_get(m, key) == Some(
                    ValueModel::Array(
                        Seq::new((cs.len() - 2) as nat, |i: int| parse_spec(cs[i + 1]).unwrap()),
                    ),
                )
                &&& forall|k: Seq<char>| k != key ==> #[trigger] entries_get(m, k) == entries_get(p, k)
            },
            _ => false,
        },
{
    let total = cs.len();
    let key = cs[0].text@;
    let sub = cs.subrange(1, total - 1);
    law_parse_all_items(sub);
    assert forall|i: int| 0 <= i < sub.len() implies (#[trigger] parse_spec(sub[i])) is Some by {
        assert(sub[i] == cs[i + 1]);
    }
    let list = parse_all(sub).unwrap();
    let args = Seq::new((total - 2) as nat, |i: int| parse_spec(cs[i + 1]).unwrap());
    assert(list =~= args) by {
        assert forall|i: int| 0 <= i < list.len() implies list[i] == args[i] by {
            assert(sub[i] == cs[i + 1]);
            assert(Some(list[i]) == parse_spec(sub[i]));
        }
    }
    let one = seq![(key, ValueModel::Array(list))];
    assert(one.drop_last() =~= Seq::<(Seq<char>, ValueModel)>::empty());
    let m = entries_insert(p, key, ValueModel::Array(list));
    assert(entries_extend(p, one.drop_last()) == p);
    assert(entries_extend(p, one) == m);
    lemma_insert_get(p, key, ValueModel::Array(list));
    assert forall|k: Seq<char>| k != key implies #[trigger] entries_get(m, k) == entries_get(p, k) by {
        lemma_insert_get_other(p, key, ValueModel::Array(list), k);
    }
}

proof fn lemma_head_get(name: ValueModel, r: ValueModel, k: Seq<char>)
    requires
        k != "module"@,
        k != "ref"@,
    ensures
        entries_get(entries_insert(seq![("module"@, name)], "ref"@, r), k) is None,
{
    let head = seq![("module"@, name)];
    lemma_insert_get_other(head, "ref"@, r, k);
    if has_key(head, k) {
        assert(head[0].0 == "module"@);
    }
}

/// A module step holds its parameters: every key of its parameter object other than `module`,
/// `ref` and `___tags` holds in the step exactly what it holds in the parameters, whether the
/// step names a reference or not; and a step's `ref` is its reference (`null` without one),
/// unless the parameters set it.
pub proof fn law_module_keeps_parameters(cs: Seq<ParseNode>, o: Entries, k: Seq<char>)
    requires
        cs.len() >= 2,
        k != "module"@,
        k != "ref"@,
        k != "___tags"@,
    ensures
        parse_spec(cs[1]) == Some(ValueModel::Object(o)) ==> (module_spec(cs) matches Some(
            ValueModel::Object(m),
        ) ==> entries_get(m, k) == entries_get(o, k) && (!has_key(o, "ref"@) ==> entries_get(
            m,
            "ref"@,
        ) == Some(ValueModel::Null))),
        match parse_spec(cs[1]) {
            Some(r) => (!r.is_object() && cs.len() >= 3 && parse_spec(cs[2]) == Some(
                ValueModel::Object(o),
            )) ==> (module_spec(cs) matches Some(ValueModel::Object(m)) ==> entries_get(m, k)
                == entries_get(o, k) && (!has_key(o, "ref"@) ==> entries_get(m, "ref"@) == Some(
                r,
            ))),
            None => true,
        },
{
    reveal_strlit("module");
    reveal_strlit("ref");
    reveal_strlit("___tags");
    assert("ref"@ != "___tags"@) by {
        assert("ref"@.len() == 3);
        assert("___tags"@.len() == 7);
    }
    let name = ValueModel::String(cs[0].text@);
    let head = seq![("module"@, name)];
    if let Some(a) = parse_spec(cs[1]) {
        let (r, params, rest) = if a.is_object() {
            (ValueModel::Null, a.to_object().unwrap(), 2int)
        } else {
            (a, match parse_spec(cs[2]) {
                Some(pv) => match pv.to_object() {
                    Some(x) => x,
                    None => Seq::empty(),
                },
                None => Seq::empty(),
            }, 3int)
        };
        if (a.is_object() && a == ValueModel::Object(o)) || (!a.is_object() && cs.len() >= 3
            && parse_spec(cs[2]) == Some(ValueModel::Object(o))) {
            assert(params == o);
            if a.is_object() {
                law_parsed_objects_have_unique_keys(cs[1]);
            } else {
                law_parsed_objects_have_unique_keys(cs[2]);
            }
            assert(keys_unique(o));
            let m0 = entries_insert(head, "ref"@, r);
            let map = entries_extend(m0, o);
            lemma_extend_get(m0, o, k);
            lemma_head_get(name, r, k);
            lemma_extend_get(m0, o, "ref"@);
            lemma_insert_get(head, "ref"@, r);
            if let Some(t) = tags_fold(cs.skip(rest)) {
                if t.len() > 0 {
                    lemma_insert_get_other(map, "___tags"@, ValueModel::Object(t), k);
                    lemma_insert_get_other(map, "___tags"@, ValueModel::Object(t), "ref"@);
                }
            }
        }
    }
}

} // verus!
