use vstd::prelude::*;

use pest::error::Error as PestError;

use crate::assoc::lemma_key_at;
use crate::embed::{embed, embed_ok, embed_text};
use crate::tree::{ParseNode, Rule};
use crate::value::{
    entries_model, entries_opt_model, find_key, object_extend, object_insert, value_opt_model,
    values_model, values_opt_model, Script, Value, ValueModel,
};
use crate::walk_spec::{
    common_fold, common_step, lemma_common_none_extends, lemma_module_content_none_extends,
    lemma_object_none_extends, lemma_parse_all_none_extends, lemma_sessions_none_extends,
    lemma_tags_none_extends, make_param_macro_spec, make_param_spec, module_content_fold,
    module_spec, object_fold, parse_all, parse_spec, sessions_fold, sessions_step, tag_spec,
    tags_fold, trim_chars,
};

verus! {

/// `str::trim`: the slice without leading and trailing characters of the Unicode
/// `White_Space` property, as std documents it.
#[verifier::external_body]
fn trim_text(s: &str) -> (r: &str)
    ensures
        r@ == trim_chars(s@),
{
    s.trim()
}

/// pest's parse error, carried through unopened.
#[verifier::external_type_specification]
#[verifier::external_body]
#[verifier::reject_recursive_types(R)]
pub struct ExPestError<R>(PestError<R>);

/// Why a pipe file could not be read: a parse error, or the message of a file error.
#[derive(Debug)]
pub struct Error {
    parse: Option<PestError<Rule>>,
    file: Option<String>,
}

impl Error {
    pub closed spec fn parse_error(self) -> Option<PestError<Rule>> {
        self.parse
    }

    pub closed spec fn file_message(self) -> Option<Seq<char>> {
        match self.file {
            Some(f) => Some(f@),
            None => None,
        }
    }

    /// An error that carries a parse error.
    pub fn parse(error: PestError<Rule>) -> (r: Self)
        ensures
            r.parse_error() == Some(error),
            r.file_message() is None,
    {
        Self { parse: Some(error), file: None }
    }

    /// An error that carries the message of a failed file read.
    pub fn file(local: &str) -> (r: Self)
        ensures
            r.parse_error() is None,
            r.file_message() == Some(local@),
    {
        Self { parse: None, file: Some(String::from_str(local)) }
    }

    /// The message of a failed file read, if this is one.
    pub fn file_text(&self) -> (r: Option<String>)
        ensures
            match r {
                Some(f) => self.file_message() == Some(f@),
                None => self.file_message() is None,
            },
    {
        match &self.file {
            Some(f) => Some(f.clone()),
            None => None,
        }
    }

    /// Whether this error carries a parse error.
    pub fn is_parse(&self) -> (r: bool)
        ensures
            r == self.parse_error() is Some,
    {
        self.parse.is_some()
    }
}

/// The parser of pipe files.
pub struct Pipe {}

impl Pipe {
    /// The text with each fenced block replaced by the object that stands for it
    /// (`Pipe::parse_embedded`), `None` where taking a block apart fails.
    pub fn try_parse_embedded(content: String) -> (r: Option<String>)
        ensures
            match r {
                Some(out) => embed_ok(content@) && out@ == embed(content@),
                None => !embed_ok(content@),
            },
    {
        embed_text(content.as_str())
    }

    /// Replaces each fenced block by the object that stands for it.
    pub fn parse_embedded(content: String) -> (r: String)
        requires
            embed_ok(content@),
        ensures
            r@ == embed(content@),
    {
        match embed_text(content.as_str()) {
            Some(out) => out,
            None => String::new(),
        }
    }

    /// What is done to a pipe file before it is parsed: its fenced blocks are embedded.
    pub fn pre_parse(content: String) -> (r: String)
        requires
            embed_ok(content@),
        ensures
            r@ == embed(content@),
    {
        Self::parse_embedded(content)
    }

    /// What follows the grammar's parse of a pipe file: the value of its first tree, or
    /// `Undefined` when there is none, or the parse error.
    pub fn from_parse_result(parsed: Result<Option<ParseNode>, PestError<Rule>>) -> (r:
        Result<Value, Error>)
        requires
            parsed matches Ok(Some(n)) ==> parse_spec(n) is Some,
        ensures
            match parsed {
                Ok(Some(n)) => r matches Ok(v) && parse_spec(n) == Some(v.model()),
                Ok(None) => r matches Ok(v) && v.model() == ValueModel::Undefined,
                Err(e) => r matches Err(err) && err.parse_error() == Some(e)
                    && err.file_message() is None,
            },
    {
        match parsed {
            Ok(Some(n)) => match Self::try_parse(&n) {
                Some(v) => Ok(v),
                None => Ok(Value::Undefined),
            },
            Ok(None) => Ok(Value::Undefined),
            Err(e) => Err(Error::parse(e)),
        }
    }

    /// The value of a parse tree, `None` where the tree lacks the shape the walk relies on.
    pub fn try_parse(node: &ParseNode) -> (r: Option<Value>)
        ensures
            value_opt_model(r) == parse_spec(*node),
        decreases node, 0nat,
    {
        let cs = &node.children;
        match node.rule {
            Rule::sessions => match Self::sessions(cs) {
                Some(e) => Some(Value::Object(e)),
                None => None,
            },
            Rule::session_generic_config_content => if cs.len() > 0 {
                Self::try_parse(&cs[0])
            } else {
                Some(Value::Undefined)
            },
            Rule::session_pipeline_content | Rule::array | Rule::tag_args => {
                match Self::parse_range(cs, 0, cs.len()) {
                    Some(items) => {
                        assert(cs@.subrange(0, cs@.len() as int) =~= cs@);
                        Some(Value::Array(items))
                    },
                    None => {
                        assert(cs@.subrange(0, cs@.len() as int) =~= cs@);
                        None
                    },
                }
            },
            Rule::module => Self::module(cs),
            Rule::module_content => match Self::module_content(cs) {
                Some(e) => Some(Value::Object(e)),
                None => None,
            },
            Rule::attach | Rule::string | Rule::string_alt | Rule::string_interpolation => {
                if cs.len() > 0 {
                    Self::try_parse(&cs[0])
                } else {
                    None
                }
            },
            Rule::param_macro_content => if cs.len() > 0 {
                Self::try_parse(&cs[0])
            } else {
                let e: Vec<(String, Value)> = Vec::new();
                assert(entries_model(e@) =~= Seq::empty());
                Some(Value::Object(e))
            },
            Rule::common_content => match Self::common(cs) {
                Some(e) => Some(Value::Object(e)),
                None => None,
            },
            Rule::object => match Self::object(cs) {
                Some(e) => Some(Value::Object(e)),
                None => None,
            },
            Rule::number => Some(Value::Number(node.text.clone())),
            Rule::boolean => Some(Value::Boolean(node.text == String::from_str("true"))),
            Rule::string_content | Rule::string_content_alt | Rule::ident | Rule::reference => {
                Some(Value::String(node.text.clone()))
            },
            Rule::string_interpolation_content | Rule::object_interpolation => {
                Some(Value::Interpolation(Script::from_string(node.text.clone())))
            },
            Rule::interpolation => {
                let expr = String::from_str(trim_text(node.inner_text.as_str()));
                Some(Value::Interpolation(Script::from_interpolation(expr)))
            },
            Rule::tag => Self::tag(cs),
            Rule::null => Some(Value::Null),
            _ => Some(Value::Undefined),
        }
    }

    /// The sections of a pipe file, merged by name.
    fn sessions(cs: &Vec<ParseNode>) -> (r: Option<Vec<(String, Value)>>)
        ensures
            entries_opt_model(r) == sessions_fold(cs@),
        decreases cs@, 1nat,
    {
        let mut item: Vec<(String, Value)> = Vec::new();
        let mut i: usize = 0;
        assert(cs@.take(0) =~= Seq::<ParseNode>::empty());
        assert(entries_model(item@) =~= Seq::empty());
        while i < cs.len()
            invariant
                i <= cs@.len(),
                sessions_fold(cs@.take(i as int)) == Some(entries_model(item@)),
            decreases cs@.len() - i,
        {
            assert(cs@.take(i + 1).drop_last() =~= cs@.take(i as int));
            assert(cs@.take(i + 1).last() == cs@[i as int]);
            match Self::sessions_step(item, &cs[i]) {
                Some(next) => {
                    item = next;
                },
                None => {
                    proof {
                        lemma_sessions_none_extends(cs@, i + 1);
                    }
                    return None;
                },
            }
            i = i + 1;
        }
        assert(cs@.take(cs@.len() as int) =~= cs@);
        Some(item)
    }

    fn sessions_step(item: Vec<(String, Value)>, ch: &ParseNode) -> (r: Option<
        Vec<(String, Value)>,
    >)
        ensures
            entries_opt_model(r) == sessions_step(entries_model(item@), *ch),
        decreases ch, 1nat,
    {
        let mut item = item;
        let ghost e = entries_model(item@);
        let generic = ch.rule == Rule::session_generic_config;
        if !(generic || ch.rule == Rule::session_pipeline) {
            return Some(item);
        }
        let inner = &ch.children;
        if inner.len() < 2 {
            return None;
        }
        let name = inner[0].text.clone();
        let value = match Self::try_parse(&inner[1]) {
            Some(v) => v,
            None => {
                return None;
            },
        };
        match find_key(&item, &name) {
            None => {
                object_insert(&mut item, name, value);
                Some(item)
            },
            Some(pos) => {
                let (_, cur) = item.remove(pos);
                assert(e[pos as int].1 == cur.model());
                let updated = if generic {
                    let vo = match value.into_object() {
                        Some(o) => o,
                        None => {
                            return None;
                        },
                    };
                    match cur.merge_object(vo) {
                        Some(m) => m,
                        None => {
                            return None;
                        },
                    }
                } else {
                    let mut a = match cur.into_array() {
                        Some(a) => a,
                        None => {
                            return None;
                        },
                    };
                    let mut b = match value.into_array() {
                        Some(b) => b,
                        None => {
                            return None;
                        },
                    };
                    let ghost (a0, b0) = (a@, b@);
                    a.append(&mut b);
                    assert(values_model(a@) =~= values_model(a0) + values_model(b0));
                    Value::Array(a)
                };
                proof {
                    lemma_key_at(e, name@, pos as int, updated.model());
                }
                item.insert(pos, (name, updated));
                assert(entries_model(item@) =~= e.update(pos as int, (name@, updated.model())));
                Some(item)
            },
        }
    }

    /// A module step.
    fn module(cs: &Vec<ParseNode>) -> (r: Option<Value>)
        ensures
            value_opt_model(r) == module_spec(cs@),
        decreases cs@, 1nat,
    {
        if cs.len() < 2 {
            return None;
        }
        let module_name = Value::String(cs[0].text.clone());
        let attr2 = match Self::try_parse(&cs[1]) {
            Some(v) => v,
            None => {
                return None;
            },
        };
        let mut map: Vec<(String, Value)> = Vec::new();
        let ghost mn = module_name.model();
        map.push((String::from_str("module"), module_name));
        assert(entries_model(map@) =~= seq![("module"@, mn)]);
        let rest: usize;
        if attr2.is_object() {
            object_insert(&mut map, String::from_str("ref"), Value::Null);
            let params = match attr2.into_object() {
                Some(p) => p,
                None => {
                    return None;
                },
            };
            object_extend(&mut map, params);
            rest = 2;
        } else {
            if cs.len() < 3 {
                return None;
            }
            let params = match Self::try_parse(&cs[2]) {
                Some(p) => match p.into_object() {
                    Some(o) => o,
                    None => {
                        return None;
                    },
                },
                None => {
                    return None;
                },
            };
            object_insert(&mut map, String::from_str("ref"), attr2);
            object_extend(&mut map, params);
            rest = 3;
        }
        let tags = match Self::tags(cs, rest) {
            Some(t) => t,
            None => {
                return None;
            },
        };
        if tags.len() > 0 {
            object_insert(&mut map, String::from_str("___tags"), Value::Object(tags));
        }
        Some(Value::Object(map))
    }

    /// The tags `cs[start..]` of a module step.
    fn tags(cs: &Vec<ParseNode>, start: usize) -> (r: Option<Vec<(String, Value)>>)
        requires
            start <= cs@.len(),
        ensures
            entries_opt_model(r) == tags_fold(cs@.skip(start as int)),
        decreases cs@, 0nat,
    {
        let ghost s = cs@.skip(start as int);
        let mut tags: Vec<(String, Value)> = Vec::new();
        let mut i = start;
        assert(s.take(0) =~= Seq::<ParseNode>::empty());
        assert(entries_model(tags@) =~= Seq::empty());
        while i < cs.len()
            invariant
                start <= i <= cs@.len(),
                s == cs@.skip(start as int),
                tags_fold(s.take(i - start)) == Some(entries_model(tags@)),
            decreases cs@.len() - i,
        {
            let ghost j = i - start;
            assert(s.take(j + 1).drop_last() =~= s.take(j));
            assert(s.take(j + 1).last() == cs@[i as int]);
            let tag = match Self::try_parse(&cs[i]) {
                Some(t) => t.into_array(),
                None => None,
            };
            let mut tag = match tag {
                Some(t) => t,
                None => {
                    proof {
                        lemma_tags_none_extends(s, j + 1);
                    }
                    return None;
                },
            };
            if tag.len() < 2 {
                proof {
                    lemma_tags_none_extends(s, j + 1);
                }
                return None;
            }
            let key = match tag[0].to_string() {
                Some(k) => k,
                None => {
                    proof {
                        lemma_tags_none_extends(s, j + 1);
                    }
                    return None;
                },
            };
            let ghost t0 = tag@;
            let value = tag.remove(1);
            assert(values_model(t0)[1] == value.model());
            assert(values_model(t0)[0] == t0[0].model());
            object_insert(&mut tags, key, value);
            i = i + 1;
        }
        assert(s.take(cs@.len() - start) =~= s);
        Some(tags)
    }

    /// The body of a module step.
    fn module_content(cs: &Vec<ParseNode>) -> (r: Option<Vec<(String, Value)>>)
        ensures
            entries_opt_model(r) == module_content_fold(cs@),
        decreases cs@, 1nat,
    {
        let mut map: Vec<(String, Value)> = Vec::new();
        let mut i: usize = 0;
        assert(cs@.take(0) =~= Seq::<ParseNode>::empty());
        assert(entries_model(map@) =~= Seq::empty());
        while i < cs.len()
            invariant
                i <= cs@.len(),
                module_content_fold(cs@.take(i as int)) == Some(entries_model(map@)),
            decreases cs@.len() - i,
        {
            assert(cs@.take(i + 1).drop_last() =~= cs@.take(i as int));
            assert(cs@.take(i + 1).last() == cs@[i as int]);
            let ghost e = entries_model(map@);
            let value = match Self::try_parse(&cs[i]) {
                Some(v) => v,
                None => {
                    proof {
                        lemma_module_content_none_extends(cs@, i + 1);
                    }
                    return None;
                },
            };
            if cs[i].rule == Rule::attach {
                object_insert(&mut map, String::from_str("attach"), value);
            } else {
                let params_key = String::from_str("params");
                match find_key(&map, &params_key) {
                    Some(pos) => {
                        // the merged parameters are dropped: only their validity counts
                        let ok = value.is_object() && map[pos].1.is_object();
                        proof {
                            lemma_key_at(e, params_key@, pos as int, e[pos as int].1);
                            assert(e.update(pos as int, (params_key@, e[pos as int].1)) =~= e);
                        }
                        if !ok {
                            proof {
                                lemma_module_content_none_extends(cs@, i + 1);
                            }
                            return None;
                        }
                    },
                    None => {
                        object_insert(&mut map, params_key, value);
                    },
                }
            }
            i = i + 1;
        }
        assert(cs@.take(cs@.len() as int) =~= cs@);
        Some(map)
    }

    /// A block of parameters.
    fn common(cs: &Vec<ParseNode>) -> (r: Option<Vec<(String, Value)>>)
        ensures
            entries_opt_model(r) == common_fold(cs@),
        decreases cs@, 1nat,
    {
        let mut map: Vec<(String, Value)> = Vec::new();
        let mut i: usize = 0;
        assert(cs@.take(0) =~= Seq::<ParseNode>::empty());
        assert(entries_model(map@) =~= Seq::empty());
        while i < cs.len()
            invariant
                i <= cs@.len(),
                common_fold(cs@.take(i as int)) == Some(entries_model(map@)),
            decreases cs@.len() - i,
        {
            assert(cs@.take(i + 1).drop_last() =~= cs@.take(i as int));
            assert(cs@.take(i + 1).last() == cs@[i as int]);
            match Self::common_step(map, &cs[i]) {
                Some(next) => {
                    map = next;
                },
                None => {
                    proof {
                        lemma_common_none_extends(cs@, i + 1);
                    }
                    return None;
                },
            }
            i = i + 1;
        }
        assert(cs@.take(cs@.len() as int) =~= cs@);
        Some(map)
    }

    fn common_step(map: Vec<(String, Value)>, ch: &ParseNode) -> (r: Option<
        Vec<(String, Value)>,
    >)
        ensures
            entries_opt_model(r) == common_step(entries_model(map@), *ch),
        decreases ch, 1nat,
    {
        let mut map = map;
        let ghost e = entries_model(map@);
        let inner = &ch.children;
        if ch.rule == Rule::attach {
            if inner.len() == 0 {
                return None;
            }
            match Self::try_parse(&inner[0]) {
                Some(v) => {
                    object_insert(&mut map, String::from_str("attach"), v);
                    Some(map)
                },
                None => None,
            }
        } else if ch.rule == Rule::param {
            match Self::make_param(inner) {
                Some((k, v)) => {
                    object_insert(&mut map, k, v);
                    Some(map)
                },
                None => None,
            }
        } else if ch.rule == Rule::param_macro {
            let (name, value) = match Self::make_param_macro(inner) {
                Some(kv) => kv,
                None => {
                    return None;
                },
            };
            match find_key(&map, &name) {
                Some(pos) => {
                    let (_, cur) = map.remove(pos);
                    assert(e[pos as int].1 == cur.model());
                    let pushed = match cur.array_push(value) {
                        Some(p) => p,
                        None => {
                            return None;
                        },
                    };
                    proof {
                        lemma_key_at(e, name@, pos as int, pushed.model());
                    }
                    map.insert(pos, (name, pushed));
                    assert(entries_model(map@) =~= e.update(pos as int, (name@, pushed.model())));
                    Some(map)
                },
                None => {
                    let ghost vm = value.model();
                    let mut arr: Vec<Value> = Vec::new();
                    arr.push(value);
                    assert(values_model(arr@) =~= seq![vm]);
                    object_insert(&mut map, name, Value::Array(arr));
                    Some(map)
                },
            }
        } else {
            object_insert(&mut map, String::new(), Value::Undefined);
            Some(map)
        }
    }

    /// A parameter `key=value`, from the children of its node.
    fn make_param(cs: &Vec<ParseNode>) -> (r: Option<(String, Value)>)
        ensures
            match r {
                Some(kv) => make_param_spec(cs@) == Some((kv.0@, kv.1.model())),
                None => make_param_spec(cs@) is None,
            },
        decreases cs@, 1nat,
    {
        if cs.len() < 2 {
            return None;
        }
        let key = cs[0].text.clone();
        match Self::try_parse(&cs[1]) {
            Some(v) => Some((key, v)),
            None => None,
        }
    }

    /// A macro `name arg.. (params)`, from the children of its node.
    fn make_param_macro(cs: &Vec<ParseNode>) -> (r: Option<(String, Value)>)
        ensures
            match r {
                Some(kv) => make_param_macro_spec(cs@) == Some((kv.0@, kv.1.model())),
                None => make_param_macro_spec(cs@) is None,
            },
        decreases cs@, 1nat,
    {
        let total = cs.len();
        if total < 2 {
            return None;
        }
        let key = cs[0].text.clone();
        if total == 2 {
            return match Self::try_parse(&cs[1]) {
                Some(v) => Some((key, v)),
                None => None,
            };
        }
        let arg = if total == 3 {
            Self::try_parse(&cs[1])
        } else {
            match Self::parse_range(cs, 1, total - 1) {
                Some(list) => Some(Value::Array(list)),
                None => None,
            }
        };
        let arg = match arg {
            Some(a) => a,
            None => {
                return None;
            },
        };
        let params = match Self::try_parse(&cs[total - 1]) {
            Some(p) => p,
            None => {
                return None;
            },
        };
        let ghost am = arg.model();
        let mut map: Vec<(String, Value)> = Vec::new();
        map.push((key.clone(), arg));
        assert(entries_model(map@) =~= seq![(key@, am)]);
        match params.merge_object(map) {
            Some(merged) => Some((key, merged)),
            None => None,
        }
    }

    /// An object literal.
    fn object(cs: &Vec<ParseNode>) -> (r: Option<Vec<(String, Value)>>)
        ensures
            entries_opt_model(r) == object_fold(cs@),
        decreases cs@, 1nat,
    {
        let mut map: Vec<(String, Value)> = Vec::new();
        let mut i: usize = 0;
        assert(cs@.take(0) =~= Seq::<ParseNode>::empty());
        assert(entries_model(map@) =~= Seq::empty());
        while i < cs.len()
            invariant
                i <= cs@.len(),
                object_fold(cs@.take(i as int)) == Some(entries_model(map@)),
            decreases cs@.len() - i,
        {
            assert(cs@.take(i + 1).drop_last() =~= cs@.take(i as int));
            assert(cs@.take(i + 1).last() == cs@[i as int]);
            let pair = &cs[i].children;
            if pair.len() < 2 || pair[0].children.len() < 1 {
                proof {
                    lemma_object_none_extends(cs@, i + 1);
                }
                return None;
            }
            let key = pair[0].children[0].text.clone();
            match Self::try_parse(&pair[1]) {
                Some(v) => {
                    object_insert(&mut map, key, v);
                },
                None => {
                    proof {
                        lemma_object_none_extends(cs@, i + 1);
                    }
                    return None;
                },
            }
            i = i + 1;
        }
        assert(cs@.take(cs@.len() as int) =~= cs@);
        Some(map)
    }

    /// A tag `name(args..)`.
    fn tag(cs: &Vec<ParseNode>) -> (r: Option<Value>)
        ensures
            value_opt_model(r) == tag_spec(cs@),
        decreases cs@, 1nat,
    {
        if cs.len() == 0 {
            return None;
        }
        let key = match Self::try_parse(&cs[0]) {
            Some(k) => match k.to_string() {
                Some(t) => t,
                None => {
                    return None;
                },
            },
            None => {
                return None;
            },
        };
        let value: Vec<Value> = if cs.len() >= 2 {
            match Self::try_parse(&cs[1]) {
                Some(a) => match a.into_array() {
                    Some(items) => items,
                    None => {
                        return None;
                    },
                },
                None => {
                    return None;
                },
            }
        } else {
            let v: Vec<Value> = Vec::new();
            assert(values_model(v@) =~= Seq::empty());
            v
        };
        let ghost (km, vm) = (key@, values_model(value@));
        let mut list: Vec<Value> = Vec::new();
        list.push(Value::String(key));
        list.push(Value::Array(value));
        assert(values_model(list@) =~= seq![ValueModel::String(km), ValueModel::Array(vm)]);
        Some(Value::Array(list))
    }

    /// The values of `cs[lo..hi]`, all of which must parse.
    fn parse_range(cs: &Vec<ParseNode>, lo: usize, hi: usize) -> (r: Option<Vec<Value>>)
        requires
            lo <= hi <= cs@.len(),
        ensures
            values_opt_model(r) == parse_all(cs@.subrange(lo as int, hi as int)),
        decreases cs@, 0nat,
    {
        let ghost s = cs@.subrange(lo as int, hi as int);
        let mut list: Vec<Value> = Vec::new();
        let mut i = lo;
        assert(s.take(0) =~= Seq::<ParseNode>::empty());
        assert(values_model(list@) =~= Seq::empty());
        while i < hi
            invariant
                lo <= i <= hi <= cs@.len(),
                s == cs@.subrange(lo as int, hi as int),
                parse_all(s.take(i - lo)) == Some(values_model(list@)),
            decreases hi - i,
        {
            let ghost j = i - lo;
            assert(s.take(j + 1).drop_last() =~= s.take(j));
            assert(s.take(j + 1).last() == cs@[i as int]);
            match Self::try_parse(&cs[i]) {
                Some(v) => {
                    let ghost before = list@;
                    list.push(v);
                    assert(values_model(list@) =~= values_model(before).push(v.model()));
                },
                None => {
                    proof {
                        lemma_parse_all_none_extends(s, j + 1);
                    }
                    return None;
                },
            }
            i = i + 1;
        }
        assert(s.take(hi - lo) =~= s);
        Some(list)
    }
}

} // verus!
