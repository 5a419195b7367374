use vstd::prelude::*;

use crate::embed::{chars_of, push_char, push_range};

use crate::assoc::{
    entries_extend, entries_get, entries_insert, find_entry, has_key, is_first_key, key_pos,
    keys_unique, lemma_first_key_exists, lemma_first_key_unique, lemma_key_at,
};

verus! {

/// What a script was written as: a template text with `${..}` holes, or one expression.
#[derive(Clone, Copy, Debug, PartialEq, Eq, Structural)]
pub enum ScriptKind {
    Template,
    Expression,
}

/// A script of a pipe file, kept as its source text.
#[derive(Debug, PartialEq)]
pub struct Script {
    pub kind: ScriptKind,
    pub source: String,
}

/// The value of a pipe file or of a part of it. The objects the library builds hold each key
/// once, in the order the keys first came.
#[derive(Debug, PartialEq)]
pub enum Value {
    Object(Vec<(String, Value)>),
    Array(Vec<Value>),
    String(String),
    Number(String),
    Boolean(bool),
    Interpolation(Script),
    Null,
    Undefined,
}

/// What a value stands for.
pub enum ValueModel {
    Object(Seq<(Seq<char>, ValueModel)>),
    Array(Seq<ValueModel>),
    String(Seq<char>),
    Number(Seq<char>),
    Boolean(bool),
    Interpolation(ScriptKind, Seq<char>),
    Null,
    Undefined,
}

impl Value {
    /// What this value stands for.
    pub open spec fn model(&self) -> ValueModel
        decreases self,
    {
        match self {
            Value::Object(entries) => ValueModel::Object(entries_model(entries@)),
            Value::Array(items) => ValueModel::Array(values_model(items@)),
            Value::String(s) => ValueModel::String(s@),
            Value::Number(s) => ValueModel::Number(s@),
            Value::Boolean(b) => ValueModel::Boolean(*b),
            Value::Interpolation(sc) => ValueModel::Interpolation(sc.kind, sc.source@),
            Value::Null => ValueModel::Null,
            Value::Undefined => ValueModel::Undefined,
        }
    }
}

/// What the entries of an object stand for.
pub open spec fn entries_model(s: Seq<(String, Value)>) -> Seq<(Seq<char>, ValueModel)>
    decreases s,
{
    Seq::new(
        s.len(),
        |i: int|
            if 0 <= i < s.len() {
                (s[i].0@, s[i].1.model())
            } else {
                (Seq::empty(), ValueModel::Undefined)
            },
    )
}

/// What the items of an array stand for.
pub open spec fn values_model(s: Seq<Value>) -> Seq<ValueModel>
    decreases s,
{
    Seq::new(s.len(), |i: int| if 0 <= i < s.len() { s[i].model() } else { ValueModel::Undefined })
}

/// Entries of an object model, in insertion order.
pub type Entries = Seq<(Seq<char>, ValueModel)>;

/// Every object, at any depth, holds each key once.
pub open spec fn model_wf(v: ValueModel) -> bool
    decreases v,
{
    match v {
        ValueModel::Object(e) => keys_unique(e) && forall|i: int|
            0 <= i < e.len() ==> model_wf(#[trigger] e[i].1),
        ValueModel::Array(a) => forall|i: int| 0 <= i < a.len() ==> model_wf(#[trigger] a[i]),
        _ => true,
    }
}

pub open spec fn entries_wf(e: Entries) -> bool {
    keys_unique(e) && forall|i: int| 0 <= i < e.len() ==> model_wf(#[trigger] e[i].1)
}

pub open spec fn values_wf(a: Seq<ValueModel>) -> bool {
    forall|i: int| 0 <= i < a.len() ==> model_wf(#[trigger] a[i])
}

/// Two values mean the same: objects have the same keys and the same values under them,
/// whatever the order of their entries (the first entry of a key counts); arrays agree item by
/// item; other values are equal.
pub open spec fn same_value(a: ValueModel, b: ValueModel) -> bool
    decreases a,
{
    match a {
        ValueModel::Object(e) => match b {
            ValueModel::Object(f) => {
                &&& forall|j: int| 0 <= j < f.len() ==> has_key(e, #[trigger] f[j].0)
                &&& forall|i: int|
                    0 <= i < e.len() ==> {
                        &&& has_key(f, #[trigger] e[i].0)
                        &&& is_first_key(e, e[i].0, i) ==> same_value(
                            e[i].1,
                            entries_get(f, e[i].0).unwrap(),
                        )
                    }
            },
            _ => false,
        },
        ValueModel::Array(x) => match b {
            ValueModel::Array(y) => x.len() == y.len() && forall|i: int|
                0 <= i < x.len() ==> same_value(#[trigger] x[i], y[i]),
            _ => false,
        },
        _ => a == b,
    }
}

pub proof fn lemma_insert_wf(e: Entries, k: Seq<char>, v: ValueModel)
    requires
        entries_wf(e),
        model_wf(v),
    ensures
        entries_wf(entries_insert(e, k, v)),
{
    let f = entries_insert(e, k, v);
    if has_key(e, k) {
        lemma_first_key_exists(e, k);
        let p = key_pos(e, k);
        assert forall|i: int, j: int| 0 <= i < j < f.len() implies f[i].0 != f[j].0 by {
            assert(f[i].0 == e[i].0);
            assert(f[j].0 == e[j].0);
        }
        assert forall|i: int| 0 <= i < f.len() implies model_wf(#[trigger] f[i].1) by {
            if i != p {
                assert(f[i] == e[i]);
            }
        }
    } else {
        assert forall|i: int, j: int| 0 <= i < j < f.len() implies f[i].0 != f[j].0 by {
            if j == e.len() {
                assert(e[i].0 == f[i].0);
            } else {
                assert(f[i] == e[i]);
                assert(f[j] == e[j]);
            }
        }
        assert forall|i: int| 0 <= i < f.len() implies model_wf(#[trigger] f[i].1) by {
            if i < e.len() {
                assert(f[i] == e[i]);
            }
        }
    }
}

pub proof fn lemma_extend_wf(e: Entries, f: Entries)
    requires
        entries_wf(e),
        forall|i: int| 0 <= i < f.len() ==> model_wf(#[trigger] f[i].1),
    ensures
        entries_wf(entries_extend(e, f)),
    decreases f.len(),
{
    if f.len() > 0 {
        let g = f.drop_last();
        assert forall|i: int| 0 <= i < g.len() implies model_wf(#[trigger] g[i].1) by {
            assert(g[i] == f[i]);
        }
        lemma_extend_wf(e, g);
        assert(model_wf(f[f.len() - 1].1));
        lemma_insert_wf(entries_extend(e, g), f.last().0, f.last().1);
    }
}

pub proof fn lemma_merge_wf(cur: ValueModel, other: Entries)
    requires
        model_wf(cur),
        forall|i: int| 0 <= i < other.len() ==> model_wf(#[trigger] other[i].1),
    ensures
        cur.merge_object(other) matches Some(m) ==> model_wf(m),
{
    if let ValueModel::Object(e) = cur {
        lemma_extend_wf(e, other);
    }
}

pub proof fn lemma_single_entry_wf(k: Seq<char>, v: ValueModel)
    requires
        model_wf(v),
    ensures
        entries_wf(seq![(k, v)]),
{
    assert(seq![(k, v)][0] == (k, v));
}

pub proof fn lemma_get_wf(e: Entries, k: Seq<char>)
    requires
        entries_wf(e),
    ensures
        entries_get(e, k) matches Some(v) ==> model_wf(v),
{
    if has_key(e, k) {
        lemma_first_key_exists(e, k);
    }
}

impl ValueModel {
    pub open spec fn is_object(self) -> bool {
        self is Object
    }

    /// The merge of an object with further entries, which win over its own.
    pub open spec fn merge_object(self, other: Entries) -> Option<ValueModel> {
        match self {
            ValueModel::Object(e) => Some(ValueModel::Object(entries_extend(e, other))),
            _ => None,
        }
    }

    pub open spec fn to_object(self) -> Option<Entries> {
        match self {
            ValueModel::Object(e) => Some(e),
            _ => None,
        }
    }

    pub open spec fn to_array(self) -> Option<Seq<ValueModel>> {
        match self {
            ValueModel::Array(a) => Some(a),
            _ => None,
        }
    }

    /// The text of a string, or the script text of an interpolation.
    pub open spec fn to_text(self) -> Option<Seq<char>> {
        match self {
            ValueModel::String(s) => Some(s),
            ValueModel::Interpolation(kind, source) => Some(script_text(kind, source)),
            _ => None,
        }
    }

    pub open spec fn to_boolean(self) -> Option<bool> {
        match self {
            ValueModel::Boolean(b) => Some(b),
            _ => None,
        }
    }

    pub open spec fn array_push(self, v: ValueModel) -> Option<ValueModel> {
        match self {
            ValueModel::Array(a) => Some(ValueModel::Array(a.push(v))),
            _ => None,
        }
    }
}

/// The first `}` at or after `i`.
pub open spec fn hole_end(s: Seq<char>, i: int) -> Option<int>
    decreases s.len() - i,
{
    if i < 0 || i >= s.len() {
        None
    } else if s[i] == '}' {
        Some(i)
    } else {
        hole_end(s, i + 1)
    }
}

/// How a template writes a character outside its holes: a quote is escaped, a back quote
/// becomes a quote.
pub open spec fn quote_char(c: char) -> Seq<char> {
    if c == '"' {
        seq!['\\', '"']
    } else if c == '`' {
        seq!['"']
    } else {
        seq![c]
    }
}

/// What opens the expression of a hole in the script text: `\"+(`.
pub open spec fn hole_open() -> Seq<char> {
    seq!['\\', '"', '+', '(']
}

/// What closes the expression of a hole in the script text: `)+\"`.
pub open spec fn hole_close() -> Seq<char> {
    seq![')', '+', '\\', '"']
}

/// `${` at `i`, closed by a later `}`.
pub open spec fn hole_at(s: Seq<char>, i: int) -> bool {
    &&& 0 <= i
    &&& i + 1 < s.len()
    &&& s[i] == '$'
    &&& s[i + 1] == '{'
    &&& hole_end(s, i + 2) is Some
}

/// The script text of a template from position `i` on: each hole `${e}` becomes
/// `\"+(e)+\"`, and the text around the holes is written by `quote_char`.
pub open spec fn template_from(s: Seq<char>, i: int) -> Seq<char>
    decreases s.len() - i,
{
    if i < 0 || i >= s.len() {
        Seq::empty()
    } else if hole_at(s, i) {
        let j = hole_end(s, i + 2).unwrap();
        if i + 2 <= j < s.len() {
            hole_open() + s.subrange(i + 2, j) + hole_close() + template_from(s, j + 1)
        } else {
            Seq::empty()
        }
    } else {
        quote_char(s[i]) + template_from(s, i + 1)
    }
}

/// The script text of a script: a template converted, an expression as it is.
pub open spec fn script_text(kind: ScriptKind, source: Seq<char>) -> Seq<char> {
    match kind {
        ScriptKind::Template => template_from(source, 0),
        ScriptKind::Expression => source,
    }
}

pub proof fn lemma_hole_end(s: Seq<char>, i: int)
    requires
        0 <= i,
    ensures
        hole_end(s, i) matches Some(j) ==> i <= j < s.len() && s[j] == '}' && forall|k: int|
            i <= k < j ==> s[k] != '}',
        hole_end(s, i) is None ==> forall|k: int| i <= k < s.len() ==> s[k] != '}',
    decreases s.len() - i,
{
    if i < s.len() && s[i] != '}' {
        lemma_hole_end(s, i + 1);
    }
}

/// `a` ends outside any hole: no `$` ends it, and every `${` in it is closed in it.
pub open spec fn holes_closed(a: Seq<char>) -> bool {
    forall|i: int|
        0 <= i < a.len() && #[trigger] a[i] == '$' ==> i + 1 < a.len() && (a[i + 1] == '{'
            ==> hole_end(a, i + 2) is Some)
}

proof fn lemma_hole_end_prefix(a: Seq<char>, b: Seq<char>, x: int)
    requires
        0 <= x,
    ensures
        hole_end(a, x) is Some ==> hole_end(a + b, x) == hole_end(a, x),
    decreases a.len() - x,
{
    if x < a.len() {
        assert((a + b)[x] == a[x]);
        lemma_hole_end_prefix(a, b, x + 1);
    }
}

proof fn lemma_hole_end_shift(a: Seq<char>, b: Seq<char>, x: int)
    requires
        0 <= x,
    ensures
        hole_end(a + b, a.len() + x) == match hole_end(b, x) {
            Some(j) => Some(a.len() + j),
            None => None,
        },
    decreases b.len() - x,
{
    if x < b.len() {
        assert((a + b)[a.len() + x] == b[x]);
        lemma_hole_end_shift(a, b, x + 1);
    }
}

proof fn lemma_template_shift(a: Seq<char>, b: Seq<char>, x: int)
    requires
        0 <= x <= b.len(),
    ensures
        template_from(a + b, a.len() + x) == template_from(b, x),
    decreases b.len() - x,
{
    let s = a + b;
    let n = a.len() as int;
    if x < b.len() {
        assert(s[n + x] == b[x]);
        if x + 1 < b.len() {
            assert(s[n + x + 1] == b[x + 1]);
        }
        lemma_hole_end_shift(a, b, x + 2);
        lemma_hole_end(b, x + 2);
        if hole_at(b, x) {
            let j = hole_end(b, x + 2).unwrap();
            lemma_template_shift(a, b, j + 1);
            assert(s.subrange(n + x + 2, n + j) =~= b.subrange(x + 2, j));
        } else {
            lemma_template_shift(a, b, x + 1);
        }
    }
}

proof fn lemma_template_concat_from(a: Seq<char>, b: Seq<char>, i: int)
    requires
        holes_closed(a),
        0 <= i <= a.len(),
    ensures
        template_from(a + b, i) == template_from(a, i) + template_from(b, 0),
    decreases a.len() - i,
{
    let s = a + b;
    if i == a.len() {
        lemma_template_shift(a, b, 0);
        assert(template_from(a, i) =~= Seq::<char>::empty());
        assert(template_from(b, 0) =~= Seq::<char>::empty() + template_from(b, 0));
    } else {
        assert(s[i] == a[i]);
        lemma_hole_end(a, i + 2);
        lemma_hole_end_prefix(a, b, i + 2);
        if a[i] == '$' {
            assert(i + 1 < a.len());
            assert(s[i + 1] == a[i + 1]);
        }
        if hole_at(a, i) {
            let j = hole_end(a, i + 2).unwrap();
            assert(hole_at(s, i));
            lemma_template_concat_from(a, b, j + 1);
            assert(s.subrange(i + 2, j) =~= a.subrange(i + 2, j));
            assert(template_from(s, i) =~= template_from(a, i) + template_from(b, 0));
        } else {
            assert(!hole_at(s, i));
            lemma_template_concat_from(a, b, i + 1);
            assert(template_from(s, i) =~= template_from(a, i) + template_from(b, 0));
        }
    }
}

/// The script text of a template is made piece by piece: where `a` ends outside any hole, the
/// script text of `a + b` is that of `a` followed by that of `b`.
pub proof fn law_template_concat(a: Seq<char>, b: Seq<char>)
    requires
        holes_closed(a),
    ensures
        template_from(a + b, 0) == template_from(a, 0) + template_from(b, 0),
{
    lemma_template_concat_from(a, b, 0);
}

/// A hole `${e}` becomes `\"+(e)+\"`.
pub proof fn law_template_hole(e: Seq<char>)
    requires
        forall|i: int| 0 <= i < e.len() ==> e[i] != '}',
    ensures
        template_from(seq!['$', '{'] + e + seq!['}'], 0) == seq!['\\', '"', '+', '('] + e + seq![
            ')',
            '+',
            '\\',
            '"',
        ],
{
    let s = seq!['$', '{'] + e + seq!['}'];
    let n = s.len() - 1;
    assert(s[0] == '$' && s[1] == '{' && s[n] == '}');
    lemma_hole_end(s, 2);
    assert forall|k: int| 2 <= k < n implies s[k] != '}' by {
        assert(s[k] == e[k - 2]);
    }
    assert(hole_end(s, 2) == Some(n)) by {
        if let Some(j) = hole_end(s, 2) {
            if j < n {
                assert(s[j] == e[j - 2]);
            }
        } else {
            assert(s[n] == '}');
        }
    }
    assert(s.subrange(2, n) =~= e);
    assert(template_from(s, n + 1) =~= Seq::<char>::empty());
    assert(template_from(s, 0) =~= seq!['\\', '"', '+', '('] + e + seq![')', '+', '\\', '"']);
}

/// Outside holes a template writes a quote as `\"`, a back quote as a quote, and any other
/// character but `$` as it is.
pub proof fn law_template_char(c: char)
    requires
        c != '$',
    ensures
        template_from(seq![c], 0) == if c == '"' {
            seq!['\\', '"']
        } else if c == '`' {
            seq!['"']
        } else {
            seq![c]
        },
{
    assert(template_from(seq![c], 1) =~= Seq::<char>::empty());
    assert(template_from(seq![c], 0) =~= quote_char(c) + Seq::<char>::empty());
}

/// The script text of a template.
fn template_script(source: &str) -> (r: String)
    ensures
        r@ == template_from(source@, 0),
{
    let cs = chars_of(source);
    let ghost s = cs@;
    let n = cs.len();
    let mut out = String::new();
    let mut i: usize = 0;
    while i < n
        invariant
            n == cs@.len(),
            s == cs@,
            i <= n,
            out@ + template_from(s, i as int) == template_from(s, 0),
        decreases n - i,
    {
        let ghost before = out@;
        if cs[i] == '$' && i + 1 < n && cs[i + 1] == '{' {
            // look for the `}` that closes the hole
            let mut k = i + 2;
            proof {
                lemma_hole_end(s, i + 2);
            }
            while k < n && cs[k] != '}'
                invariant
                    n == cs@.len(),
                    s == cs@,
                    i + 2 <= k <= n,
                    hole_end(s, i + 2) == hole_end(s, k as int),
                decreases n - k,
            {
                k = k + 1;
            }
            if k < n {
                assert(hole_at(s, i as int));
                push_char(&mut out, '\\');
                push_char(&mut out, '"');
                push_char(&mut out, '+');
                push_char(&mut out, '(');
                push_range(&mut out, &cs, i + 2, k);
                push_char(&mut out, ')');
                push_char(&mut out, '+');
                push_char(&mut out, '\\');
                push_char(&mut out, '"');
                assert(out@ =~= before + hole_open() + s.subrange(i + 2, k as int) + hole_close());
                assert(out@ + template_from(s, k + 1) =~= before + template_from(s, i as int));
                i = k + 1;
                continue;
            }
            assert(!hole_at(s, i as int));
        }
        let c = cs[i];
        if c == '"' {
            push_char(&mut out, '\\');
            push_char(&mut out, '"');
        } else if c == '`' {
            push_char(&mut out, '"');
        } else {
            push_char(&mut out, c);
        }
        assert(out@ =~= before + quote_char(c));
        assert(out@ + template_from(s, i + 1) =~= before + template_from(s, i as int));
        i = i + 1;
    }
    assert(out@ =~= template_from(s, 0));
    out
}

pub open spec fn value_opt_model(r: Option<Value>) -> Option<ValueModel> {
    match r {
        Some(v) => Some(v.model()),
        None => None,
    }
}

pub open spec fn entries_opt_model(r: Option<Vec<(String, Value)>>) -> Option<Entries> {
    match r {
        Some(e) => Some(entries_model(e@)),
        None => None,
    }
}

pub open spec fn values_opt_model(r: Option<Vec<Value>>) -> Option<Seq<ValueModel>> {
    match r {
        Some(a) => Some(values_model(a@)),
        None => None,
    }
}

impl Script {
    /// A script built from template text such as a back-quoted string.
    pub fn from_string(raw: String) -> (r: Script)
        ensures
            r.kind == ScriptKind::Template,
            r.source@ == raw@,
    {
        Script { kind: ScriptKind::Template, source: raw }
    }

    /// The script text: for a template, its holes `${e}` become `\"+(e)+\"`, its quotes are
    /// escaped and its back quotes become quotes; an expression is its own script text.
    pub fn to_script(&self) -> (r: String)
        ensures
            r@ == script_text(self.kind, self.source@),
    {
        match self.kind {
            ScriptKind::Template => template_script(self.source.as_str()),
            ScriptKind::Expression => self.source.clone(),
        }
    }

    /// A script built from the expression inside `${..}`.
    pub fn from_interpolation(expr: String) -> (r: Script)
        ensures
            r.kind == ScriptKind::Expression,
            r.source@ == expr@,
    {
        Script { kind: ScriptKind::Expression, source: expr }
    }
}

/// Position of the first entry with key `key`, if any.
pub fn find_key(entries: &Vec<(String, Value)>, key: &String) -> (r: Option<usize>)
    ensures
        match r {
            Some(i) => is_first_key(entries_model(entries@), key@, i as int),
            None => !has_key(entries_model(entries@), key@),
        },
{
    let ghost e = entries_model(entries@);
    let r = find_entry(entries, key);
    assert forall|j: int| 0 <= j < entries@.len() implies e[j].0 == entries@[j].0@ by {}
    r
}

/// Inserts `value` under `key`: an existing key keeps its place, a new one is appended.
pub fn object_insert(entries: &mut Vec<(String, Value)>, key: String, value: Value)
    ensures
        entries_model(final(entries)@) == entries_insert(
            entries_model(old(entries)@),
            key@,
            value.model(),
        ),
{
    let ghost e = entries_model(entries@);
    let ghost k = key@;
    let ghost vm = value.model();
    match find_key(entries, &key) {
        Some(i) => {
            proof {
                lemma_key_at(e, k, i as int, vm);
            }
            entries.set(i, (key, value));
            assert(entries_model(entries@) =~= e.update(i as int, (k, vm)));
        },
        None => {
            entries.push((key, value));
            assert(entries_model(entries@) =~= e.push((k, vm)));
        },
    }
}

/// Inserts every entry of `other`, in order.
pub fn object_extend(entries: &mut Vec<(String, Value)>, other: Vec<(String, Value)>)
    ensures
        entries_model(final(entries)@) == entries_extend(
            entries_model(old(entries)@),
            entries_model(other@),
        ),
{
    let ghost e0 = entries_model(entries@);
    let ghost f = entries_model(other@);
    let ghost n = other@.len();
    let mut rest = other;
    while rest.len() > 0
        invariant
            n == f.len(),
            rest@.len() <= n,
            entries_model(rest@) == f.skip(n - rest@.len()),
            entries_model(entries@) == entries_extend(e0, f.take(n - rest@.len())),
        decreases rest@.len(),
    {
        let ghost done = n - rest@.len();
        let ghost before = rest@;
        let (k, v) = rest.remove(0);
        assert(f[done] == (k@, v.model())) by {
            assert(entries_model(before)[0] == f.skip(done)[0]);
        }
        assert(entries_model(rest@) =~= f.skip(done + 1)) by {
            assert forall|i: int| 0 <= i < rest@.len() implies entries_model(rest@)[i] == f.skip(done + 1)[i] by {
                assert(rest@[i] == before[i + 1]);
                assert(entries_model(before)[i + 1] == f.skip(done)[i + 1]);
            }
        }
        object_insert(entries, k, v);
        assert(f.take(done + 1).drop_last() =~= f.take(done));
    }
    assert(f.take(n as int) =~= f);
}

impl Value {
    pub fn is_object(&self) -> (r: bool)
        ensures
            r == self.model().is_object(),
    {
        match self {
            Value::Object(_) => true,
            _ => false,
        }
    }

    /// The entries of an object, `None` for any other value.
    pub fn into_object(self) -> (r: Option<Vec<(String, Value)>>)
        ensures
            match r {
                Some(e) => self.model().to_object() == Some(entries_model(e@)),
                None => self.model().to_object() is None,
            },
    {
        match self {
            Value::Object(e) => Some(e),
            _ => None,
        }
    }

    /// The items of an array, `None` for any other value.
    pub fn into_array(self) -> (r: Option<Vec<Value>>)
        ensures
            match r {
                Some(a) => self.model().to_array() == Some(values_model(a@)),
                None => self.model().to_array() is None,
            },
    {
        match self {
            Value::Array(a) => Some(a),
            _ => None,
        }
    }

    /// The text of a string, or the script text of an interpolation; `None` for any other
    /// value.
    pub fn to_string(&self) -> (r: Option<String>)
        ensures
            match r {
                Some(s) => self.model().to_text() == Some(s@),
                None => self.model().to_text() is None,
            },
    {
        match self {
            Value::String(s) => Some(s.clone()),
            Value::Interpolation(sc) => Some(sc.to_script()),
            _ => None,
        }
    }

    /// The flag of a boolean, `None` for any other value.
    pub fn to_boolean(&self) -> (r: Option<bool>)
        ensures
            r == self.model().to_boolean(),
    {
        match self {
            Value::Boolean(b) => Some(*b),
            _ => None,
        }
    }

    /// An object with the entries of `other` inserted in order; `None` when `self` is no object.
    pub fn merge_object(self, other: Vec<(String, Value)>) -> (r: Option<Value>)
        ensures
            match r {
                Some(v) => self.model().merge_object(entries_model(other@)) == Some(v.model()),
                None => self.model().merge_object(entries_model(other@)) is None,
            },
    {
        match self {
            Value::Object(e) => {
                let mut e = e;
                object_extend(&mut e, other);
                Some(Value::Object(e))
            },
            _ => None,
        }
    }

    /// An array with `item` appended; `None` when `self` is no array.
    pub fn array_push(self, item: Value) -> (r: Option<Value>)
        ensures
            match r {
                Some(v) => self.model().array_push(item.model()) == Some(v.model()),
                None => self.model().array_push(item.model()) is None,
            },
    {
        match self {
            Value::Array(a) => {
                let mut a = a;
                let ghost a0 = a@;
                a.push(item);
                assert(values_model(a@) =~= values_model(a0).push(item.model()));
                Some(Value::Array(a))
            },
            _ => None,
        }
    }
}

impl Value {
    /// Whether the two values mean the same (`same_value`): objects compare as maps.
    pub fn same_as(&self, other: &Value) -> (r: bool)
        ensures
            r == same_value(self.model(), other.model()),
        decreases self, 1nat,
    {
        match self {
            Value::Object(e) => match other {
                Value::Object(f) => Self::same_entries(e, f),
                _ => false,
            },
            Value::Array(x) => match other {
                Value::Array(y) => Self::same_items(x, y),
                _ => false,
            },
            Value::String(a) => match other {
                Value::String(b) => *a == *b,
                _ => false,
            },
            Value::Number(a) => match other {
                Value::Number(b) => *a == *b,
                _ => false,
            },
            Value::Boolean(a) => match other {
                Value::Boolean(b) => *a == *b,
                _ => false,
            },
            Value::Interpolation(a) => match other {
                Value::Interpolation(b) => a.kind == b.kind && a.source == b.source,
                _ => false,
            },
            Value::Null => match other {
                Value::Null => true,
                _ => false,
            },
            Value::Undefined => match other {
                Value::Undefined => true,
                _ => false,
            },
        }
    }

    fn same_items(x: &Vec<Value>, y: &Vec<Value>) -> (r: bool)
        ensures
            r == same_value(ValueModel::Array(values_model(x@)), ValueModel::Array(values_model(y@))),
        decreases x@, 0nat,
    {
        if x.len() != y.len() {
            return false;
        }
        let ghost (xm, ym) = (values_model(x@), values_model(y@));
        let mut i: usize = 0;
        while i < x.len()
            invariant
                x@.len() == y@.len(),
                i <= x@.len(),
                xm == values_model(x@),
                ym == values_model(y@),
                forall|k: int| 0 <= k < i ==> same_value(#[trigger] xm[k], ym[k]),
            decreases x@.len() - i,
        {
            if !x[i].same_as(&y[i]) {
                assert(!same_value(xm[i as int], ym[i as int]));
                return false;
            }
            i = i + 1;
        }
        true
    }

    fn same_entries(e: &Vec<(String, Value)>, f: &Vec<(String, Value)>) -> (r: bool)
        ensures
            r == same_value(
                ValueModel::Object(entries_model(e@)),
                ValueModel::Object(entries_model(f@)),
            ),
        decreases e@, 0nat,
    {
        let ghost em = entries_model(e@);
        let ghost fm = entries_model(f@);
        // every key of `f` is a key of `e`
        let mut j: usize = 0;
        while j < f.len()
            invariant
                j <= f@.len(),
                em == entries_model(e@),
                fm == entries_model(f@),
                forall|k: int| 0 <= k < j ==> has_key(em, #[trigger] fm[k].0),
            decreases f@.len() - j,
        {
            assert(fm[j as int].0 == f@[j as int].0@);
            if find_key(e, &f[j].0).is_none() {
                return false;
            }
            j = j + 1;
        }
        // every key of `e` is a key of `f`, with the same value
        let mut i: usize = 0;
        while i < e.len()
            invariant
                i <= e@.len(),
                em == entries_model(e@),
                fm == entries_model(f@),
                forall|k: int| 0 <= k < f@.len() ==> has_key(em, #[trigger] fm[k].0),
                forall|k: int|
                    0 <= k < i ==> {
                        &&& has_key(fm, #[trigger] em[k].0)
                        &&& is_first_key(em, em[k].0, k) ==> same_value(
                            em[k].1,
                            entries_get(fm, em[k].0).unwrap(),
                        )
                    },
            decreases e@.len() - i,
        {
            assert(em[i as int].0 == e@[i as int].0@);
            assert(em[i as int].1 == e@[i as int].1.model());
            let key = &e[i].0;
            match find_key(f, key) {
                None => {
                    return false;
                },
                Some(pos) => {
                    proof {
                        lemma_key_at(fm, key@, pos as int, fm[pos as int].1);
                    }
                    assert(fm[pos as int].1 == f@[pos as int].1.model());
                    let first = find_key(e, key);
                    if first == Some(i) {
                        if !e[i].1.same_as(&f[pos].1) {
                            return false;
                        }
                    } else {
                        assert(!is_first_key(em, em[i as int].0, i as int)) by {
                            if is_first_key(em, em[i as int].0, i as int) {
                                let q = first.unwrap();
                                lemma_first_key_unique(em, key@, i as int, q as int);
                            }
                        }
                    }
                },
            }
            i = i + 1;
        }
        true
    }
}

} // verus!
