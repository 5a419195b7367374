use pipe::parser::Pipe;
use pipe::tree::{ParseNode, Rule};
use pipe::value::{Script, ScriptKind, Value};

fn node(rule: Rule, text: &str, children: Vec<ParseNode>) -> ParseNode {
    ParseNode { rule, text: text.to_string(), inner_text: String::new(), children }
}

fn leaf(rule: Rule, text: &str) -> ParseNode {
    node(rule, text, Vec::new())
}

fn ident(text: &str) -> ParseNode {
    leaf(Rule::ident, text)
}

fn string(text: &str) -> ParseNode {
    node(Rule::string, text, vec![leaf(Rule::string_content, text)])
}

fn get<'a>(v: &'a Value, key: &str) -> &'a Value {
    match v {
        Value::Object(entries) => &entries.iter().find(|(k, _)| k == key).expect("key").1,
        _ => panic!("not an object: {:?}", v),
    }
}

fn items(v: &Value) -> &Vec<Value> {
    match v {
        Value::Array(a) => a,
        _ => panic!("not an array: {:?}", v),
    }
}

fn keys(v: &Value) -> Vec<String> {
    match v {
        Value::Object(entries) => entries.iter().map(|(k, _)| k.clone()).collect(),
        _ => panic!("not an object: {:?}", v),
    }
}

fn s(text: &str) -> Value {
    Value::String(text.to_string())
}

fn n(text: &str) -> Value {
    Value::Number(text.to_string())
}

/// `import { module 1 [1.5] {"item": true} false "name" ( item=false ) }`
fn macro_tree() -> ParseNode {
    let object = node(
        Rule::object,
        "{\"item\": true}",
        vec![node(
            Rule::other,
            "\"item\": true",
            vec![node(Rule::other, "\"item\"", vec![leaf(Rule::string_content, "item")]), leaf(Rule::boolean, "true")],
        )],
    );
    let params = node(
        Rule::param_macro_content,
        "( item=false )",
        vec![node(
            Rule::common_content,
            "item=false",
            vec![node(Rule::param, "item=false", vec![ident("item"), leaf(Rule::boolean, "false")])],
        )],
    );
    let mac = node(
        Rule::param_macro,
        "module ...",
        vec![
            ident("module"),
            leaf(Rule::number, "1"),
            node(Rule::array, "[1.5]", vec![leaf(Rule::number, "1.5")]),
            object,
            leaf(Rule::boolean, "false"),
            string("name"),
            params,
        ],
    );
    let config = node(
        Rule::session_generic_config,
        "import {...}",
        vec![
            ident("import"),
            node(Rule::session_generic_config_content, "{...}", vec![node(Rule::common_content, "...", vec![mac])]),
        ],
    );
    node(Rule::sessions, "...", vec![config])
}

#[test]
fn macro_with_several_arguments_tree() {
    let value = Pipe::try_parse(&macro_tree()).expect("parses");
    let module_base = &items(get(get(&value, "import"), "module"))[0];
    let module = items(get(module_base, "module"));
    assert_eq!(module[0], n("1"));
    assert_eq!(module[1], Value::Array(vec![n("1.5")]));
    assert_eq!(module[2], Value::Object(vec![("item".to_string(), Value::Boolean(true))]));
    assert_eq!(module[3], Value::Boolean(false));
    assert_eq!(module[4], s("name"));
    assert_eq!(get(module_base, "item").to_boolean(), Some(false));
}

#[test]
fn macro_with_one_argument_lands_under_its_name() {
    let mac = node(
        Rule::param_macro,
        "...",
        vec![
            ident("http"),
            string("get"),
            node(Rule::object, "{}", vec![]),
        ],
    );
    let block = node(Rule::common_content, "...", vec![mac]);
    let value = Pipe::try_parse(&block).expect("parses");
    let http = items(get(&value, "http"));
    assert_eq!(http.len(), 1);
    assert_eq!(http[0], Value::Object(vec![("http".to_string(), s("get"))]));
}

#[test]
fn macro_without_arguments_keeps_parameters() {
    let params = node(
        Rule::param_macro_content,
        "(test=true)",
        vec![node(
            Rule::common_content,
            "test=true",
            vec![node(Rule::param, "test=true", vec![ident("test"), leaf(Rule::boolean, "true")])],
        )],
    );
    let mac = node(Rule::param_macro, "...", vec![string("http"), params]);
    let config = node(
        Rule::session_pipeline,
        "pipeline {...}",
        vec![
            ident("pipeline"),
            node(Rule::session_pipeline_content, "...", vec![node(Rule::common_content, "...", vec![mac])]),
        ],
    );
    let value = Pipe::try_parse(&node(Rule::sessions, "...", vec![config])).expect("parses");
    let pipeline = items(get(&value, "pipeline"));
    assert_eq!(pipeline.len(), 1);
    let http = items(get(&pipeline[0], "http"));
    assert_eq!(http[0], Value::Object(vec![("test".to_string(), Value::Boolean(true))]));
}

#[test]
fn repeated_macros_collect_in_order() {
    let mac = |arg: &str| node(Rule::param_macro, "...", vec![ident("m"), string(arg), node(Rule::object, "{}", vec![])]);
    let block = node(Rule::common_content, "...", vec![mac("a"), mac("b")]);
    let value = Pipe::try_parse(&block).expect("parses");
    let m = items(get(&value, "m"));
    assert_eq!(m.len(), 2);
    assert_eq!(get(&m[0], "m"), &s("a"));
    assert_eq!(get(&m[1], "m"), &s("b"));
}

fn pipeline_section(steps: Vec<&str>) -> ParseNode {
    node(
        Rule::session_pipeline,
        "...",
        vec![
            ident("pipeline"),
            node(Rule::session_pipeline_content, "...", steps.into_iter().map(|t| leaf(Rule::number, t)).collect()),
        ],
    )
}

fn config_section(name: &str, key: &str, value: &str) -> ParseNode {
    node(
        Rule::session_generic_config,
        "...",
        vec![
            ident(name),
            node(
                Rule::session_generic_config_content,
                "...",
                vec![node(Rule::common_content, "...", vec![node(Rule::param, "...", vec![ident(key), leaf(Rule::number, value)])])],
            ),
        ],
    )
}

#[test]
fn repeated_pipeline_sections_append() {
    let tree = node(Rule::sessions, "...", vec![pipeline_section(vec!["1", "2"]), pipeline_section(vec!["3"])]);
    let value = Pipe::try_parse(&tree).expect("parses");
    assert_eq!(keys(&value), vec!["pipeline".to_string()]);
    assert_eq!(items(get(&value, "pipeline")), &vec![n("1"), n("2"), n("3")]);
}

#[test]
fn repeated_config_sections_merge_later_wins() {
    let tree = node(
        Rule::sessions,
        "...",
        vec![config_section("config", "a", "1"), config_section("config", "b", "2"), config_section("config", "a", "3")],
    );
    let value = Pipe::try_parse(&tree).expect("parses");
    let config = get(&value, "config");
    assert_eq!(keys(config), vec!["a".to_string(), "b".to_string()]);
    assert_eq!(get(config, "a"), &n("3"));
    assert_eq!(get(config, "b"), &n("2"));
}

#[test]
fn config_merged_into_pipeline_fails() {
    let tree = node(Rule::sessions, "...", vec![pipeline_section(vec!["1"]), config_section("pipeline", "a", "1")]);
    assert_eq!(Pipe::try_parse(&tree), None);
}

#[test]
fn module_step_with_reference_and_tags() {
    let params = node(
        Rule::common_content,
        "...",
        vec![node(Rule::param, "...", vec![ident("text"), string("hi")])],
    );
    let tag = node(
        Rule::tag,
        ":retry(3)",
        vec![ident("retry"), node(Rule::tag_args, "3", vec![leaf(Rule::number, "3")])],
    );
    let module = node(Rule::module, "...", vec![leaf(Rule::ident, "print"), leaf(Rule::reference, "out"), params, tag]);
    let value = Pipe::try_parse(&module).expect("parses");
    assert_eq!(keys(&value), vec!["module", "ref", "text", "___tags"]);
    assert_eq!(get(&value, "module"), &s("print"));
    assert_eq!(get(&value, "ref"), &s("out"));
    assert_eq!(get(&value, "text"), &s("hi"));
    assert_eq!(get(get(&value, "___tags"), "retry"), &Value::Array(vec![n("3")]));
}

#[test]
fn module_step_without_reference() {
    let params = node(Rule::object, "{}", vec![]);
    let module = node(Rule::module, "...", vec![leaf(Rule::ident, "log"), params]);
    let value = Pipe::try_parse(&module).expect("parses");
    assert_eq!(keys(&value), vec!["module", "ref"]);
    assert_eq!(get(&value, "ref"), &Value::Null);
}

#[test]
fn module_content_keeps_first_params_and_attach() {
    let p1 = node(Rule::object, "...", vec![node(Rule::other, "...", vec![node(Rule::other, "...", vec![leaf(Rule::string_content, "x")]), leaf(Rule::number, "1")])]);
    let p2 = node(Rule::object, "...", vec![]);
    let attach = node(Rule::attach, "...", vec![leaf(Rule::reference, "next")]);
    let content = node(Rule::module_content, "...", vec![p1, attach, p2]);
    let value = Pipe::try_parse(&content).expect("parses");
    assert_eq!(keys(&value), vec!["params", "attach"]);
    assert_eq!(get(get(&value, "params"), "x"), &n("1"));
    assert_eq!(get(&value, "attach"), &s("next"));
}

#[test]
fn interpolation_expression_is_trimmed() {
    let mut inter = node(Rule::interpolation, "${ item }", vec![leaf(Rule::other, "item")]);
    inter.inner_text = "  item \n".to_string();
    let value = Pipe::try_parse(&inter).expect("parses");
    assert_eq!(value, Value::Interpolation(Script::from_interpolation("item".to_string())));
    assert_eq!(value.to_string(), Some("item".to_string()));
}

#[test]
fn template_interpolation_gives_script_text() {
    let templ = node(
        Rule::string_interpolation,
        "`item is ${item}!`",
        vec![leaf(Rule::string_interpolation_content, "`item is ${item}!`")],
    );
    let value = Pipe::try_parse(&templ).expect("parses");
    match &value {
        Value::Interpolation(script) => assert_eq!(script.kind, ScriptKind::Template),
        other => panic!("{:?}", other),
    }
    assert_eq!(value.to_string().unwrap(), r#""item is \"+(item)+\"!""#);
}

#[test]
fn object_interpolation_gives_script_text() {
    let object = leaf(Rule::object_interpolation, r#"{ "value": ${item} }"#);
    let value = Pipe::try_parse(&object).expect("parses");
    assert_eq!(value.to_string().unwrap(), r#"{ \"value\": \"+(item)+\" }"#);
}

#[test]
fn template_without_closing_brace_keeps_dollar() {
    let value = Pipe::try_parse(&leaf(Rule::object_interpolation, "a ${b \"c\"")).expect("parses");
    assert_eq!(value.to_string().unwrap(), r#"a ${b \"c\""#);
}

#[test]
fn leaves_and_unknown_rules() {
    assert_eq!(Pipe::try_parse(&leaf(Rule::boolean, "true")), Some(Value::Boolean(true)));
    assert_eq!(Pipe::try_parse(&leaf(Rule::boolean, "yes")), Some(Value::Boolean(false)));
    assert_eq!(Pipe::try_parse(&leaf(Rule::null, "null")), Some(Value::Null));
    assert_eq!(Pipe::try_parse(&leaf(Rule::pipe, "")), Some(Value::Undefined));
    assert_eq!(Pipe::try_parse(&leaf(Rule::string, "\"\"")), None);
    let empty_config = node(Rule::session_generic_config_content, "{}", vec![]);
    assert_eq!(Pipe::try_parse(&empty_config), Some(Value::Undefined));
}

#[test]
fn block_entry_of_other_rule_is_empty_key() {
    let block = node(Rule::common_content, "...", vec![leaf(Rule::number, "1")]);
    assert_eq!(Pipe::try_parse(&block), Some(Value::Object(vec![(String::new(), Value::Undefined)])));
}

#[test]
fn parse_result_without_tree_is_undefined() {
    assert_eq!(Pipe::from_parse_result(Ok(None)).ok(), Some(Value::Undefined));
    let r = Pipe::from_parse_result(Ok(Some(leaf(Rule::number, "7"))));
    assert_eq!(r.ok(), Some(n("7")));
}

fn pair(key: &str, value: ParseNode) -> ParseNode {
    node(Rule::other, "...", vec![node(Rule::other, "...", vec![leaf(Rule::string_content, key)]), value])
}

#[test]
fn object_literal_last_key_wins() {
    let obj = node(
        Rule::object,
        "...",
        vec![pair("a", leaf(Rule::number, "1")), pair("b", leaf(Rule::number, "2")), pair("a", leaf(Rule::number, "3"))],
    );
    let value = Pipe::try_parse(&obj).expect("parses");
    assert_eq!(keys(&value), vec!["a", "b"]);
    assert_eq!(get(&value, "a"), &n("3"));
}

#[test]
fn objects_compare_as_maps() {
    let x = Value::Object(vec![("a".to_string(), n("1")), ("b".to_string(), Value::Array(vec![s("x")]))]);
    let y = Value::Object(vec![("b".to_string(), Value::Array(vec![s("x")])), ("a".to_string(), n("1"))]);
    let z = Value::Object(vec![("b".to_string(), Value::Array(vec![s("y")])), ("a".to_string(), n("1"))]);
    let w = Value::Object(vec![("a".to_string(), n("1"))]);
    assert!(x.same_as(&y));
    assert!(y.same_as(&x));
    assert!(!x.same_as(&z));
    assert!(!x.same_as(&w));
    assert!(!w.same_as(&x));
    assert!(!x.same_as(&n("1")));
}
