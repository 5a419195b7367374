use pipe::parser::Pipe;

fn embed(s: &str) -> Option<String> {
    Pipe::try_parse_embedded(s.to_string())
}

#[test]
fn text_without_fence_is_unchanged() {
    let text = "pipeline {\n  print (text=\"hi\")\n}\n";
    assert_eq!(embed(text), Some(text.to_string()));
    assert_eq!(Pipe::pre_parse(text.to_string()), text.to_string());
}

#[test]
fn unclosed_fence_is_unchanged() {
    let text = "a ```js\nno end";
    assert_eq!(embed(text), Some(text.to_string()));
}

#[test]
fn block_becomes_embedded_object() {
    let text = "a ```js\nx<y```b";
    let expected = "a { \"___PIPE___type\": \"embedded\", \"___PIPE___content\": \"&#x0A;x&lt;y\", \"___PIPE___lang\": \"js\"}b";
    assert_eq!(embed(text), Some(expected.to_string()));
    assert_eq!(Pipe::parse_embedded(text.to_string()), expected.to_string());
}

#[test]
fn empty_first_line_is_default_language() {
    let text = "```\ncode 1```";
    let expected = "{ \"___PIPE___type\": \"embedded\", \"___PIPE___content\": \"&#x0A;code&#x20;1\", \"___PIPE___lang\": \"default\"}";
    assert_eq!(embed(text), Some(expected.to_string()));
}

#[test]
fn two_blocks_and_text_between() {
    let text = "x```a\n1```y```b\n2```z";
    let expected = "x{ \"___PIPE___type\": \"embedded\", \"___PIPE___content\": \"&#x0A;1\", \"___PIPE___lang\": \"a\"}y{ \"___PIPE___type\": \"embedded\", \"___PIPE___content\": \"&#x0A;2\", \"___PIPE___lang\": \"b\"}z";
    assert_eq!(embed(text), Some(expected.to_string()));
}

#[test]
fn escaping_of_quotes_and_ampersand() {
    let text = "```sh\necho \"a&b\" 'c'```";
    let expected = "{ \"___PIPE___type\": \"embedded\", \"___PIPE___content\": \"&#x0A;echo&#x20;&quot;a&amp;b&quot;&#x20;&#x27;c&#x27;\", \"___PIPE___lang\": \"sh\"}";
    assert_eq!(embed(text), Some(expected.to_string()));
}

#[test]
fn non_ascii_content_passes_through() {
    let text = "```t\nĀé```";
    let expected = "{ \"___PIPE___type\": \"embedded\", \"___PIPE___content\": \"&#x0A;Ā&#xE9;\", \"___PIPE___lang\": \"t\"}";
    assert_eq!(embed(text), Some(expected.to_string()));
}

#[test]
fn first_line_not_utf8_after_cut_fails() {
    // 'é' cut to its low byte is no UTF-8 on its own
    assert_eq!(embed("```é\nx```"), None);
}

#[test]
fn first_line_cut_to_low_bytes() {
    // 'Ā' is cut to a zero byte; the content starts at byte offset 2
    let text = "```Āx\ny```";
    let expected = "{ \"___PIPE___type\": \"embedded\", \"___PIPE___content\": \"x&#x0A;y\", \"___PIPE___lang\": \"\u{0}x\"}";
    assert_eq!(embed(text), Some(expected.to_string()));
}

#[test]
fn content_start_off_char_boundary_fails() {
    // two characters in the first line, the first of them three bytes long: byte 2 is inside it
    assert_eq!(embed("```\u{800}a\nz```"), None);
}

#[test]
fn four_back_quotes_open_at_the_first() {
    let text = "````x\ny```";
    let expected = "{ \"___PIPE___type\": \"embedded\", \"___PIPE___content\": \"&#x0A;y\", \"___PIPE___lang\": \"`x\"}";
    assert_eq!(embed(text), Some(expected.to_string()));
}

#[test]
fn embedding_is_local_to_back_quoted_part() {
    let a = "head {\n";
    let b = "```js\nx```";
    let c = "\n} tail";
    let whole = embed(&format!("{}{}{}", a, b, c)).unwrap();
    assert_eq!(whole, format!("{}{}{}", a, embed(b).unwrap(), c));
}
