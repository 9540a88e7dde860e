use olmo3_instruct::decoder::{CALLS_END, CALLS_START};
use olmo3_instruct::grammar::{name_in_schema, write_grammar};
use olmo3_instruct::text::{is_white_space, trim};
use olmo3_instruct::tool_calls::value_or_text;
use olmo3_instruct::{
    build_tool_call_grammar, parse_call_syntax, render_one_call, split_call, split_calls,
    split_top_level_commas, OlmoInstruct, OlmoToolDecoder, ToolEvent, ToolGrammar, VocabTokenizer,
};
use std::sync::Arc;

const VOCAB: [&str; 14] = [
    "<|im_start|>",
    "<|im_end|>",
    "\n",
    "system",
    "user",
    "assistant",
    "environment",
    "<|endoftext|>",
    "<functions>",
    "</functions>",
    "<function_calls>",
    "</function_calls>",
    "<think>",
    "</think>",
];

fn olmo_with(extra: &[&str]) -> OlmoInstruct<VocabTokenizer> {
    let v: Vec<String> = VOCAB.iter().chain(extra.iter()).map(|s| s.to_string()).collect();
    OlmoInstruct::new(Arc::new(VocabTokenizer::from_vocab(&v)))
}

fn olmo() -> OlmoInstruct<VocabTokenizer> {
    olmo_with(&["Hello"])
}

fn pair(a: &str, b: &str) -> (String, String) {
    (a.to_string(), b.to_string())
}

/// A compiler that takes any source, and keeps what it was given.
fn keep(source: &str, root: &str) -> Result<(String, String), String> {
    Ok(pair(source, root))
}

fn call(event: ToolEvent) -> Option<(String, String)> {
    match event {
        ToolEvent::Call(name, args) => Some((name, args)),
        ToolEvent::Start => None,
    }
}

#[test]
fn tool_call_grammar_returns_ebnf() {
    let inst = olmo();
    let tools = vec![r#"{"function":{"name":"get_weather","parameters":{}}}"#.to_string()];
    let grammar = inst.tool_call_grammar(&tools, keep);
    assert!(grammar.is_some());
    let g = grammar.unwrap();
    assert!(g.source.contains("root"));
    assert!(g.source.contains("get_weather"));
    assert!(g.source.contains("<function_calls>"));
    assert_eq!(g.grammar.0, g.source);
    assert_eq!(g.grammar.1, "root");
}

#[test]
fn tool_call_grammar_none_for_empty() {
    let inst = olmo();
    assert!(inst.tool_call_grammar(&[], keep).is_none());
}

#[test]
fn render_tool_calls_matches_reference_call_syntax() {
    let inst = olmo();
    let calls = vec![(
        "get_weather".to_string(),
        r#"{"city":"Boston","days":3}"#.to_string(),
    )];
    let rendered = inst.render_tool_calls(&calls);
    assert_eq!(
        rendered,
        r#"<function_calls>get_weather(city="Boston", days=3)</function_calls>"#
    );
}

#[test]
fn render_tool_calls_joins_multiple_with_single_wrapper() {
    let inst = olmo();
    let calls = vec![
        ("a".to_string(), "{}".to_string()),
        ("b".to_string(), "{}".to_string()),
    ];
    let rendered = inst.render_tool_calls(&calls);
    assert_eq!(rendered, "<function_calls>a()\nb()</function_calls>");
    assert_eq!(rendered.matches("<function_calls>").count(), 1);
    assert_eq!(rendered.matches("</function_calls>").count(), 1);
}

#[test]
fn tool_decoder_parses_call_syntax() {
    let inst = olmo_with(&[r#"get_weather(city="Boston")"#]);
    let mut dec = inst.tool_decoder();
    dec.feed(&[10]);
    dec.feed(&[14]);
    let event = dec.feed(&[11]);
    match event {
        ToolEvent::Call(name, args) => {
            assert_eq!(name, "get_weather");
            assert_eq!(args, r#"{"city":"Boston"}"#);
        }
        other => panic!("expected Call, got {:?}", other),
    }
}

#[test]
fn tool_decoder_parses_multiple_calls_keeps_first() {
    let inst = olmo_with(&["a()\nb()"]);
    let mut dec = inst.tool_decoder();
    dec.feed(&[10]);
    dec.feed(&[14]);
    let event = dec.feed(&[11]);
    match event {
        ToolEvent::Call(name, args) => {
            assert_eq!(name, "a");
            assert_eq!(args, "{}");
        }
        other => panic!("expected Call, got {:?}", other),
    }
}

#[test]
fn tool_call_grammar_none_when_the_source_does_not_compile() {
    let inst = olmo();
    let tools = vec![r#"{"name":"f"}"#.to_string()];
    let failed: Option<ToolGrammar<u8>> =
        inst.tool_call_grammar(&tools, |_: &str, _: &str| -> Result<u8, String> {
            Err("no".to_string())
        });
    assert!(failed.is_none());
    assert!(ToolGrammar::<u8>::from_compiled("x".to_string(), Err::<u8, u8>(1)).is_none());
    let made = ToolGrammar::from_compiled("x".to_string(), Ok::<u8, u8>(7)).unwrap();
    assert_eq!((made.source.as_str(), *made.grammar), ("x", 7));
}

#[test]
fn grammar_source_is_exact() {
    let names = vec!["f".to_string(), "g".to_string()];
    let expected = r#"root ::= "<function_calls>" tool-call ("\n" tool-call)* "</function_calls>"
tool-call ::= tool-name "(" arguments? ")"
tool-name ::= "f" | "g"
arguments ::= argument ("," " " argument)*
argument ::= arg-key "=" json-value
arg-key ::= [a-zA-Z_] [a-zA-Z0-9_]*
json-object ::= "{" json-members? "}"
json-members ::= json-pair ("," json-pair)*
json-pair ::= json-string ":" json-value
json-value ::= json-string | json-number | json-object | json-array | "true" | "false" | "null"
json-string ::= "\"" json-chars "\""
json-chars ::= json-char*
json-char ::= [^"\\] | "\\" ["\\/bfnrt] | "\\u" [0-9a-fA-F] [0-9a-fA-F] [0-9a-fA-F] [0-9a-fA-F]
json-number ::= "-"? [0-9]+ ("." [0-9]+)? ([eE] [+-]? [0-9]+)?
json-array ::= "[" (json-value ("," json-value)*)? "]"
"#;
    assert_eq!(write_grammar(&names).unwrap(), expected);
    assert!(write_grammar(&vec![]).is_none());
    let tools = vec![
        r#"{"function":{"name":"f"},"name":"other"}"#.to_string(),
        "not json".to_string(),
        r#"{"function":{},"name":"g"}"#.to_string(),
        r#"{"function":{"name":3},"name":"h"}"#.to_string(),
        r#"["name"]"#.to_string(),
    ];
    assert_eq!(build_tool_call_grammar(&tools).unwrap(), expected);
    assert!(build_tool_call_grammar(&tools[3..]).is_none());
}

#[test]
fn schema_names() {
    let schema: serde_json::Value = serde_json::from_str(r#"{"function":7,"name":"n"}"#).unwrap();
    assert_eq!(name_in_schema(&schema).unwrap(), "n");
    let schema: serde_json::Value = serde_json::from_str(r#"{"name":null}"#).unwrap();
    assert!(name_in_schema(&schema).is_none());
}

#[test]
fn renders_arguments_in_key_order_as_compact_json() {
    assert_eq!(
        render_one_call("f", r#"{ "b" : [1, 2.50], "a" : {"y": null, "x": true} }"#),
        r#"f(a={"x":true,"y":null}, b=[1,2.5])"#
    );
    assert_eq!(render_one_call("f", r#"{"t":"a\nb\"\\"}"#), r#"f(t="a\nb\"\\")"#);
    assert_eq!(render_one_call("f", r#"{"B":1,"a":2,"A":3,"é":4}"#), "f(A=3, B=1, a=2, é=4)");
}

#[test]
fn renders_no_arguments_for_anything_but_an_object() {
    assert_eq!(render_one_call("f", "oops"), "f()");
    assert_eq!(render_one_call("f", "[1]"), "f()");
    assert_eq!(render_one_call("f", "3"), "f()");
    assert_eq!(render_one_call("", "{}"), "()");
}

#[test]
fn renders_no_calls_as_an_empty_group() {
    assert_eq!(olmo().render_tool_calls(&[]), "<function_calls></function_calls>");
}

#[test]
fn rendered_calls_are_read_back() {
    for args in [
        r#"{"city":"Boston (MA), \"the hub\"","days":3}"#,
        r#"{"a":[1,[2,{"k":"],}"}]],"b":{"c":"d=e"},"n":-7}"#,
        r#"{"empty":"","null":null,"on":false}"#,
        r#"{"a[0]":1,"f(x)":"y","{k}":[2]}"#,
        r#"{"f":1.5}"#,
        "{}",
    ] {
        let rendered = render_one_call("get_weather", args);
        assert!(!rendered.contains('\n'));
        assert_eq!(parse_call_syntax(&rendered).unwrap(), pair("get_weather", args));
    }
}

#[test]
fn nesting_is_read_as_deep_as_json_goes() {
    let nested = |n: usize| format!("{{\"a\":{}1{}}}", "[".repeat(n), "]".repeat(n));
    let args = nested(126);
    let rendered = render_one_call("f", &args);
    assert_eq!(parse_call_syntax(&rendered).unwrap(), pair("f", &args));
    assert_eq!(render_one_call("f", &nested(127)), "f()");
}

#[test]
fn parsed_arguments_can_be_nested_too_deep_to_read() {
    let deepest = format!("{}1{}", "[".repeat(127), "]".repeat(127));
    let (name, arguments) = parse_call_syntax(&format!("f(a={deepest})")).unwrap();
    assert_eq!(arguments, format!("{{\"a\":{deepest}}}"));
    assert_eq!(render_one_call(&name, &arguments), "f()");
}

#[test]
fn identifiers_are_read_back_as_keys() {
    let arguments = "{\"A_1\":-9223372036854775808,\"_\":0,\"zZ9\":9223372036854775807}";
    let rendered = render_one_call("g", arguments);
    assert_eq!(rendered, "g(A_1=-9223372036854775808, _=0, zZ9=9223372036854775807)");
    assert_eq!(parse_call_syntax(&rendered), Some(pair("g", arguments)));
}

#[test]
fn numbers_are_written_in_their_shortest_form() {
    assert_eq!(
        parse_call_syntax("f(a=1.50, b=18446744073709551615, c=-9223372036854775808)").unwrap(),
        pair("f", r#"{"a":1.5,"b":18446744073709551615,"c":-9223372036854775808}"#)
    );
}

#[test]
fn parses_values_that_are_not_json_as_text() {
    assert_eq!(
        parse_call_syntax("f(x=hello world, y=2)").unwrap(),
        pair("f", r#"{"x":"hello world","y":2}"#)
    );
    assert_eq!(parse_call_syntax("f(x=)").unwrap(), pair("f", r#"{"x":""}"#));
    let failed = serde_json::from_str::<serde_json::Value>("oops");
    assert_eq!(value_or_text("oops", failed), serde_json::Value::String("oops".to_string()));
    let read = serde_json::from_str::<serde_json::Value>("[1]");
    assert_eq!(value_or_text("[1]", read).to_string(), "[1]");
}

#[test]
fn of_equal_keys_the_last_counts() {
    assert_eq!(parse_call_syntax("f(b=1, a=2, b=3)").unwrap(), pair("f", r#"{"a":2,"b":3}"#));
}

#[test]
fn splits_calls_into_parts() {
    let (name, args) = split_call(r#" f ( a = 1 ,, b="x,)(" ) tail"#).unwrap();
    assert_eq!(name, "f");
    assert_eq!(args, vec![pair("a", "1"), pair("b", r#""x,)(""#)]);
    let (name, args) = split_call("f(a=(1)(2))").unwrap();
    assert_eq!((name.as_str(), args), ("f", vec![pair("a", "(1)(2)")]));
    let (_, args) = split_call("f(a=b=c)").unwrap();
    assert_eq!(args, vec![pair("a", "b=c")]);
    let (_, args) = split_call(r#"f(a="\\", b="\"")"#).unwrap();
    assert_eq!(args, vec![pair("a", r#""\\""#), pair("b", r#""\"""#)]);
    assert_eq!(split_call("f()").unwrap().1.len(), 0);
}

#[test]
fn rejects_what_is_no_call() {
    assert!(parse_call_syntax("f").is_none());
    assert!(parse_call_syntax("f(a=1").is_none());
    assert!(parse_call_syntax(r#"f(a=")"#).is_none());
    assert!(parse_call_syntax("f(a)").is_none());
    assert!(parse_call_syntax("f(a=1, b)").is_none());
}

#[test]
fn splits_on_top_level_commas_only() {
    assert_eq!(
        split_top_level_commas(r#"a=[1,2],b={"x":1,"y":2},c="p,q\",r",d"#),
        vec!["a=[1,2]", r#"b={"x":1,"y":2}"#, r#"c="p,q\",r""#, "d"]
    );
    assert_eq!(split_top_level_commas(""), vec![""]);
    assert_eq!(split_top_level_commas(","), vec!["", ""]);
    assert_eq!(split_top_level_commas("a],b"), vec!["a],b"]);
    assert_eq!(split_top_level_commas("ü,(ß,é)"), vec!["ü", "(ß", "é)"]);
    for text in ["a=1, b=[2,3],c=\"x,y\"", "a,b]c,d[e,f", "\"open,"] {
        assert_eq!(split_top_level_commas(text).join(","), text);
    }
}

#[test]
fn splits_calls_at_line_feeds() {
    assert_eq!(split_calls("a()\nb()"), vec!["a()", "b()"]);
    assert_eq!(split_calls("\n  a() \r\n\n\tb(x=1)\n"), vec!["a()", "b(x=1)"]);
    assert!(split_calls(" \n \n").is_empty());
    assert!(split_calls("").is_empty());
}

#[test]
fn white_space_is_that_of_unicode() {
    for u in 0..=0x10ffff {
        if let Some(c) = char::from_u32(u) {
            assert_eq!(is_white_space(c), c.is_whitespace());
        }
    }
    for text in ["", " ", "a", " a ", "\u{3000}x y\u{85}", "\t\n"] {
        assert_eq!(trim(text), text.trim());
    }
}

fn decoder() -> OlmoToolDecoder<VocabTokenizer> {
    OlmoToolDecoder::new(Arc::new(VocabTokenizer::from_vocab(&[])))
}

#[test]
fn decodes_what_was_rendered() {
    let calls = vec![
        pair("get_weather", r#"{"city":"Boston, MA","days":[1,2]}"#),
        pair("other", "{}"),
    ];
    let rendered = olmo().render_tool_calls(&calls);
    let inst = olmo_with(&[rendered.as_str()]);
    let mut dec = inst.tool_decoder();
    assert!(dec.can_feed(&[14]));
    assert_eq!(call(dec.feed(&[14])).unwrap(), calls[0]);
    assert!(call(dec.feed(&[])).is_none());
}

#[test]
fn finds_groups_in_surrounding_text() {
    let mut dec = decoder();
    let more = format!("Let me see <{}\n f(x=1) \n{}and then", CALLS_START, CALLS_END);
    assert_eq!(dec.advance(&more).unwrap(), "f(x=1)");
    assert!(dec.advance("").is_none());
    assert_eq!(dec.advance("<function_calls>g()</function_calls>").unwrap(), "g()");
}

#[test]
fn reports_one_group_at_a_time() {
    let mut dec = decoder();
    let two = "<function_calls>f()</function_calls><function_calls>g()</function_calls>";
    assert_eq!(dec.advance(two).unwrap(), "f()");
    assert_eq!(dec.advance("").unwrap(), "g()");
    assert!(dec.advance("").is_none());
}

#[test]
fn chunks_do_not_matter() {
    let filler = "x".repeat(500);
    let text = format!("{}<function_calls>f(a=\"{}\")</function_calls>", filler, filler);
    let expected = format!("f(a=\"{}\")", filler);
    for size in [1, 2, 7, 16, 49, 50, 51, 199, 201, 2000] {
        let mut dec = decoder();
        let mut found = Vec::new();
        let mut rest = text.as_str();
        while !rest.is_empty() {
            let (chunk, tail) = rest.split_at(size.min(rest.len()));
            rest = tail;
            assert!(dec.can_advance(chunk));
            if let Some(content) = dec.advance(chunk) {
                found.push(content);
            }
        }
        assert_eq!(found, vec![expected.clone()]);
    }
}

#[test]
fn cuts_back_text_outside_groups() {
    // A tag that begins at the end of overlong text is still found.
    let mut dec = decoder();
    assert!(dec.advance(&format!("{}<function_call", "y".repeat(300))).is_none());
    assert_eq!(dec.advance("s>f()</function_calls>").unwrap(), "f()");
    // Text of 200 bytes is kept whole.
    let mut dec = decoder();
    assert!(dec.advance(&"é".repeat(100)).is_none());
    assert!(dec.can_advance("") && !dec.can_advance("y"));
    // A cut inside a character is not offered; inside a group there is no cut.
    assert!(dec.can_advance("ya"));
    assert!(dec.can_advance("y<function_calls>"));
    assert!(dec.advance("<function_calls>").is_none());
    assert!(dec.can_advance(&"é".repeat(300)) && dec.can_advance("y"));
}

#[test]
fn cannot_feed_what_would_cut_a_character() {
    let long = format!("{}y", "é".repeat(100));
    let inst = olmo_with(&[long.as_str(), "Hello"]);
    let dec = inst.tool_decoder();
    assert!(!dec.can_feed(&[14]));
    assert!(dec.can_feed(&[14, 10]));
    assert!(dec.can_feed(&[15]));
}

#[test]
fn unreadable_groups_are_passed_over() {
    let inst = olmo_with(&["oops\nf()", "g()"]);
    let mut dec = inst.tool_decoder();
    assert!(call(dec.feed(&[10, 14, 11])).is_none());
    assert!(call(dec.feed(&[10, 11])).is_none());
    assert_eq!(call(dec.feed(&[10, 15, 11])).unwrap(), pair("g", "{}"));
}

#[test]
fn reset_forgets() {
    let inst = olmo_with(&["f()"]);
    let mut dec = inst.tool_decoder();
    assert!(call(dec.feed(&[10, 14])).is_none());
    dec.reset();
    assert!(call(dec.feed(&[11])).is_none());
    assert_eq!(call(dec.feed(&[10, 14, 11])).unwrap(), pair("f", "{}"));
}
