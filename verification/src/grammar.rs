//! The grammar that constrains a model to well-formed tool calls.

use crate::json;
use crate::json::Json;
use crate::text;
use serde_json::Value;
use std::sync::Arc;
use vstd::prelude::*;
use vstd::string::*;

verus! {

/// The grammar up to the alternatives for the name of a tool.
pub const GRAMMAR_HEAD: &'static str = r#"root ::= "<function_calls>" tool-call ("\n" tool-call)* "</function_calls>"
tool-call ::= tool-name "(" arguments? ")"
tool-name ::= "#;

/// The grammar from the alternatives for the name of a tool on.
pub const GRAMMAR_TAIL: &'static str = r#"
arguments ::= argument ("," " " argument)*
argument ::= arg-key "=" json-value
arg-key ::= [a-zA-Z_] [a-zA-Z0-9_]*
json-object ::= "{" json-members? "}"
json-members ::= json-pair ("," json-pair)*
json-pair ::= json-string ":" json-value
json-value ::= json-string | json-number | json-object | json-array | "true" | "false" | "null"
json-string ::= "\"" json-chars "\""
json-chars ::= json-char*
json-char ::= [^"\\] | "\\" ["\\/bfnrt] | "\\u" [0-9a-fA-F] [0-9a-fA-F] [0-9a-fA-F] [0-9a-fA-F]
json-number ::= "-"? [0-9]+ ("." [0-9]+)? ([eE] [+-]? [0-9]+)?
json-array ::= "[" (json-value ("," json-value)*)? "]"
"#;

/// The rule that a grammar starts from.
pub const GRAMMAR_ROOT: &'static str = "root";

/// The name that a tool schema gives: `function.name`, or `name` where the schema has no such
/// member; nothing where that is not a string.
pub open spec fn schema_name(schema: Json) -> Option<Seq<char>> {
    let nested = match json::member(schema, "function"@) {
        Some(function) => json::member(function, "name"@),
        None => None,
    };
    let named = match nested {
        Some(name) => Some(name),
        None => json::member(schema, "name"@),
    };
    match named {
        Some(Json::Text(name)) => Some(name),
        _ => None,
    }
}

/// The name that the text of a tool schema gives; nothing where the text is not JSON.
pub open spec fn tool_name(tool: Seq<char>) -> Option<Seq<char>> {
    match json::json_parse(tool) {
        Some(schema) => schema_name(schema),
        None => None,
    }
}

/// The names that the texts of tool schemas give, in order.
pub open spec fn tool_names(tools: Seq<Seq<char>>) -> Seq<Seq<char>>
    decreases tools.len(),
{
    if tools.len() == 0 {
        Seq::empty()
    } else {
        let before = tool_names(tools.drop_last());
        match tool_name(tools.last()) {
            Some(name) => before.push(name),
            None => before,
        }
    }
}

/// A name in double quotes.
pub open spec fn quoted(name: Seq<char>) -> Seq<char> {
    seq!['"'] + name + seq!['"']
}

/// The alternatives for the name of a tool.
pub open spec fn alternatives(names: Seq<Seq<char>>) -> Seq<char> {
    text::join(Seq::new(names.len(), |i: int| quoted(names[i])), " | "@)
}

/// The grammar for calls of the tools with the given names.
pub open spec fn grammar_text(names: Seq<Seq<char>>) -> Seq<char> {
    GRAMMAR_HEAD@ + alternatives(names) + GRAMMAR_TAIL@
}

/// The name that a tool schema gives.
pub fn name_in_schema(schema: &Value) -> (r: Option<String>)
    ensures
        match r {
            Some(name) => schema_name(json::json_of(*schema)) == Some(name@),
            None => schema_name(json::json_of(*schema)) is None,
        },
{
    let nested = match json::get_member(schema, "function") {
        Some(function) => json::get_member(function, "name"),
        None => None,
    };
    let named = match nested {
        Some(name) => Some(name),
        None => json::get_member(schema, "name"),
    };
    match named {
        Some(value) => match value.as_str() {
            Some(name) => Some(name.to_owned()),
            None => None,
        },
        None => None,
    }
}

/// Writes the grammar for calls of the tools with the given names; there is none without names.
pub fn write_grammar(names: &Vec<String>) -> (r: Option<String>)
    ensures
        match r {
            Some(source) => names@.len() > 0 && source@ == grammar_text(text::texts(names@)),
            None => names@.len() == 0,
        },
{
    let n: usize = names.len();
    if n == 0 {
        return None;
    }
    proof {
        reveal_strlit("\"");
        assert("\""@ == seq!['"']);
    }
    let mut choices: Vec<String> = Vec::new();
    let ghost all = Seq::new(n as nat, |i: int| quoted(text::texts(names@)[i]));
    let mut i: usize = 0;
    while i < n
        invariant
            i <= n,
            n == names@.len(),
            "\""@ == seq!['"'],
            all == Seq::new(n as nat, |i: int| quoted(text::texts(names@)[i])),
            text::texts(choices@) == all.take(i as int),
        decreases n - i,
    {
        let mut choice = "\"".to_owned();
        choice.append(names[i].as_str());
        choice.append("\"");
        let ghost done = choices@;
        choices.push(choice);
        assert(text::texts(choices@) == text::texts(done).push(choice@));
        assert(choice@ == all[i as int]);
        i += 1;
    }
    assert(all.take(n as int) == all);
    let mut source = GRAMMAR_HEAD.to_owned();
    source.append(text::join_strings(choices.as_slice(), " | ").as_str());
    source.append(GRAMMAR_TAIL);
    Some(source)
}

/// Builds an EBNF grammar that constrains generation to
/// `<function_calls>name(key=json, ...)[\nname2(...)]*</function_calls>`.
///
/// Tool names come from each schema's `function.name` or `name`; schemas without one are passed
/// over, and without any name there is no grammar.
pub fn build_tool_call_grammar(tools: &[String]) -> (r: Option<String>)
    ensures
        match r {
            Some(source) => {
                &&& tool_names(text::texts(tools@)).len() > 0
                &&& source@ == grammar_text(tool_names(text::texts(tools@)))
            },
            None => tool_names(text::texts(tools@)).len() == 0,
        },
{
    let n: usize = tools.len();
    let mut names: Vec<String> = Vec::new();
    let ghost all = text::texts(tools@);
    let mut i: usize = 0;
    while i < n
        invariant
            i <= n,
            n == tools@.len(),
            all == text::texts(tools@),
            text::texts(names@) == tool_names(all.take(i as int)),
        decreases n - i,
    {
        proof {
            assert(all.take(i + 1).drop_last() == all.take(i as int));
            assert(all.take(i + 1).last() == tools@[i as int]@);
        }
        if let Ok(schema) = json::read_value(tools[i].as_str()) {
            if let Some(name) = name_in_schema(&schema) {
                let ghost done = names@;
                names.push(name);
                assert(text::texts(names@) == text::texts(done).push(name@));
            }
        }
        i += 1;
    }
    assert(all.take(n as int) == all);
    write_grammar(&names)
}

/// A grammar for tool calls: its source, and what it was compiled to.
pub struct ToolGrammar<G> {
    /// The EBNF source.
    pub source: String,
    /// The compiled grammar.
    pub grammar: Arc<G>,
}

impl<G> ToolGrammar<G> {
    /// The grammar with the given source, if it could be compiled.
    pub fn from_compiled<E>(source: String, compiled: Result<G, E>) -> (r: Option<Self>)
        ensures
            match compiled {
                Ok(grammar) => r matches Some(g) && g.source == source && *g.grammar == grammar,
                Err(_) => r is None,
            },
    {
        match compiled {
            Ok(grammar) => Some(ToolGrammar { source, grammar: Arc::new(grammar) }),
            Err(_) => None,
        }
    }
}

/// Every name that the grammar is made for is among its alternatives, in quotes.
pub proof fn law_grammar_offers(names: Seq<Seq<char>>, i: int)
    requires
        0 <= i < names.len(),
    ensures
        text::find_text(grammar_text(names), quoted(names[i])) is Some,
{
    let list = Seq::new(names.len(), |j: int| quoted(names[j]));
    let at = lemma_join_holds(list, " | "@, i);
    let needle = quoted(names[i]);
    let source = grammar_text(names);
    let k = GRAMMAR_HEAD@.len() + at;
    assert(source.subrange(k, k + needle.len()) == alternatives(names).subrange(
        at,
        at + needle.len(),
    ));
    assert(text::occurs_at(source, needle, k));
    text::lemma_find_from(source, needle, 0);
}

/// A joined text holds each of the texts that it is joined from.
proof fn lemma_join_holds(list: Seq<Seq<char>>, sep: Seq<char>, i: int) -> (at: int)
    requires
        0 <= i < list.len(),
    ensures
        text::occurs_at(text::join(list, sep), list[i], at),
    decreases list.len(),
{
    let all = text::join(list, sep);
    if i == list.len() - 1 {
        let at = all.len() - list[i].len();
        assert(all.subrange(at, at + list[i].len()) == list[i]);
        at
    } else {
        let before = list.drop_last();
        let at = lemma_join_holds(before, sep, i);
        assert(all.subrange(at, at + list[i].len()) == text::join(before, sep).subrange(
            at,
            at + list[i].len(),
        ));
        at
    }
}

/// A schema whose member `function` is an object with a member `name` gives that name, whatever
/// else it has; it gives none if that is not a string.
pub proof fn law_nested_name(m: Map<Seq<char>, Json>, function: Map<Seq<char>, Json>, value: Json)
    requires
        m.dom().contains("function"@),
        m["function"@] == Json::Object(function),
        function.dom().contains("name"@),
        function["name"@] == value,
    ensures
        match value {
            Json::Text(name) => schema_name(Json::Object(m)) == Some(name),
            _ => schema_name(Json::Object(m)) is None,
        },
{
}

/// A schema without a nested name gives its own member `name`; it gives none if that is not a
/// string, or if it has no such member.
pub proof fn law_own_name(m: Map<Seq<char>, Json>)
    requires
        forall|function: Map<Seq<char>, Json>|
            m.dom().contains("function"@) && m["function"@] == Json::Object(function)
                ==> !#[trigger] function.dom().contains("name"@),
    ensures
        forall|name: Seq<char>|
            m.dom().contains("name"@) && m["name"@] == Json::Text(name) ==> schema_name(
                Json::Object(m),
            ) == Some(name),
        (forall|name: Seq<char>|
            m.dom().contains("name"@) ==> m["name"@] != Json::Text(name)) ==> schema_name(
            Json::Object(m),
        ) is None,
{
    if m.dom().contains("function"@) {
        if let Json::Object(function) = m["function"@] {
            assert(!function.dom().contains("name"@));
        }
    }
    if m.dom().contains("name"@) {
        if let Json::Text(name) = m["name"@] {
            assert(m["name"@] == Json::Text(name));
        }
    }
}

/// A tool gives the name that the JSON value its text is read as gives. Text that is not JSON,
/// and values that are not objects, give none.
pub proof fn law_tool_name(tool: Seq<char>)
    ensures
        forall|m: Map<Seq<char>, Json>|
            json::json_parse(tool) == Some(Json::Object(m)) ==> tool_name(tool) == schema_name(
                Json::Object(m),
            ),
        (forall|m: Map<Seq<char>, Json>| json::json_parse(tool) != Some(Json::Object(m)))
            ==> tool_name(tool) is None,
{
    if let Some(Json::Object(m)) = json::json_parse(tool) {
        assert(json::json_parse(tool) == Some(Json::Object(m)));
    }
}

/// A schema that is not an object gives no name.
pub proof fn law_no_name(schema: Json)
    requires
        !(schema is Object),
    ensures
        schema_name(schema) is None,
{
}

/// A grammar offers the names it is made for in quotes, in order, with a bar between neighbours,
/// and nothing else.
pub proof fn law_grammar_choices(names: Seq<Seq<char>>, choices: Seq<Seq<char>>)
    requires
        choices.len() == names.len(),
        forall|j: int|
            0 <= j < names.len() ==> #[trigger] choices[j] == seq!['"'] + names[j] + seq!['"'],
    ensures
        grammar_text(names) == GRAMMAR_HEAD@ + text::join(choices, seq![' ', '|', ' '])
            + GRAMMAR_TAIL@,
{
    reveal_strlit(" | ");
    assert(" | "@ == seq![' ', '|', ' ']);
    assert(Seq::new(names.len(), |i: int| quoted(names[i])) == choices);
}

/// The grammar for a list of tools offers the name of every tool that gives one, in quotes, in
/// the order of the tools, with a bar between neighbours, and nothing else. Here `at` are the
/// positions of the tools that give a name, and `names` are those names.
pub proof fn law_every_tool_offered(
    tools: Seq<Seq<char>>,
    at: Seq<int>,
    names: Seq<Seq<char>>,
    choices: Seq<Seq<char>>,
)
    requires
        at.len() == names.len(),
        choices.len() == names.len(),
        forall|j: int|
            0 <= j < at.len() ==> 0 <= #[trigger] at[j] < tools.len() && tool_name(tools[at[j]])
                == Some(names[j]),
        forall|j: int, l: int| 0 <= j < l < at.len() ==> at[j] < at[l],
        forall|i: int|
            0 <= i < tools.len() && tool_name(#[trigger] tools[i]) is Some ==> at.contains(i),
        forall|j: int|
            0 <= j < names.len() ==> #[trigger] choices[j] == seq!['"'] + names[j] + seq!['"'],
    ensures
        tool_names(tools) == names,
        grammar_text(tool_names(tools)) == GRAMMAR_HEAD@ + text::join(choices, seq![' ', '|', ' '])
            + GRAMMAR_TAIL@,
{
    lemma_names_at(tools, at, names);
    law_grammar_choices(names, choices);
}

proof fn lemma_names_at(tools: Seq<Seq<char>>, at: Seq<int>, names: Seq<Seq<char>>)
    requires
        at.len() == names.len(),
        forall|j: int|
            0 <= j < at.len() ==> 0 <= #[trigger] at[j] < tools.len() && tool_name(tools[at[j]])
                == Some(names[j]),
        forall|j: int, l: int| 0 <= j < l < at.len() ==> at[j] < at[l],
        forall|i: int|
            0 <= i < tools.len() && tool_name(#[trigger] tools[i]) is Some ==> at.contains(i),
    ensures
        tool_names(tools) == names,
    decreases tools.len(),
{
    if tools.len() == 0 {
        if at.len() > 0 {
            assert(at[0] < 0);
        }
        assert(names == Seq::<Seq<char>>::empty());
    } else {
        let n = tools.len() - 1;
        let before = tools.drop_last();
        if tool_name(tools[n]) is Some {
            let last = at.index_of(n);
            if last < at.len() - 1 {
                assert(at[last] < at[at.len() - 1]);
            }
            assert(at[at.len() - 1] == n);
            let at0 = at.drop_last();
            assert forall|i: int|
                0 <= i < before.len() && tool_name(#[trigger] before[i]) is Some implies at0.contains(i) by {
                assert(before[i] == tools[i]);
                let j = at.index_of(i);
                assert(at0[j] == i);
            }
            assert forall|j: int| 0 <= j < at0.len() implies 0 <= #[trigger] at0[j] < before.len()
                && tool_name(before[at0[j]]) == Some(names.drop_last()[j]) by {
                assert(at[j] < at[at.len() - 1]);
            }
            lemma_names_at(before, at0, names.drop_last());
            assert(names.drop_last().push(names.last()) == names);
        } else {
            assert forall|j: int| 0 <= j < at.len() implies 0 <= #[trigger] at[j] < before.len()
                && tool_name(before[at[j]]) == Some(names[j]) by {
                if at[j] == n {
                    assert(tool_name(tools[at[j]]) is Some);
                }
            }
            assert forall|i: int|
                0 <= i < before.len() && tool_name(#[trigger] before[i]) is Some implies at.contains(i) by {
                assert(before[i] == tools[i]);
            }
            lemma_names_at(before, at, names);
        }
    }
}

/// The names of tools in a row are those of the ones and those of the others; a tool that gives
/// no name adds none.
pub proof fn law_tool_names_concat(a: Seq<Seq<char>>, tool: Seq<char>, b: Seq<Seq<char>>)
    ensures
        tool_names(a.push(tool) + b) == tool_names(a) + match tool_name(tool) {
            Some(name) => seq![name],
            None => Seq::<Seq<char>>::empty(),
        } + tool_names(b),
    decreases b.len(),
{
    let all = a.push(tool) + b;
    if b.len() == 0 {
        assert(all == a.push(tool));
        assert(all.drop_last() == a);
    } else {
        assert(all.drop_last() == a.push(tool) + b.drop_last());
        law_tool_names_concat(a, tool, b.drop_last());
    }
    assert(tool_names(all) == tool_names(a) + match tool_name(tool) {
        Some(name) => seq![name],
        None => Seq::<Seq<char>>::empty(),
    } + tool_names(b));
}

} // verus!
