//! The OLMo 3 chat format as tokens.

use crate::calls;
use crate::decoder;
use crate::decoder::{OlmoToolDecoder, CALLS_END, CALLS_START};
use crate::grammar;
use crate::grammar::ToolGrammar;
use crate::json;
use crate::json::Json;
use crate::scan;
use crate::text;
use crate::tokenizer;
use crate::tokenizer::Tokenizer;
use crate::tool_calls;
use std::sync::Arc;
use vstd::prelude::*;
use vstd::string::*;

verus! {

/// The tag that opens a turn.
pub const TURN_START: &'static str = "<|im_start|>";

/// The tag that closes a turn.
pub const TURN_END: &'static str = "<|im_end|>";

/// What separates a role from its content, and a turn from the next.
pub const NEWLINE: &'static str = "\n";

/// The tag that ends a text.
pub const END_OF_TEXT: &'static str = "<|endoftext|>";

/// The role of instructions to the model.
pub const SYSTEM: &'static str = "system";

/// The role of the user.
pub const USER: &'static str = "user";

/// The role of the model.
pub const ASSISTANT: &'static str = "assistant";

/// The role of tool output.
pub const ENVIRONMENT: &'static str = "environment";

/// The tag that opens reasoning.
pub const THINK_START: &'static str = "<think>";

/// The tag that closes reasoning.
pub const THINK_END: &'static str = "</think>";

/// What the system turn says before it lists the tools.
pub const TOOLS_PREAMBLE: &'static str = "You are OLMo, a helpful function-calling AI assistant built by Ai2. Your date cutoff is November 2024. ";

/// The tag that opens the list of tools.
pub const FUNCTIONS_START: &'static str = "<functions>";

/// The tag that closes the list of tools.
pub const FUNCTIONS_END: &'static str = "</functions>";

/// The tokens of a turn: `<|im_start|>role\ncontent<|im_end|>\n`, piece by piece.
pub open spec fn turn_tokens<T: Tokenizer>(t: T, role: Seq<char>, content: Seq<char>) -> Seq<u32> {
    t.tokens_of(TURN_START@) + t.tokens_of(role) + t.tokens_of(NEWLINE@) + t.tokens_of(content)
        + t.tokens_of(TURN_END@) + t.tokens_of(NEWLINE@)
}

/// The tokens that ask the model for a turn: `<|im_start|>assistant\n<think>`, piece by piece.
pub open spec fn cue_tokens<T: Tokenizer>(t: T) -> Seq<u32> {
    t.tokens_of(TURN_START@) + t.tokens_of(ASSISTANT@) + t.tokens_of(NEWLINE@) + t.tokens_of(
        THINK_START@,
    )
}

/// The tokens that end a turn of the model: those of `<|im_end|>` and of `<|endoftext|>`.
pub open spec fn stop_tokens<T: Tokenizer>(t: T) -> Seq<u32> {
    t.tokens_of(TURN_END@) + t.tokens_of(END_OF_TEXT@)
}

/// What the system turn says to equip the model with tools.
pub open spec fn tools_message(tools: Seq<Seq<char>>) -> Seq<char> {
    TOOLS_PREAMBLE@ + FUNCTIONS_START@ + text::join(tools, NEWLINE@) + FUNCTIONS_END@
}

/// The calls of a turn, each rendered from its name and its arguments.
pub open spec fn rendered_calls(calls: Seq<(Seq<char>, Seq<char>)>) -> Seq<Seq<char>> {
    Seq::new(calls.len(), |i: int| tool_calls::rendered_call(calls[i].0, calls[i].1))
}

/// The calls of a turn, one to a line.
pub open spec fn calls_body(calls: Seq<(Seq<char>, Seq<char>)>) -> Seq<char> {
    text::join(rendered_calls(calls), seq!['\n'])
}

/// A call that stays on its line when it is rendered.
pub open spec fn keeps_line(name: Seq<char>, arguments_json: Seq<char>) -> bool {
    &&& text::is_trimmed(name)
    &&& tool_calls::single_line(name, tool_calls::argument_object(arguments_json))
}

/// A call that a decoder reports as it was when it reads its rendering as the first of a group.
pub open spec fn replayable(name: Seq<char>, arguments_json: Seq<char>) -> bool {
    let m = tool_calls::argument_object(arguments_json);
    &&& tool_calls::readable(name, m)
    &&& tool_calls::lossless(m)
    &&& keeps_line(name, arguments_json)
    &&& text::find_text(tool_calls::rendered_call(name, arguments_json), CALLS_END@) is None
}

/// What a decoder of visible text is set up with.
pub struct ChatDecoderSetup<T: Tokenizer> {
    /// The tokenizer that turns tokens into text.
    pub tokenizer: Arc<T>,
    /// The tokens that end the text.
    pub stop_ids: Vec<u32>,
}

/// What a decoder of reasoning is set up with.
pub struct ReasoningDecoderSetup<T: Tokenizer> {
    /// The tokenizer that turns tokens into text.
    pub tokenizer: Arc<T>,
    /// The tokens that open reasoning; none if the output starts inside it.
    pub start_ids: Vec<u32>,
    /// The tokens that close reasoning.
    pub end_ids: Vec<u32>,
}

/// Appends tokens.
fn extend(tokens: &mut Vec<u32>, more: &[u32])
    ensures
        final(tokens)@ == old(tokens)@ + more@,
{
    tokens.extend_from_slice(more);
    assert(tokens@ == old(tokens)@ + more@);
}

/// Copies tokens.
fn copy_of(tokens: &Vec<u32>) -> (r: Vec<u32>)
    ensures
        r@ == tokens@,
{
    let r = tokens.clone();
    assert(r@ == tokens@);
    r
}

/// The OLMo 3 instruct format over a tokenizer, with the tokens of its tags and roles.
#[allow(dead_code)]
pub struct OlmoInstruct<T: Tokenizer> {
    tokenizer: Arc<T>,
    im_start: Vec<u32>,
    im_end: Vec<u32>,
    newline: Vec<u32>,
    system_role: Vec<u32>,
    user_role: Vec<u32>,
    assistant_role: Vec<u32>,
    environment_role: Vec<u32>,
    functions_start: Vec<u32>,
    functions_end: Vec<u32>,
    fn_calls_start: Vec<u32>,
    fn_calls_end: Vec<u32>,
    think_start: Vec<u32>,
    think_end: Vec<u32>,
    stop_ids: Vec<u32>,
}

impl<T: Tokenizer> View for OlmoInstruct<T> {
    type V = T;

    closed spec fn view(&self) -> T {
        *self.tokenizer
    }
}

impl<T: Tokenizer> OlmoInstruct<T> {
    #[verifier::type_invariant]
    spec fn encoded(self) -> bool {
        &&& self.im_start@ == self.tokenizer.tokens_of(TURN_START@)
        &&& self.im_end@ == self.tokenizer.tokens_of(TURN_END@)
        &&& self.newline@ == self.tokenizer.tokens_of(NEWLINE@)
        &&& self.system_role@ == self.tokenizer.tokens_of(SYSTEM@)
        &&& self.user_role@ == self.tokenizer.tokens_of(USER@)
        &&& self.assistant_role@ == self.tokenizer.tokens_of(ASSISTANT@)
        &&& self.environment_role@ == self.tokenizer.tokens_of(ENVIRONMENT@)
        &&& self.functions_start@ == self.tokenizer.tokens_of(FUNCTIONS_START@)
        &&& self.functions_end@ == self.tokenizer.tokens_of(FUNCTIONS_END@)
        &&& self.fn_calls_start@ == self.tokenizer.tokens_of(CALLS_START@)
        &&& self.fn_calls_end@ == self.tokenizer.tokens_of(CALLS_END@)
        &&& self.think_start@ == self.tokenizer.tokens_of(THINK_START@)
        &&& self.think_end@ == self.tokenizer.tokens_of(THINK_END@)
        &&& self.stop_ids@ == stop_tokens(*self.tokenizer)
    }

    /// The format over `tokenizer`.
    pub fn new(tokenizer: Arc<T>) -> (r: Self)
        ensures
            r@ == *tokenizer,
    {
        let im_start = tokenizer.encode(TURN_START);
        let im_end = tokenizer.encode(TURN_END);
        let newline = tokenizer.encode(NEWLINE);
        let eos_token = tokenizer.encode(END_OF_TEXT);
        let mut stop_ids = copy_of(&im_end);
        extend(&mut stop_ids, eos_token.as_slice());
        let system_role = tokenizer.encode(SYSTEM);
        let user_role = tokenizer.encode(USER);
        let assistant_role = tokenizer.encode(ASSISTANT);
        let environment_role = tokenizer.encode(ENVIRONMENT);
        let functions_start = tokenizer.encode(FUNCTIONS_START);
        let functions_end = tokenizer.encode(FUNCTIONS_END);
        let fn_calls_start = tokenizer.encode(CALLS_START);
        let fn_calls_end = tokenizer.encode(CALLS_END);
        let think_start = tokenizer.encode(THINK_START);
        let think_end = tokenizer.encode(THINK_END);
        OlmoInstruct {
            tokenizer,
            im_start,
            im_end,
            newline,
            system_role,
            user_role,
            assistant_role,
            environment_role,
            functions_start,
            functions_end,
            fn_calls_start,
            fn_calls_end,
            think_start,
            think_end,
            stop_ids,
        }
    }

    /// The tokens of a turn whose role has the tokens `role`.
    fn wrap(&self, role: &[u32], content: &str) -> (r: Vec<u32>)
        ensures
            r@ == self@.tokens_of(TURN_START@) + role@ + self@.tokens_of(NEWLINE@)
                + self@.tokens_of(content@) + self@.tokens_of(TURN_END@) + self@.tokens_of(NEWLINE@),
    {
        proof {
            use_type_invariant(self);
        }
        let mut tokens = copy_of(&self.im_start);
        extend(&mut tokens, role);
        extend(&mut tokens, self.newline.as_slice());
        let body = self.tokenizer.encode(content);
        extend(&mut tokens, body.as_slice());
        extend(&mut tokens, self.im_end.as_slice());
        extend(&mut tokens, self.newline.as_slice());
        tokens
    }

    /// A system turn.
    pub fn system(&self, msg: &str) -> (r: Vec<u32>)
        ensures
            r@ == turn_tokens(self@, SYSTEM@, msg@),
            r@ == turn_tokens(self@, "system"@, msg@),
    {
        proof {
            use_type_invariant(self);
        }
        self.wrap(self.system_role.as_slice(), msg)
    }

    /// A user turn.
    pub fn user(&self, msg: &str) -> (r: Vec<u32>)
        ensures
            r@ == turn_tokens(self@, USER@, msg@),
            r@ == turn_tokens(self@, "user"@, msg@),
    {
        proof {
            use_type_invariant(self);
        }
        self.wrap(self.user_role.as_slice(), msg)
    }

    /// A turn of the model.
    pub fn assistant(&self, msg: &str) -> (r: Vec<u32>)
        ensures
            r@ == turn_tokens(self@, ASSISTANT@, msg@),
            r@ == turn_tokens(self@, "assistant"@, msg@),
    {
        proof {
            use_type_invariant(self);
        }
        self.wrap(self.assistant_role.as_slice(), msg)
    }

    /// The prompt for a turn of the model, which begins with reasoning.
    pub fn cue(&self) -> (r: Vec<u32>)
        ensures
            r@ == cue_tokens(self@),
    {
        proof {
            use_type_invariant(self);
        }
        let mut tokens = copy_of(&self.im_start);
        extend(&mut tokens, self.assistant_role.as_slice());
        extend(&mut tokens, self.newline.as_slice());
        extend(&mut tokens, self.think_start.as_slice());
        tokens
    }

    /// The tokens that end a turn of the model.
    pub fn seal(&self) -> (r: Vec<u32>)
        ensures
            r@ == stop_tokens(self@),
    {
        proof {
            use_type_invariant(self);
        }
        copy_of(&self.stop_ids)
    }

    /// A system turn that lists the tools; nothing if there are none.
    pub fn equip(&self, tools: &[String]) -> (r: Vec<u32>)
        ensures
            r@ == if tools@.len() == 0 {
                Seq::empty()
            } else {
                turn_tokens(self@, SYSTEM@, tools_message(text::texts(tools@)))
            },
            tools@.len() > 0 ==> r@ == turn_tokens(
                self@,
                "system"@,
                tools_message(text::texts(tools@)),
            ),
    {
        if tools.is_empty() {
            return Vec::new();
        }
        let mut msg = TOOLS_PREAMBLE.to_owned();
        msg.append(FUNCTIONS_START);
        msg.append(text::join_strings(tools, NEWLINE).as_str());
        msg.append(FUNCTIONS_END);
        self.system(msg.as_str())
    }

    /// A turn with the output of a tool. The format has no place for the name of the tool.
    pub fn answer(&self, _name: &str, value: &str) -> (r: Vec<u32>)
        ensures
            r@ == turn_tokens(self@, ENVIRONMENT@, value@),
            r@ == turn_tokens(self@, "environment"@, value@),
    {
        proof {
            use_type_invariant(self);
        }
        self.wrap(self.environment_role.as_slice(), value)
    }

    /// Renders the calls of a turn: all of them in a single `<function_calls>` group, one to a
    /// line, each as `name(key=value, ...)` with compact JSON as values, in the order of the
    /// keys.
    ///
    /// A decoder can read the rendered group, and reports its first call.
    pub fn render_tool_calls(&self, calls: &[(String, String)]) -> (r: String)
        ensures
            r@ == decoder::group_text(rendered_calls(calls::pairs(calls@))),
            r@ == "<function_calls>"@ + text::join(
                Seq::new(
                    calls@.len(),
                    |i: int| tool_calls::rendered_call(calls@[i].0@, calls@[i].1@),
                ),
                seq!['\n'],
            ) + "</function_calls>"@,
            forall|i: int|
                0 <= i < calls@.len() ==> {
                    let m = tool_calls::argument_object((#[trigger] calls@[i]).1@);
                    &&& json::lists_keys(json::key_order(m), m)
                    &&& json::within(Json::Object(m), json::MAX_DEPTH as nat)
                },
            decoder::can_advance(decoder::fresh(), r@),
            text::find_text(calls_body(calls::pairs(calls@)), CALLS_END@) is None
                ==> decoder::advanced(decoder::fresh(), r@) == (
                decoder::fresh(),
                Some(text::trimmed(calls_body(calls::pairs(calls@)))),
            ),
            (forall|j: int|
                0 <= j < calls@.len() ==> keeps_line((#[trigger] calls@[j]).0@, calls@[j].1@))
                ==> forall|i: int|
                0 <= i < calls@.len() ==> {
                    let line = #[trigger] scan::call_lines(
                        text::trimmed(calls_body(calls::pairs(calls@))),
                    )[i];
                    let m = tool_calls::argument_object(calls@[i].1@);
                    &&& line == tool_calls::rendered_call(calls@[i].0@, calls@[i].1@)
                    &&& tool_calls::readable(calls@[i].0@, m) && tool_calls::lossless(m)
                        ==> tool_calls::parsed_call(line) == Some(
                        (calls@[i].0@, json::json_text(Json::Object(m))),
                    )
                },
            (forall|i: int|
                0 <= i < calls@.len() ==> keeps_line((#[trigger] calls@[i]).0@, calls@[i].1@))
                ==> scan::call_lines(text::trimmed(calls_body(calls::pairs(calls@))))
                == rendered_calls(calls::pairs(calls@)),
            calls@.len() > 0 && replayable(calls@[0].0@, calls@[0].1@) ==> decoder::fed(
                decoder::fresh(),
                r@,
            ).1 == Some(
                (
                    calls@[0].0@,
                    json::json_text(Json::Object(tool_calls::argument_object(calls@[0].1@))),
                ),
            ),
    {
        let n: usize = calls.len();
        let mut lines: Vec<String> = Vec::new();
        let ghost all = calls::pairs(calls@);
        let mut i: usize = 0;
        while i < n
            invariant
                i <= n,
                n == calls@.len(),
                all == calls::pairs(calls@),
                text::texts(lines@) == rendered_calls(all).take(i as int),
                forall|j: int|
                    0 <= j < i ==> {
                        let m = tool_calls::argument_object((#[trigger] calls@[j]).1@);
                        &&& json::lists_keys(json::key_order(m), m)
                        &&& json::within(Json::Object(m), json::MAX_DEPTH as nat)
                    },
                forall|j: int|
                    #![trigger rendered_calls(all)[j]]
                    0 <= j < i ==> {
                        let m = tool_calls::argument_object(all[j].1);
                        let line = rendered_calls(all)[j];
                        &&& tool_calls::single_line(all[j].0, m) ==> scan::one_line(line)
                        &&& tool_calls::readable(all[j].0, m) && tool_calls::lossless(m)
                            ==> tool_calls::parsed_call(line) == Some(
                            (all[j].0, json::json_text(Json::Object(m))),
                        )
                    },
            decreases n - i,
        {
            let line = tool_calls::render_one_call(calls[i].0.as_str(), calls[i].1.as_str());
            let ghost done = lines@;
            lines.push(line);
            assert(text::texts(lines@) == text::texts(done).push(line@));
            assert(line@ == rendered_calls(all)[i as int]);
            i += 1;
        }
        assert(rendered_calls(all).take(n as int) == rendered_calls(all));
        let mut out = CALLS_START.to_owned();
        out.append(text::join_strings(lines.as_slice(), NEWLINE).as_str());
        out.append(CALLS_END);
        proof {
            reveal_strlit("\n");
            assert(NEWLINE@ == seq!['\n']);
            let list = rendered_calls(all);
            assert(list == Seq::new(
                calls@.len(),
                |i: int| tool_calls::rendered_call(calls@[i].0@, calls@[i].1@),
            ));
            let nothing = Seq::<char>::empty();
            text::lemma_find_from(nothing, CALLS_START@, 0);
            reveal_strlit("<function_calls>");
            assert(nothing + nothing == nothing);
            assert(nothing + decoder::group_text(list) + nothing == out@);
            assert(text::occurs_at(nothing + out@, CALLS_START@, 0)) by {
                assert((nothing + out@).subrange(0, CALLS_START@.len() as int) == CALLS_START@);
            }
            text::lemma_find_from(nothing + out@, CALLS_START@, 0);
            assert forall|j: int|
                0 <= j < list.len() && text::is_trimmed(all[j].0) implies (#[trigger] list[j]).len()
                > 0 && text::is_trimmed(list[j]) by {
                let m = tool_calls::argument_object(all[j].1);
                calls::lemma_call_trimmed(all[j].0, tool_calls::member_arguments(m));
            }
            if text::find_text(calls_body(all), CALLS_END@) is None {
                decoder::law_group_found(decoder::fresh(), nothing, list, nothing);
            }
            if forall|j: int|
                0 <= j < calls@.len() ==> keeps_line((#[trigger] calls@[j]).0@, calls@[j].1@) {
                assert forall|j: int| 0 <= j < list.len() implies (#[trigger] list[j]).len() > 0
                    && text::is_trimmed(list[j]) && scan::one_line(list[j]) by {
                    assert(all[j] == (calls@[j].0@, calls@[j].1@));
                    assert(list[j] == rendered_calls(all)[j]);
                }
                scan::law_lines_back(list);
                text::law_trimmed(calls_body(all));
                assert forall|j: int| 0 <= j < calls@.len() implies ({
                    let line = #[trigger] scan::call_lines(text::trimmed(calls_body(all)))[j];
                    let m = tool_calls::argument_object(calls@[j].1@);
                    &&& line == tool_calls::rendered_call(calls@[j].0@, calls@[j].1@)
                    &&& tool_calls::readable(calls@[j].0@, m) && tool_calls::lossless(m)
                        ==> tool_calls::parsed_call(line) == Some(
                        (calls@[j].0@, json::json_text(Json::Object(m))),
                    )
                }) by {
                    assert(all[j] == (calls@[j].0@, calls@[j].1@));
                    assert(rendered_calls(all)[j] == list[j]);
                }
            }
            if calls@.len() > 0 {
                assert(list[0] == rendered_calls(all)[0]);
                if text::is_trimmed(list[0]) && scan::one_line(list[0]) && text::find_text(
                    list[0],
                    CALLS_END@,
                ) is None {
                    decoder::law_first_call_found(decoder::fresh(), nothing, list, nothing);
                }
            }
        }
        out
    }

    /// The setup of a decoder of visible text, which ends with the turn.
    pub fn chat_decoder(&self) -> (r: ChatDecoderSetup<T>)
        ensures
            *r.tokenizer == self@,
            r.stop_ids@ == self@.tokens_of(TURN_END@),
            r.stop_ids@ == self@.tokens_of("<|im_end|>"@),
    {
        proof {
            use_type_invariant(self);
        }
        ChatDecoderSetup { tokenizer: self.tokenizer.clone(), stop_ids: copy_of(&self.im_end) }
    }

    /// The setup of a decoder of reasoning. The output starts inside reasoning, because the cue
    /// ends with the tag that opens it.
    pub fn reasoning_decoder(&self) -> (r: ReasoningDecoderSetup<T>)
        ensures
            *r.tokenizer == self@,
            r.start_ids@.len() == 0,
            r.end_ids@ == self@.tokens_of(THINK_END@),
            r.end_ids@ == self@.tokens_of("</think>"@),
    {
        proof {
            use_type_invariant(self);
        }
        ReasoningDecoderSetup {
            tokenizer: self.tokenizer.clone(),
            start_ids: Vec::new(),
            end_ids: copy_of(&self.think_end),
        }
    }

    /// A decoder of tool calls.
    pub fn tool_decoder(&self) -> (r: OlmoToolDecoder<T>)
        ensures
            r@ == decoder::fresh(),
            r.tokenizer() == self@,
    {
        OlmoToolDecoder::new(self.tokenizer.clone())
    }

    /// The grammar that constrains generation to calls of the given tools, compiled by
    /// `compile`, which takes an EBNF source and the name of the rule to start from. There is
    /// none if no tool has a name, or if the source cannot be compiled.
    pub fn tool_call_grammar<G, E, F: FnOnce(&str, &str) -> Result<G, E>>(
        &self,
        tools: &[String],
        compile: F,
    ) -> (r: Option<ToolGrammar<G>>)
        requires
            forall|source: &str, root: &str| #[trigger] compile.requires((source, root)),
        ensures
            grammar::tool_names(text::texts(tools@)).len() == 0 ==> r is None,
            grammar::tool_names(text::texts(tools@)).len() > 0 ==> exists|
                source: &str,
                root: &str,
                compiled: Result<G, E>,
            | #[trigger]
                compile.ensures((source, root), compiled) && {
                    &&& source@ == grammar::grammar_text(
                        grammar::tool_names(text::texts(tools@)),
                    )
                    &&& root@ == grammar::GRAMMAR_ROOT@
                    &&& match compiled {
                        Ok(g) => r matches Some(made) && made.source@ == source@ && *made.grammar
                            == g,
                        Err(_) => r is None,
                    }
                },
    {
        match grammar::build_tool_call_grammar(tools) {
            None => None,
            Some(source) => {
                let compiled = compile(source.as_str(), grammar::GRAMMAR_ROOT);
                ToolGrammar::from_compiled(source, compiled)
            },
        }
    }
}

/// The text of a turn.
pub open spec fn turn_text(role: Seq<char>, content: Seq<char>) -> Seq<char> {
    TURN_START@ + role + NEWLINE@ + content + TURN_END@ + NEWLINE@
}

/// The text of the prompt for a turn of the model.
pub open spec fn cue_text() -> Seq<char> {
    TURN_START@ + ASSISTANT@ + NEWLINE@ + THINK_START@
}

/// The tokens of turns in a row, each given by its role and its content.
pub open spec fn conversation_tokens<T: Tokenizer>(
    t: T,
    turns: Seq<(Seq<char>, Seq<char>)>,
) -> Seq<u32>
    decreases turns.len(),
{
    if turns.len() == 0 {
        Seq::empty()
    } else {
        conversation_tokens(t, turns.drop_last()) + turn_tokens(
            t,
            turns.last().0,
            turns.last().1,
        )
    }
}

/// The text of turns in a row.
pub open spec fn conversation_text(turns: Seq<(Seq<char>, Seq<char>)>) -> Seq<char>
    decreases turns.len(),
{
    if turns.len() == 0 {
        Seq::empty()
    } else {
        conversation_text(turns.drop_last()) + turn_text(turns.last().0, turns.last().1)
    }
}

/// The tokens of a turn decode to `<|im_start|>role\ncontent<|im_end|>\n`, if the tokenizer
/// preserves these pieces and its decoding follows along.
pub proof fn law_turn_text<T: Tokenizer>(t: T, role: Seq<char>, content: Seq<char>)
    requires
        tokenizer::appends(t),
        tokenizer::preserves(t, TURN_START@),
        tokenizer::preserves(t, role),
        tokenizer::preserves(t, NEWLINE@),
        tokenizer::preserves(t, content),
        tokenizer::preserves(t, TURN_END@),
    ensures
        t.text_of(turn_tokens(t, role, content), false) == turn_text(role, content),
        turn_text(role, content) == "<|im_start|>"@ + role + "\n"@ + content + "<|im_end|>"@ + "\n"@,
{
}

/// The prompt for a turn of the model decodes to `<|im_start|>assistant\n<think>`, if the
/// tokenizer preserves these pieces and its decoding follows along.
pub proof fn law_cue_text<T: Tokenizer>(t: T)
    requires
        tokenizer::appends(t),
        tokenizer::preserves(t, TURN_START@),
        tokenizer::preserves(t, ASSISTANT@),
        tokenizer::preserves(t, NEWLINE@),
        tokenizer::preserves(t, THINK_START@),
    ensures
        t.text_of(cue_tokens(t), false) == cue_text(),
        cue_text() == "<|im_start|>"@ + "assistant"@ + "\n"@ + "<think>"@,
{
}

/// The tokens of a conversation decode to its turns in a row, and with the prompt for a turn of
/// the model to these and the prompt, if the tokenizer preserves the pieces and its decoding
/// follows along.
pub proof fn law_conversation_text<T: Tokenizer>(t: T, turns: Seq<(Seq<char>, Seq<char>)>)
    requires
        tokenizer::appends(t),
        tokenizer::preserves(t, TURN_START@),
        tokenizer::preserves(t, NEWLINE@),
        tokenizer::preserves(t, TURN_END@),
        tokenizer::preserves(t, ASSISTANT@),
        tokenizer::preserves(t, THINK_START@),
        turns.len() > 0,
        forall|i: int|
            0 <= i < turns.len() ==> tokenizer::preserves(t, (#[trigger] turns[i]).0)
                && tokenizer::preserves(t, turns[i].1),
    ensures
        t.text_of(conversation_tokens(t, turns), false) == conversation_text(turns),
        t.text_of(conversation_tokens(t, turns) + cue_tokens(t), false) == conversation_text(turns)
            + cue_text(),
    decreases turns.len(),
{
    let (role, content) = turns.last();
    let before = turns.drop_last();
    assert(tokenizer::preserves(t, turns[turns.len() - 1].0));
    law_turn_text(t, role, content);
    if turns.len() == 1 {
        reveal_with_fuel(conversation_tokens, 2);
        reveal_with_fuel(conversation_text, 2);
        assert(conversation_tokens(t, turns) == turn_tokens(t, role, content));
        assert(conversation_text(turns) == turn_text(role, content));
    } else {
        law_conversation_text(t, before);
        let a = conversation_tokens(t, before);
        let b = a + t.tokens_of(TURN_START@) + t.tokens_of(role) + t.tokens_of(NEWLINE@)
            + t.tokens_of(content) + t.tokens_of(TURN_END@) + t.tokens_of(NEWLINE@);
        assert(conversation_tokens(t, turns) == b);
        assert(t.text_of(b, false) == conversation_text(before) + TURN_START@ + role + NEWLINE@
            + content + TURN_END@ + NEWLINE@);
        assert(t.text_of(b, false) == conversation_text(turns));
    }
    let a = conversation_tokens(t, turns);
    let b = a + t.tokens_of(TURN_START@) + t.tokens_of(ASSISTANT@) + t.tokens_of(NEWLINE@)
        + t.tokens_of(THINK_START@);
    assert(a + cue_tokens(t) == b);
    assert(t.text_of(b, false) == conversation_text(turns) + TURN_START@ + ASSISTANT@ + NEWLINE@
        + THINK_START@);
    assert(t.text_of(b, false) == conversation_text(turns) + cue_text());
}

/// A turn is the tokens of its content between those of `<|im_start|>role\n` and those of
/// `<|im_end|>\n`, for every tokenizer. The prompt for a turn of the model begins as a turn of
/// the model does.
pub proof fn law_turn_pieces<T: Tokenizer>(t: T, role: Seq<char>, content: Seq<char>)
    ensures
        turn_tokens(t, role, content) == t.tokens_of("<|im_start|>"@) + t.tokens_of(role)
            + t.tokens_of("\n"@) + t.tokens_of(content) + t.tokens_of("<|im_end|>"@) + t.tokens_of(
            "\n"@,
        ),
        cue_tokens(t) == turn_tokens(t, "assistant"@, content).take(
            (t.tokens_of("<|im_start|>"@) + t.tokens_of("assistant"@) + t.tokens_of(
                "\n"@,
            )).len() as int,
        ) + t.tokens_of("<think>"@),
{
    let lead = t.tokens_of("<|im_start|>"@) + t.tokens_of("assistant"@) + t.tokens_of("\n"@);
    assert(turn_tokens(t, "assistant"@, content).take(lead.len() as int) == lead);
}

/// The tokens that end a turn of the model are those of `<|im_end|>`, which also close every
/// turn before its last line feed, and behind them those of `<|endoftext|>`, each unchanged.
/// They decode to both tags in a row, if the tokenizer preserves these and its decoding follows
/// along.
pub proof fn law_stop_tokens<T: Tokenizer>(t: T)
    ensures
        stop_tokens(t) == t.tokens_of("<|im_end|>"@) + t.tokens_of("<|endoftext|>"@),
        tokenizer::appends(t) && tokenizer::preserves(t, "<|im_end|>"@) && tokenizer::preserves(
            t,
            "<|endoftext|>"@,
        ) ==> t.text_of(stop_tokens(t), false) == "<|im_end|>"@ + "<|endoftext|>"@,
{
}

/// The message that equips the model is the preamble and, between the tags, the list of the
/// tools: cut at its line feeds, the list gives back all the tools, if none of them holds one.
pub proof fn law_tools_listed(tools: Seq<Seq<char>>) -> (list: Seq<char>)
    requires
        tools.len() > 0,
        forall|i: int, j: int|
            0 <= i < tools.len() && 0 <= j < tools[i].len() ==> #[trigger] tools[i][j] != '\n',
    ensures
        tools_message(tools) == "You are OLMo, a helpful function-calling AI assistant built by Ai2. Your date cutoff is November 2024. "@
            + "<functions>"@ + list + "</functions>"@,
        scan::split(scan::Cut::Line, list) == tools,
{
    reveal_strlit("\n");
    assert(NEWLINE@ == seq!['\n']);
    lemma_tools_split(tools);
    text::join(tools, NEWLINE@)
}

proof fn lemma_tools_split(tools: Seq<Seq<char>>)
    requires
        tools.len() > 0,
        forall|i: int, j: int|
            0 <= i < tools.len() && 0 <= j < tools[i].len() ==> #[trigger] tools[i][j] != '\n',
    ensures
        scan::split(scan::Cut::Line, text::join(tools, seq!['\n'])) == tools,
    decreases tools.len(),
{
    let last = tools[tools.len() - 1];
    scan::law_split_whole(last);
    if tools.len() == 1 {
        assert(tools == seq![last]);
    } else {
        let before = tools.drop_last();
        let a = text::join(before, seq!['\n']);
        assert forall|i: int, j: int| 0 <= i < before.len() && 0 <= j < before[i].len() implies #[trigger] before[i][j]
            != '\n' by {
            assert(before[i] == tools[i]);
        }
        lemma_tools_split(before);
        assert(a + seq!['\n'] + last == a.push('\n') + last);
        scan::law_split_at_line_feed(a, last);
        assert(before + seq![last] == tools);
    }
}

/// With a further tool, the list of tools goes on with a line feed and that tool, whatever the
/// tools hold; the list of a single tool is that tool.
pub proof fn law_tools_grow(tools: Seq<Seq<char>>, tool: Seq<char>)
    ensures
        tools_message(seq![tool]) == TOOLS_PREAMBLE@ + "<functions>"@ + tool + "</functions>"@,
        tools.len() > 0 ==> tools_message(tools.push(tool)) == tools_message(tools).take(
            tools_message(tools).len() - "</functions>"@.len(),
        ) + "\n"@ + tool + "</functions>"@,
{
    text::law_join_single(tool, NEWLINE@);
    if tools.len() > 0 {
        let list = text::join(tools, NEWLINE@);
        let lead = TOOLS_PREAMBLE@ + "<functions>"@ + list;
        text::law_join_concat(tools, seq![tool], NEWLINE@);
        assert(tools.push(tool) == tools + seq![tool]);
        assert(tools_message(tools).take(lead.len() as int) == lead);
        assert(tools_message(tools.push(tool)) == lead + "\n"@ + tool + "</functions>"@);
    }
}

/// Every line of a group is its own call: if the calls, rendered by themselves, are on one line
/// each without white space at their ends, the calls that the group holds are as many, and each
/// is what its own name and its own arguments are rendered to.
pub proof fn law_group_lines(calls: Seq<(Seq<char>, Seq<char>)>)
    requires
        forall|i: int|
            0 <= i < calls.len() ==> {
                let line = tool_calls::rendered_call((#[trigger] calls[i]).0, calls[i].1);
                &&& line.len() > 0
                &&& text::is_trimmed(line)
                &&& scan::one_line(line)
            },
    ensures
        scan::call_lines(text::trimmed(calls_body(calls))).len() == calls.len(),
        forall|i: int|
            0 <= i < calls.len() ==> #[trigger] scan::call_lines(
                text::trimmed(calls_body(calls)),
            )[i] == tool_calls::rendered_call(calls[i].0, calls[i].1),
{
    let list = rendered_calls(calls);
    assert forall|i: int| 0 <= i < list.len() implies (#[trigger] list[i]).len() > 0
        && text::is_trimmed(list[i]) && scan::one_line(list[i]) by {
        assert(list[i] == tool_calls::rendered_call(calls[i].0, calls[i].1));
    }
    scan::law_lines_back(list);
    text::law_trimmed(calls_body(calls));
}

/// A rendered group holds each call rendered by itself, from its own name and its own arguments:
/// the group of a single call is that call between the tags, and with a further call the group
/// goes on, before its closing tag, with a line feed and that call.
pub proof fn law_group_grows(calls: Seq<(Seq<char>, Seq<char>)>, call: (Seq<char>, Seq<char>))
    ensures
        decoder::group_text(rendered_calls(Seq::<(Seq<char>, Seq<char>)>::empty()))
            == "<function_calls>"@ + "</function_calls>"@,
        decoder::group_text(rendered_calls(seq![call])) == "<function_calls>"@
            + tool_calls::rendered_call(call.0, call.1) + "</function_calls>"@,
        calls.len() > 0 ==> decoder::group_text(rendered_calls(calls.push(call)))
            == decoder::group_text(rendered_calls(calls)).take(
            decoder::group_text(rendered_calls(calls)).len() - "</function_calls>"@.len(),
        ) + "\n"@ + tool_calls::rendered_call(call.0, call.1) + "</function_calls>"@,
        calls_body(seq![call]) == tool_calls::rendered_call(call.0, call.1),
        calls.len() > 0 ==> calls_body(calls.push(call)) == calls_body(calls) + "\n"@
            + tool_calls::rendered_call(call.0, call.1),
{
    let line = tool_calls::rendered_call(call.0, call.1);
    let nl = seq!['\n'];
    reveal_strlit("\n");
    assert("\n"@ == nl);
    text::law_join_single(line, nl);
    assert(rendered_calls(Seq::<(Seq<char>, Seq<char>)>::empty()) == Seq::<Seq<char>>::empty());
    assert(CALLS_START@ + Seq::<char>::empty() + CALLS_END@ == CALLS_START@ + CALLS_END@);
    assert(rendered_calls(seq![call]) == seq![line]);
    if calls.len() > 0 {
        let list = rendered_calls(calls);
        let lead = CALLS_START@ + text::join(list, nl);
        assert(rendered_calls(calls.push(call)) == list + seq![line]);
        text::law_join_concat(list, seq![line], nl);
        assert(decoder::group_text(list).take(lead.len() as int) == lead);
        assert(decoder::group_text(list + seq![line]) == lead + nl + line + CALLS_END@);
    }
}

} // verus!
