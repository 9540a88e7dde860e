# olmo3_instruct

The OLMo 3 instruct format as a verified library: laying out chat turns as tokens, rendering
and parsing tool calls, decoding tool calls from streamed output, and writing the grammar that
constrains a model to well-formed calls.

Every function states what it returns in its contract, and Verus proves it. Properties that
span functions are `law_*` proof functions, or clauses of the function they are about:

- a rendered call is read back as the name and the arguments it was rendered from
  (`render_one_call`, `law_write_then_split`), if its name has no opening parenthesis and no
  white space at its ends, its keys are plain, as all identifiers are
  (`law_identifier_plain`), and its values are the same when written and read again, as all
  are that hold no floating-point number;
- a rendered group of calls is found again by the decoder, if no call holds the closing tag
  (`render_tool_calls`, `law_group_found`), and its first call is reported as it was, if it
  can be read back and is on one line (`render_tool_calls`, `law_first_call_found`,
  `law_first_call_untagged`);
- where model output is cut in two chunks, the decoder finds the same group and the same call
  as in one, if the first chunk can be read and closes no group by itself (`law_chunking`);
- the pieces of a text that was split, joined again, are the text, and none can be split
  further (`law_split_join`, `law_pieces_uncut`);
- the calls of a group are single lines, neither empty nor with white space at an end
  (`law_call_lines`), and lines like that, joined by line feeds, are given back
  (`law_lines_back`);
- turns decode to the text of the format, if the tokenizer preserves the pieces of a turn and
  decoding appends them (`law_turn_text`, `law_cue_text`, `law_conversation_text`).

JSON is read and written by `serde_json`. What is relied on of it stands in `src/json.rs`, and
nowhere else.
