//! The OLMo 3 instruct format.
//!
//! - Turns are `<|im_start|>role\ncontent<|im_end|>\n`.
//! - Tools are listed in `<functions>...</functions>` in a system turn.
//! - Tool calls stand in `<function_calls>...</function_calls>` in a turn of the model.
//! - Tool output stands in turns of the role `environment`.
//! - The prompt for a turn of the model is `<|im_start|>assistant\n<think>`.
//!
//! [`instruct`] lays out turns, [`tool_calls`] writes and reads calls, [`decoder`] finds calls
//! in streamed output, and [`grammar`] writes the grammar that constrains a model to them. They
//! rest on [`calls`] and [`scan`], the call syntax over plain text, on [`text`], and on
//! [`json`], which stands between the library and `serde_json`. A [`tokenizer`] is supplied
//! from outside.

pub mod calls;
pub mod decoder;
pub mod grammar;
pub mod instruct;
pub mod json;
pub mod scan;
pub mod text;
pub mod tokenizer;
pub mod tool_calls;

pub use calls::split_call;
pub use decoder::{OlmoToolDecoder, ToolEvent, ToolState};
pub use grammar::{build_tool_call_grammar, ToolGrammar};
pub use instruct::OlmoInstruct;
pub use scan::{split_calls, split_top_level_commas};
pub use tokenizer::{Tokenizer, VocabTokenizer};
pub use tool_calls::{parse_call_syntax, render_one_call};
