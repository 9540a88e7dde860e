use olmo3_instruct::instruct::{ChatDecoderSetup, ReasoningDecoderSetup};
use olmo3_instruct::{OlmoInstruct, Tokenizer, VocabTokenizer};
use std::sync::Arc;

fn make_tok(vocab: &[&str]) -> Arc<VocabTokenizer> {
    let v: Vec<String> = vocab.iter().map(|s| s.to_string()).collect();
    Arc::new(VocabTokenizer::from_vocab(&v))
}

fn olmo() -> (OlmoInstruct<VocabTokenizer>, Arc<VocabTokenizer>) {
    let tok = make_tok(&[
        "<|im_start|>",
        "<|im_end|>",
        "\n",
        "system",
        "Hello",
        "user",
        "assistant",
        "environment",
        "<|endoftext|>",
        "<functions>",
        "</functions>",
        "<function_calls>",
        "</function_calls>",
        "<think>",
        "</think>",
    ]);
    (OlmoInstruct::new(tok.clone()), tok)
}

#[test]
fn system_format() {
    let tok = make_tok(&["<|im_start|>", "<|im_end|>", "\n", "system", "Hello"]);
    let inst = OlmoInstruct::new(tok.clone());
    let tokens = inst.system("Hello");
    let text = tok.decode(&tokens, false);
    assert!(text.contains("<|im_start|>system\nHello<|im_end|>\n"));
}

#[test]
fn equip_format() {
    // The content of the turn is an entry of its own, so that it is one token.
    let tools = &["foo".to_string(), "bar".to_string()];
    let preamble = "You are OLMo, a helpful function-calling AI assistant built by Ai2. Your date cutoff is November 2024. ";
    let content = format!("{}<functions>{}</functions>", preamble, tools.join("\n"));
    let mut vocab: Vec<String> = vec![
        "<|im_start|>",
        "<|im_end|>",
        "\n",
        "system",
        "<functions>",
        "</functions>",
        "foo",
        "bar",
    ]
    .into_iter()
    .map(String::from)
    .collect();
    vocab.push(content.clone());
    let tok = Arc::new(VocabTokenizer::from_vocab(&vocab));
    let inst = OlmoInstruct::new(tok.clone());
    let tokens = inst.equip(tools);
    let text = tok.decode(&tokens, false);
    assert!(text.contains("<functions>"));
    assert!(text.contains("foo"));
    assert!(text.contains("bar"));
    assert!(text.contains("</functions>"));
    assert_eq!(tokens, vec![0, 3, 2, 8, 1, 2]);
    assert_eq!(text, format!("<|im_start|>system\n{}<|im_end|>\n", content));
}

#[test]
fn answer_format() {
    let tok = make_tok(&["<|im_start|>", "<|im_end|>", "\n", "environment", "result"]);
    let inst = OlmoInstruct::new(tok.clone());
    let tokens = inst.answer("fn", "result");
    let text = tok.decode(&tokens, false);
    assert!(text.contains("<|im_start|>environment\nresult<|im_end|>\n"));
}

#[test]
fn generation_cue_includes_think() {
    let tok = make_tok(&["<|im_start|>", "<|im_end|>", "\n", "assistant", "<think>"]);
    let inst = OlmoInstruct::new(tok.clone());
    let tokens = inst.cue();
    let text = tok.decode(&tokens, false);
    assert!(text.contains("<|im_start|>assistant\n<think>"));
}

#[test]
fn full_conversation() {
    let (inst, tok) = olmo();
    let mut tokens = Vec::new();
    tokens.extend(inst.system("Hello"));
    tokens.extend(inst.user("Hello"));
    tokens.extend(inst.assistant("Hello"));
    tokens.extend(inst.user("Hello"));
    tokens.extend(inst.cue());
    let text = tok.decode(&tokens, false);
    assert_eq!(
        text,
        "<|im_start|>system\nHello<|im_end|>\n\
         <|im_start|>user\nHello<|im_end|>\n\
         <|im_start|>assistant\nHello<|im_end|>\n\
         <|im_start|>user\nHello<|im_end|>\n\
         <|im_start|>assistant\n<think>"
    );
}

#[test]
fn answer_uses_environment_role() {
    let (inst, tok) = olmo();
    let tokens = inst.answer("fn", "Hello");
    let text = tok.decode(&tokens, false);
    assert_eq!(text, "<|im_start|>environment\nHello<|im_end|>\n");
}

#[test]
fn turns_are_token_by_token() {
    let (inst, _) = olmo();
    assert_eq!(inst.system("Hello"), vec![0, 3, 2, 4, 1, 2]);
    assert_eq!(inst.user("Hello"), vec![0, 5, 2, 4, 1, 2]);
    assert_eq!(inst.assistant("Hello"), vec![0, 6, 2, 4, 1, 2]);
    assert_eq!(inst.answer("any", "Hello"), vec![0, 7, 2, 4, 1, 2]);
    assert_eq!(inst.cue(), vec![0, 6, 2, 13]);
}

#[test]
fn seal_is_turn_end_then_end_of_text() {
    let (inst, _) = olmo();
    assert_eq!(inst.seal(), vec![1, 8]);
}

#[test]
fn equip_without_tools_is_empty() {
    let (inst, _) = olmo();
    assert!(inst.equip(&[]).is_empty());
}

#[test]
fn text_outside_the_vocabulary_has_no_tokens() {
    let (inst, tok) = olmo();
    assert!(tok.encode("Goodbye").is_empty());
    assert_eq!(inst.user("Goodbye"), vec![0, 5, 2, 1, 2]);
    assert_eq!(tok.decode(&[4, 99, 4], false), "HelloHello");
    assert_eq!(tok.decode(&[4, 2, 5], true), "Hello\nuser");
}

#[test]
fn repeated_entries_encode_to_the_first() {
    let tok = make_tok(&["a", "b", "a"]);
    assert_eq!(tok.encode("a"), vec![0]);
    assert_eq!(tok.decode(&[2, 1], false), "ab");
}

#[test]
fn decoder_setups() {
    let (inst, tok) = olmo();
    let chat: ChatDecoderSetup<VocabTokenizer> = inst.chat_decoder();
    assert_eq!(chat.stop_ids, vec![1]);
    assert!(Arc::ptr_eq(&chat.tokenizer, &tok));
    let reasoning: ReasoningDecoderSetup<VocabTokenizer> = inst.reasoning_decoder();
    assert!(reasoning.start_ids.is_empty());
    assert_eq!(reasoning.end_ids, vec![14]);
    assert!(Arc::ptr_eq(&reasoning.tokenizer, &tok));
}
