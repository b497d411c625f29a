use score_engine::config::{effective_budget, get_model_limits, str_eq};
use score_engine::prompt::{build_eval_prompt, clean_answer, render_block, EVAL_PREAMBLE};
use score_engine::tokens::{count_words, estimate_tokens, is_space};

#[test]
fn empty_text_costs_nothing() {
    assert_eq!(estimate_tokens(""), 0);
    assert_eq!(count_words("   \n\t "), 0);
}

#[test]
fn estimate_rounds_three_quarters_up() {
    assert_eq!(estimate_tokens("one"), 1);
    assert_eq!(estimate_tokens("a b c d"), 3);
    assert_eq!(estimate_tokens("  a\tb\nc  "), 3);
    assert_eq!(estimate_tokens("one two three four five"), 4);
}

#[test]
fn unicode_spaces_separate_words() {
    assert_eq!(count_words("a\u{3000}b\u{a0}c"), 3);
    assert!(is_space('\u{2009}'));
    assert!(!is_space('x'));
}

#[test]
fn estimate_grows_with_text() {
    let short = estimate_tokens("alpha beta");
    let long = estimate_tokens("alpha beta gamma delta epsilon zeta");
    assert!(short <= long);
    assert_eq!(long, 5);
}

#[test]
fn prompt_wraps_section() {
    let p = build_eval_prompt("SECTION");
    assert!(p.starts_with(EVAL_PREAMBLE));
    assert!(p.ends_with("SECTION\n"));
    assert_eq!(p.len(), EVAL_PREAMBLE.len() + "SECTION\n".len());
}

#[test]
fn block_layout() {
    let b = render_block("instruct_polite", "Say hi", "Hi!");
    assert_eq!(b, "### instruct_polite\n[Instruction]\nSay hi\n\n[Answer]\nHi!\n\n");
}

#[test]
fn response_markers_are_stripped() {
    assert_eq!(clean_answer("### Response:\n  hello  "), "hello");
    assert_eq!(clean_answer("!?\n\n### Response:\nok"), "ok");
    assert_eq!(clean_answer("Response:\nResponse:\n x"), "x");
    assert_eq!(clean_answer("   "), "");
    assert_eq!(clean_answer("plain answer"), "plain answer");
}

#[test]
fn budget_from_context_limit() {
    assert_eq!(effective_budget(1_048_576, 95, 2048), 994_099);
    assert_eq!(effective_budget(1_048_576, 100, 2048), 1_046_528);
    assert_eq!(effective_budget(1000, 100, 2000), 0);
}

#[test]
fn model_limits_by_name() {
    let l = get_model_limits("gemini-2.0-flash");
    assert_eq!((l.input, l.output), (1_048_576, 8_192));
    let l = get_model_limits("gemini-2.5-flash-lite-preview-06-17");
    assert_eq!((l.input, l.output), (1_000_000, 64_000));
    let l = get_model_limits("gemini-1.5-flash-latest");
    assert_eq!((l.input, l.output), (1_000_000, 8_192));
    assert!(str_eq("abc", "abc"));
    assert!(!str_eq("abc", "abd"));
}

#[test]
fn paraphrase_request_lists_each_key() {
    let p = score_engine::prompt::build_prompt("Say hi", &["instruct_polite", "instruct_rude"], "tone");
    let expected = "You are an expert paraphraser.\nRewrite the *Original Instruction* in ALL of the variants listed below.\n\n\
* **instruct_polite** \u{2013} rewrite in the \"tone\" variant (instruct_polite).\n\
* **instruct_rude** \u{2013} rewrite in the \"tone\" variant (instruct_rude).\n\n\
Return **only** one JSON object with exactly those keys.\n\nOriginal Instruction:\nSay hi";
    assert_eq!(p, expected);
}

#[test]
fn paraphrase_request_without_keys() {
    let p = score_engine::prompt::build_prompt("X", &[], "l");
    assert!(p.ends_with("listed below.\n\n\n\nReturn **only** one JSON object with exactly those keys.\n\nOriginal Instruction:\nX"));
}
