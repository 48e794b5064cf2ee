use wgenty_memory::jieba::{filter_jieba_words, JiebaTokenizer};
use wgenty_memory::tokenizer::{build_tokenizer, DefaultTokenizer, Tokenizer};

fn tokens_of(text: &str) -> Vec<String> {
    DefaultTokenizer.meaningful_tokens(text)
}

#[test]
fn english_whitespace_split_unchanged() {
    let toks = tokens_of("rust async programming patterns");
    assert!(toks.contains(&"rust".into()));
    assert!(toks.contains(&"async".into()));
    assert!(toks.contains(&"programming".into()));
}

#[test]
fn english_stop_words_filtered() {
    let toks = tokens_of("the rust is a language");
    assert!(!toks.iter().any(|t| t == "the" || t == "is" || t == "a"));
    assert!(toks.iter().any(|t| t == "rust"));
}

#[test]
fn short_tokens_filtered_by_char_count() {
    let toks = tokens_of("a go run");
    assert!(!toks.iter().any(|t| t == "a"), "1-char dropped");
    assert!(!toks.iter().any(|t| t == "go"), "2-char dropped");
    assert!(toks.iter().any(|t| t == "run"), "3-char passes");
}

#[test]
fn cjk_text_bigram_segmented() {
    let toks = tokens_of("用户登录流程");
    assert!(!toks.is_empty(), "CJK must be segmented, got empty");
    assert!(toks.contains(&"用户".into()), "bigram 用户: {toks:?}");
    assert!(toks.contains(&"登录".into()), "bigram 登录: {toks:?}");
    assert!(toks.contains(&"流程".into()), "bigram 流程: {toks:?}");
}

#[test]
fn cjk_recall_overlap_via_bigram() {
    let query_toks = tokens_of("登录怎么做");
    let content_toks = tokens_of("用户登录流程说明");
    let overlap: Vec<&String> = query_toks
        .iter()
        .filter(|q| content_toks.contains(q))
        .collect();
    assert!(
        overlap.iter().any(|t| t.as_str() == "登录"),
        "expected 登录 overlap, query={query_toks:?} content={content_toks:?}"
    );
}

#[test]
fn mixed_cjk_and_english() {
    let toks = tokens_of("使用 rust 开发 backend");
    assert!(toks.contains(&"rust".into()));
    assert!(toks.contains(&"backend".into()));
    assert!(toks
        .iter()
        .any(|t| t.chars().count() == 2 && t.contains('用')));
}

#[test]
fn cjk_single_char_run_filtered() {
    let toks = tokens_of("啊");
    assert!(toks.is_empty(), "single CJK char below min: {toks:?}");
}

#[test]
fn empty_and_punctuation_input() {
    assert!(tokens_of("").is_empty());
    assert!(tokens_of("!!! ??? ...").is_empty());
}

#[test]
fn build_tokenizer_returns_a_working_instance() {
    let tz = build_tokenizer();
    let toks = tz.meaningful_tokens("rust 登录");
    assert!(toks.iter().any(|t| t == "rust"));
    assert!(toks.iter().any(|t| t.contains('登') || t.contains('录')));
}

#[test]
fn tokens_exact_for_mixed_text() {
    // Word runs lower-cased; CJK runs as overlapping grams; separators dropped.
    let toks = tokens_of("Rust-lang 用户登录!");
    assert_eq!(toks, vec!["rust-lang", "用户", "户登", "登录"]);
}

#[test]
fn chinese_stop_word_grams_are_dropped() {
    let toks = tokens_of("我们");
    assert!(toks.is_empty(), "{toks:?}");
}

#[test]
fn tokens_never_contain_stop_words_or_short_words() {
    let toks = tokens_of("The IS an of And RUN Go 我们的 代码");
    for t in &toks {
        assert!(t.chars().count() >= 2);
        assert_ne!(t, "the");
        assert_ne!(t, "and");
        assert_ne!(t, "我们");
    }
    assert!(toks.contains(&"run".into()));
}

#[test]
fn jieba_filter_keeps_cjk_words_and_splits_the_rest() {
    let words: Vec<String> = ["我们", "用户", "max_tokens=4096", "The", " ", "登录"]
        .iter()
        .map(|s| s.to_string())
        .collect();
    assert_eq!(
        filter_jieba_words(&words),
        vec!["用户", "max", "tokens", "4096", "登录"]
    );
}

#[test]
fn jieba_tokenizer_segments_mixed_text() {
    let tz = JiebaTokenizer::new();
    let toks = tz.meaningful_tokens("用户登录 rust-lang API");
    assert!(toks.iter().any(|t| t == "rust"));
    assert!(toks.iter().any(|t| t == "lang"));
    assert!(toks.iter().any(|t| t == "api"));
    assert!(toks.iter().any(|t| t.contains('登')));
    assert!(!toks.iter().any(|t| t == "我们"));
}

#[test]
fn ascii_tokens_are_lower_case() {
    let toks = tokens_of("Use JWT Auth_Token in API-Gateway");
    assert_eq!(toks, vec!["use", "jwt", "auth_token", "api-gateway"]);
    assert!(toks.iter().all(|t| !t.chars().any(|c| c.is_ascii_uppercase())));
}
