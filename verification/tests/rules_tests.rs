use wgenty_memory::entry::{age_hours, MemoryOrigin, MemoryRecord, MemoryType};
use wgenty_memory::keyvalue::{
    extract_key_numeric_pairs, has_numeric_value_drift, split_key_numeric, trim_whitespace,
};
use wgenty_memory::lock::parse_u32;
use wgenty_memory::paths::candidate_path;
use wgenty_memory::ordering::{insert_sorted_unique, lex_compare, sorted_unique};
use wgenty_memory::polarity::{
    has_whole_phrase, has_whole_token, lowercase_word_tokens, state_polarity, StatePolarity,
};
use wgenty_memory::pool::{adjust_hit_count, resolve_judgement, AddPlan, AmbiguousVerdict};
use wgenty_memory::relation::{classify_relation, has_state_change_contradiction, MemoryRelation};
use wgenty_memory::runs::{split_token_runs, split_whitespace_chars};
use wgenty_memory::similarity::{content_similarity, is_meaningful_token, meaningful_token_set};
use wgenty_memory::tokenizer::DefaultTokenizer;

fn chars(s: &str) -> Vec<char> {
    s.chars().collect()
}

fn strings(v: &[Vec<char>]) -> Vec<String> {
    v.iter().map(|w| w.iter().collect()).collect()
}

fn rec(id: &str, content: &str) -> MemoryRecord {
    let mut m = MemoryRecord::new(MemoryType::Knowledge, content);
    m.id = id.to_string();
    m
}

/// The value a key ends with after every pair has been inserted in order.
fn final_value(pairs: &[(Vec<char>, Vec<char>)], key: &str) -> Option<String> {
    let k = chars(key);
    pairs
        .iter()
        .rev()
        .find(|(pk, _)| *pk == k)
        .map(|(_, v)| v.iter().collect())
}

#[test]
fn resolve_judgement_maps_each_verdict() {
    assert_eq!(
        resolve_judgement(4, Some(AmbiguousVerdict::Contradicts)),
        AddPlan::SupersedeThenInsert(4)
    );
    assert_eq!(
        resolve_judgement(4, Some(AmbiguousVerdict::Compatible)),
        AddPlan::MergeReinforce(4)
    );
    assert_eq!(resolve_judgement(4, Some(AmbiguousVerdict::Unrelated)), AddPlan::Insert);
    assert_eq!(resolve_judgement(4, None), AddPlan::MergeFlagAmbiguous(4));
}

#[test]
fn adjust_hit_count_prefers_project_then_global() {
    let mut project = vec![rec("p1", "project fact"), rec("shared", "project copy")];
    let mut global = vec![rec("g1", "global fact"), rec("shared", "global copy")];

    let r = adjust_hit_count(&mut project, &mut global, "g1", true, 500);
    assert_eq!(r, Some((MemoryOrigin::Global, 0)));
    assert_eq!(global[0].hit_count, 1);
    assert_eq!(global[0].last_reinforced_at, Some(500));
    assert_eq!(project[0].hit_count, 0);

    let r = adjust_hit_count(&mut project, &mut global, "shared", true, 600);
    assert_eq!(r, Some((MemoryOrigin::Project, 1)));
    assert_eq!(project[1].hit_count, 1);
    assert_eq!(global[1].hit_count, 0);

    let r = adjust_hit_count(&mut project, &mut global, "shared", false, 0);
    assert_eq!(r, Some((MemoryOrigin::Project, 1)));
    assert_eq!(project[1].hit_count, 0);
    assert_eq!(project[1].last_reinforced_at, Some(600));

    // Penalizing at zero saturates.
    let r = adjust_hit_count(&mut project, &mut global, "p1", false, 0);
    assert_eq!(r, Some((MemoryOrigin::Project, 0)));
    assert_eq!(project[0].hit_count, 0);

    assert_eq!(adjust_hit_count(&mut project, &mut global, "missing", true, 1), None);
}

#[test]
fn whole_token_matching_respects_boundaries() {
    assert!(has_whole_token("the bug is fixed.", "fixed"));
    assert!(has_whole_token("fixed", "fixed"));
    assert!(!has_whole_token("fixed-width font", "fixed"));
    assert!(!has_whole_token("unfixed", "fixed"));
    assert!(!has_whole_token("fixed_point", "fixed"));
    assert!(!has_whole_token("anything", ""));
    assert!(has_whole_token("(fixed)", "fixed"));
}

#[test]
fn whole_phrase_matching_respects_boundaries() {
    assert!(has_whole_phrase("it is not fixed yet", "not fixed"));
    assert!(!has_whole_phrase("knot fixed", "not fixed"));
    assert!(!has_whole_phrase("not fixedness", "not fixed"));
    assert!(has_whole_phrase("no longer", "no longer"));
    assert!(!has_whole_phrase("text", ""));
}

#[test]
fn lowercase_word_tokens_split_on_non_token_chars() {
    assert_eq!(
        lowercase_word_tokens("Auth-Bug FIXED, now_ok!"),
        vec!["auth-bug".to_string(), "fixed".to_string(), "now_ok".to_string()]
    );
    assert!(lowercase_word_tokens(" ,.; ").is_empty());
}

#[test]
fn state_polarity_classifies_text() {
    assert_eq!(state_polarity("The auth bug is fixed"), StatePolarity::Closed);
    assert_eq!(state_polarity("Bug FIXED"), StatePolarity::Closed);
    assert_eq!(state_polarity("auth bug still exists"), StatePolarity::Open);
    assert_eq!(state_polarity("auth bug not fixed"), StatePolarity::Open);
    assert_eq!(state_polarity("ticket unresolved"), StatePolarity::Open);
    assert_eq!(state_polarity("bug fixed but ticket open"), StatePolarity::Unmarked);
    assert_eq!(state_polarity("fixed-width font"), StatePolarity::Unmarked);
    assert_eq!(state_polarity("plain text"), StatePolarity::Unmarked);
    assert_eq!(state_polarity("the flag is no longer used"), StatePolarity::Closed);
}

#[test]
fn stop_words_are_recognised() {
    assert!(DefaultTokenizer::is_stop_word_pub("the"));
    assert!(DefaultTokenizer::is_stop_word_pub("about"));
    assert!(!DefaultTokenizer::is_stop_word_pub("memory"));
    assert!(!DefaultTokenizer::is_stop_word_pub("The"));
}

#[test]
fn split_key_numeric_token_forms() {
    let p = split_key_numeric(&chars("max_tokens=128000")).unwrap();
    assert_eq!(p, (chars("max_tokens"), chars("128000")));
    let p = split_key_numeric(&chars("rate:0.5")).unwrap();
    assert_eq!(p, (chars("rate"), chars("0.5")));
    // Neither separator yields a valid key and number.
    assert!(split_key_numeric(&chars("port:80=x")).is_none());
    assert!(split_key_numeric(&chars("ab=12")).is_none());
    assert!(split_key_numeric(&chars("key=abc")).is_none());
    assert!(split_key_numeric(&chars("key=...")).is_none());
    assert!(split_key_numeric(&chars("key=")).is_none());
    assert!(split_key_numeric(&chars("plain")).is_none());
}

#[test]
fn extract_key_numeric_pairs_finds_glued_and_spaced_forms() {
    let pairs = extract_key_numeric_pairs("Set max_tokens=128000, port: 8080 and ab=1.");
    assert_eq!(final_value(&pairs, "max_tokens"), Some("128000".to_string()));
    assert_eq!(final_value(&pairs, "port"), Some("8080".to_string()));
    assert_eq!(final_value(&pairs, "ab"), None);
    assert!(extract_key_numeric_pairs("no numbers here").is_empty());
    let pairs = extract_key_numeric_pairs("Timeout = 30");
    assert_eq!(final_value(&pairs, "timeout"), Some("30".to_string()));
}

#[test]
fn numeric_value_drift_cases() {
    assert!(has_numeric_value_drift("max_tokens=128000", "max_tokens=4096"));
    assert!(has_numeric_value_drift("port:8080", "port:3000"));
    assert!(!has_numeric_value_drift("max_tokens=4096", "max_tokens=4096"));
    assert!(!has_numeric_value_drift("alpha=1", "beta=2"));
    assert!(!has_numeric_value_drift("ab=1", "ab=2"));
    assert!(!has_numeric_value_drift("", "port=1"));
}

#[test]
fn split_whitespace_and_token_runs() {
    assert_eq!(
        strings(&split_whitespace_chars(&chars(" a  bc\td\n"))),
        vec!["a", "bc", "d"]
    );
    assert!(split_whitespace_chars(&chars("   ")).is_empty());
    assert_eq!(
        strings(&split_token_runs(&chars("ab,c-d e_f!"))),
        vec!["ab", "c-d", "e_f"]
    );
}

#[test]
fn trim_whitespace_both_ends() {
    assert_eq!(trim_whitespace(&chars("  hi there \n")), chars("hi there"));
    assert_eq!(trim_whitespace(&chars(" \t ")), chars(""));
}

#[test]
fn lexicographic_order_helpers() {
    assert!(lex_compare(&chars("abc"), &chars("abd")) < 0);
    assert_eq!(lex_compare(&chars("abc"), &chars("abc")), 0);
    assert!(lex_compare(&chars("ab"), &chars("abc")) < 0);
    assert!(lex_compare(&chars("b"), &chars("abc")) > 0);

    let mut v = vec!["a".to_string(), "c".to_string()];
    insert_sorted_unique(&mut v, "b");
    assert_eq!(v, vec!["a", "b", "c"]);
    insert_sorted_unique(&mut v, "b");
    assert_eq!(v, vec!["a", "b", "c"]);
    insert_sorted_unique(&mut v, "0");
    assert_eq!(v, vec!["0", "a", "b", "c"]);

    let items = vec!["c".to_string(), "a".to_string(), "c".to_string(), "b".to_string()];
    assert_eq!(sorted_unique(&items), vec!["a", "b", "c"]);
}

#[test]
fn age_hours_whole_hours_never_negative() {
    assert_eq!(age_hours(0, 7_200_000_000), 2);
    assert_eq!(age_hours(0, 3_599_999_999), 0);
    assert_eq!(age_hours(10, 5), 0);
    assert_eq!(age_hours(i64::MIN, i64::MAX), (u64::MAX / 3_600_000_000));
}

#[test]
fn parse_u32_like_std() {
    assert_eq!(parse_u32(&chars("123")), Some(123));
    assert_eq!(parse_u32(&chars("+7")), Some(7));
    assert_eq!(parse_u32(&chars("4294967295")), Some(u32::MAX));
    assert_eq!(parse_u32(&chars("4294967296")), None);
    assert_eq!(parse_u32(&chars("")), None);
    assert_eq!(parse_u32(&chars("+")), None);
    assert_eq!(parse_u32(&chars("-1")), None);
    assert_eq!(parse_u32(&chars("12a")), None);
}

#[test]
fn meaningful_tokens_and_state_change() {
    assert!(!is_meaningful_token("The"));
    assert!(!is_meaningful_token("ab"));
    assert!(is_meaningful_token("Auth"));

    let a = meaningful_token_set("auth bug fixed");
    let b = meaningful_token_set("auth bug exists");
    let c = meaningful_token_set("auth bug resolved");
    assert!(has_state_change_contradiction("auth bug fixed", "auth bug exists", &a, &b));
    assert!(!has_state_change_contradiction("auth bug exists", "auth bug fixed", &b, &a));
    assert!(!has_state_change_contradiction("auth bug fixed", "auth bug resolved", &a, &c));
}

#[test]
fn similarity_is_a_ratio_at_most_one() {
    let s = content_similarity("use jwt authentication", "use jwt authentication");
    assert_eq!((s.num, s.den), (1, 1));
    let s = content_similarity("alpha", "alpha");
    assert_eq!((s.num, s.den), (1, 1));
    let s = content_similarity("the a an", "the a an");
    assert_eq!((s.num, s.den), (0, 1));
    let s = content_similarity("alpha beta gamma", "alpha delta");
    assert_eq!((s.num, s.den), (1, 4));
    assert!(s.num <= s.den);
}

#[test]
fn relation_laws_on_examples() {
    assert_eq!(
        classify_relation("use jwt", "use jwt authentication"),
        MemoryRelation::Compatible
    );
    assert_eq!(
        classify_relation("auth bug fixed", "auth bug exists"),
        MemoryRelation::Contradicts
    );
    assert_eq!(
        classify_relation("auth bug fixed", "auth bug resolved"),
        MemoryRelation::Ambiguous
    );
    assert_eq!(
        classify_relation("limit max_tokens=4096", "limit max_tokens=128000"),
        MemoryRelation::Contradicts
    );
}

#[test]
fn candidate_path_adjoins_relative_paths() {
    assert_eq!(candidate_path("/repo", "src/a.rs"), "/repo/src/a.rs");
    assert_eq!(candidate_path("/repo/", "src/a.rs"), "/repo/src/a.rs");
    assert_eq!(candidate_path("", "src/a.rs"), "src/a.rs");
    assert_eq!(candidate_path("/repo", "/etc/x.rs"), "/etc/x.rs");
    assert_eq!(candidate_path("repo", "lib/b.ts"), "repo/lib/b.ts");
}
