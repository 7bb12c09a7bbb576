use hanzo_core::address::{decode_address, encode_address};
use hanzo_core::config::{classify_link_rule, format_slug, parse_slug, ParsedSlug, RuntimeConfig};
use hanzo_core::embed::{coarse_dim, get_embedding_model, prefix_for, EmbeddingRegistry};
use hanzo_core::query::{characterize, parse_websearch, select_rrf_k, to_fts5_match};
use hanzo_core::range::{content_range, parse_range, RangeOutcome};
use hanzo_core::script::{cjk_bigrams, emoji_trigrams, script_counts};
use hanzo_core::temporal::{v7_ceiling, v7_floor};
use hanzo_core::tokens::{estimate_tokens, truncate_to_tokens};

fn pairs(kv: &[(&str, &str)]) -> Vec<(String, String)> {
    kv.iter().map(|(k, v)| (k.to_string(), v.to_string())).collect()
}

#[test]
fn test_select_rrf_k() {
    assert_eq!(select_rrf_k(characterize("\"hello world\"")), 10);
    assert_eq!(select_rrf_k(characterize("foo AND bar")), 15);
    assert_eq!(select_rrf_k(characterize("rust")), 15);
    assert_eq!(select_rrf_k(characterize("a b c d e f g h i j")), 40);
}

#[test]
fn test_detect_script() {
    assert_eq!(script_counts("こんにちは世界").primary.name(), "cjk");
    assert_eq!(script_counts("Hello world").primary.name(), "latin");
    assert_eq!(script_counts("Привет").primary.name(), "cyrillic");
}

#[test]
fn test_cjk_bigrams() {
    let out = cjk_bigrams("hello 世界 こんにちは");
    assert!(out.contains(&"hello".to_string()));
    assert!(out.contains(&"世界".to_string()));
    assert!(out.contains(&"こん".to_string()));
}

#[test]
fn test_emoji_trigrams_emit() {
    let out = emoji_trigrams("hi 🚀🌌🌟");
    assert!(!out.is_empty());
}

#[test]
fn test_parse_websearch() {
    let p = parse_websearch("\"hello world\" foo OR bar -baz qux");
    assert_eq!(p.phrases, vec!["hello world"]);
    assert_eq!(p.optional[0], vec!["foo", "bar"]);
    assert_eq!(p.excluded, vec!["baz"]);
    assert!(p.required.contains(&"qux".to_string()));
}

#[test]
fn test_to_fts5_match() {
    let sql = to_fts5_match(&parse_websearch("apple OR orange -spoil"));
    assert!(sql.contains("apple OR orange"));
    assert!(sql.contains("NOT spoil"));
}

#[test]
fn test_embed_registry() {
    let reg = EmbeddingRegistry::new();
    assert_eq!(get_embedding_model(&reg, "ollama:nomic-embed-text").unwrap().dim, 768);
    assert_eq!(get_embedding_model(&reg, "openai:text-embedding-3-small").unwrap().dim, 1536);
}

#[test]
fn test_prefix_for() {
    let reg = EmbeddingRegistry::new();
    let e5 = get_embedding_model(&reg, "intfloat/e5-large-v2").unwrap();
    assert_eq!(prefix_for(&e5, "query", "x"), "query: x");
    assert_eq!(prefix_for(&e5, "passage", "x"), "passage: x");
    let nomic = get_embedding_model(&reg, "ollama:nomic-embed-text").unwrap();
    assert_eq!(prefix_for(&nomic, "query", "x"), "x");
}

#[test]
fn test_coarse_dim() {
    let reg = EmbeddingRegistry::new();
    let m = get_embedding_model(&reg, "openai:text-embedding-3-large").unwrap();
    let cd = coarse_dim(&m);
    assert!((256..=512).contains(&cd));
}

#[test]
fn test_v7_floor_ceiling_order() {
    let t = 1_700_000_000_000i64;
    assert!(v7_floor(t) < v7_ceiling(t));
}

#[test]
fn test_estimate_tokens() {
    assert!(estimate_tokens("hi there friend") > estimate_tokens("hi"));
    assert_eq!(estimate_tokens("こんにちは"), 5);
}

#[test]
fn test_truncate_to_tokens() {
    let long = "alpha ".repeat(100);
    let t = truncate_to_tokens(&long, 20);
    assert!(estimate_tokens(&t) <= 20);
}

#[test]
fn test_range_parsing() {
    assert_eq!(parse_range("bytes=0-99", 1000), RangeOutcome::Satisfied { start: 0, end: 99 });
    assert_eq!(parse_range("bytes=-100", 1000), RangeOutcome::Satisfied { start: 900, end: 999 });
    assert_eq!(parse_range("bytes=2000-3000", 1000), RangeOutcome::Unsatisfiable);
    assert_eq!(content_range(0, 99, 1000), "bytes 0-99/1000");
}

#[test]
fn test_address_round_trip() {
    let pk: Vec<u8> = (0..32u8).collect();
    let addr = encode_address(&pk, None).unwrap();
    assert!(addr.starts_with("hanzo:"));
    let dec = decode_address(&addr).unwrap();
    assert_eq!(dec.prefix, "hanzo");
    assert_eq!(dec.version, 1);
}

#[test]
fn test_address_bad_checksum() {
    assert!(decode_address("hanzo:11111111111111111111111111").is_err());
}

#[test]
fn test_parse_slug() {
    let p = parse_slug("openai:gpt-4o", "ollama");
    assert_eq!(p, ParsedSlug { provider: "openai".into(), model: "gpt-4o".into() });
    let p = parse_slug("qwen3:8b", "ollama");
    assert_eq!(p, ParsedSlug { provider: "ollama".into(), model: "qwen3:8b".into() });
    assert_eq!(format_slug(&ParsedSlug { provider: "openai".into(), model: "gpt-4o".into() }), "openai:gpt-4o");
}

#[test]
fn test_runtime_config_precedence() {
    let mut rc = RuntimeConfig::new(pairs(&[("K", "default")]), pairs(&[("K", "env")]));
    assert_eq!(rc.get("K").as_deref(), Some("env"));
    rc.set("K".to_string(), "override".to_string());
    assert_eq!(rc.get("K").as_deref(), Some("override"));
    assert_eq!(rc.source("K"), "db_override");
    rc.clear("K");
    assert_eq!(rc.get("K").as_deref(), Some("env"));
}

#[test]
fn test_classify_link_rule() {
    assert_eq!(classify_link_rule("Alice founded Acme"), "founded");
    assert_eq!(classify_link_rule("Alice invested in Acme"), "invested_in");
    assert_eq!(classify_link_rule("worked together"), "mentions");
}
