use hanzo_core::eval::{first_relevant, grades_unique, relevant_in_top, relevant_total, QueryEval};
use hanzo_core::address::{decode_address, encode_address};
use hanzo_core::base58::{base58_decode, base58_encode};
use hanzo_core::config::{format_slug, parse_slug, RuntimeConfig};
use hanzo_core::embed::{get_embedding_model, register_embedding_model, EmbeddingModel, EmbeddingRegistry};
use hanzo_core::precompiles::{PrecompileEntry, PrecompileKind, PrecompileRegistry};
use hanzo_core::query::parse_websearch;
use hanzo_core::range::{parse_range, RangeOutcome};
use hanzo_core::sidecar::decode_chunked;
use hanzo_core::script::{has_cjk, has_emoji, script_counts};
use hanzo_core::temporal::{v7_ceiling, v7_floor};
use hanzo_core::tokens::{estimate_tokens, truncate_to_tokens};

#[test]
fn base58_round_trip_keeps_leading_zeros() {
    let data = vec![0u8, 0, 1, 2, 255, 17];
    let enc = base58_encode(&data);
    assert!(enc.starts_with("11"));
    let chars: Vec<char> = enc.chars().collect();
    assert_eq!(base58_decode(&chars).unwrap(), data);
}

#[test]
fn base58_known_value() {
    assert_eq!(base58_encode(&[0x00, 0x00, 0x28, 0x7f, 0xb4, 0xcd]), "11233QC4");
    assert_eq!(base58_encode(b"hello world"), "StV1DL6CwTryKyV");
}

#[test]
fn address_round_trip_with_prefix() {
    let pk: Vec<u8> = (100..132u8).collect();
    let addr = encode_address(&pk, Some("lux")).unwrap();
    assert!(addr.starts_with("lux:"));
    let dec = decode_address(&addr).unwrap();
    assert_eq!(dec.prefix, "lux");
    assert_eq!(dec.version, 1);
    // The hash is a digest of the key, not the key itself.
    assert_ne!(&dec.hash[..], &pk[..20]);
    assert_eq!(encode_address(&pk, Some("lux")).unwrap(), addr);
}

#[test]
fn truncation_keeps_longest_fitting_prefix() {
    let text = "alpha beta gamma delta";
    let t = truncate_to_tokens(text, 3);
    assert!(text.starts_with(&t));
    assert!(estimate_tokens(&t) <= 3);
    let n = t.chars().count();
    let longer: String = text.chars().take(n + 1).collect();
    assert!(estimate_tokens(&longer) > 3);
    assert_eq!(t, "alpha beta ");
}

#[test]
fn truncation_keeps_fitting_text_whole() {
    assert_eq!(truncate_to_tokens("short text", 100), "short text");
    assert_eq!(truncate_to_tokens("anything", 0), "");
}

#[test]
fn glyphs_are_one_token_each() {
    assert_eq!(estimate_tokens("🚀🌌🌟"), 3);
    assert_eq!(estimate_tokens("世界"), 2);
    assert_eq!(estimate_tokens("abcde 世"), 3);
}

#[test]
fn v7_bounds_shape() {
    let t = 1_700_000_000_000i64;
    assert_eq!(v7_floor(t), "018bcfe5-6800-7000-8000-000000000000");
    assert_eq!(v7_ceiling(t), "018bcfe5-6800-7fff-bfff-ffffffffffff");
    assert_eq!(v7_floor(-5), "00000000-0000-7000-8000-000000000000");
}

#[test]
fn config_set_then_clear_restores() {
    let mut rc = RuntimeConfig::new(vec![("A".into(), "1".into())], vec![]);
    assert_eq!(rc.source("A"), "default");
    assert_eq!(rc.source("B"), "absent");
    rc.set("A".into(), "2".into());
    rc.set("A".into(), "3".into());
    assert_eq!(rc.get("A").as_deref(), Some("3"));
    rc.clear("A");
    assert_eq!(rc.get("A").as_deref(), Some("1"));
    assert_eq!(rc.source("A"), "default");
    assert_eq!(rc.get("B"), None);
}

#[test]
fn config_later_pair_wins() {
    let rc = RuntimeConfig::new(vec![("K".into(), "a".into()), ("K".into(), "b".into())], vec![]);
    assert_eq!(rc.get("K").as_deref(), Some("b"));
}

#[test]
fn slug_round_trip() {
    let p = parse_slug("openrouter:meta:llama-3", "ollama");
    assert_eq!(p.provider, "openrouter");
    assert_eq!(p.model, "meta:llama-3");
    assert_eq!(format_slug(&p), "openrouter:meta:llama-3");
    let q = parse_slug("plain-model", "mock");
    assert_eq!(q.provider, "mock");
    assert_eq!(q.model, "plain-model");
}

#[test]
fn chunked_round_trip() {
    let body = b"3\r\nabc\r\na\r\n0123456789\r\n0\r\n\r\n";
    assert_eq!(decode_chunked(body).unwrap(), b"abc0123456789");
}

#[test]
fn phrases_are_required() {
    let p = parse_websearch("\"big data\" -noise \"small\"");
    for ph in &p.phrases {
        assert!(p.required.contains(ph));
    }
    assert_eq!(p.required, vec!["big data", "small"]);
    assert_eq!(p.excluded, vec!["noise"]);
}

#[test]
fn satisfiable_ranges_lie_within_the_blob() {
    for h in ["bytes=0-99", "bytes=-100", "bytes=10-", "bytes=5-5000", "bytes=-5000"] {
        match parse_range(h, 1000) {
            RangeOutcome::Satisfied { start, end } => assert!(0 <= start && start <= end && end < 1000),
            other => panic!("unexpected {other:?} for {h}"),
        }
    }
}

#[test]
fn precompile_register_then_get() {
    let mut reg = PrecompileRegistry::new();
    assert!(reg.is_empty());
    let a = [7u8; 20];
    reg.register(PrecompileEntry { address: a, name: "x".into(), base_gas: 5, kind: PrecompileKind::PqVerify });
    reg.register(PrecompileEntry { address: a, name: "y".into(), base_gas: 6, kind: PrecompileKind::AiEmbedding });
    assert_eq!(reg.len(), 1);
    let e = reg.get(&a).unwrap();
    assert_eq!(e.name, "y");
    assert_eq!(e.base_gas, 6);
    assert_eq!(e.kind, PrecompileKind::AiEmbedding);
}

#[test]
fn embedding_register_then_get() {
    let mut reg = EmbeddingRegistry::new();
    let m = EmbeddingModel {
        slug: "ollama:nomic-embed-text".into(),
        dim: 64,
        mrl_dims: vec![32, 64],
        prefix_query: Some("q: ".into()),
        prefix_passage: None,
        family: None,
    };
    register_embedding_model(&mut reg, m);
    let got = get_embedding_model(&reg, "ollama:nomic-embed-text").unwrap();
    assert_eq!(got.dim, 64);
    assert_eq!(got.mrl_dims, vec![32, 64]);
    assert_eq!(got.prefix_query.as_deref(), Some("q: "));
    assert_eq!(hanzo_core::embed::list_embedding_models(&reg).len(), 4);
    assert!(get_embedding_model(&reg, "nope").is_none());
}

#[test]
fn eval_counts() {
    let q = QueryEval {
        predicted: vec!["a", "b", "c", "d"].into_iter().map(String::from).collect(),
        relevant: vec![("c".to_string(), 1), ("d".to_string(), 1), ("a".to_string(), 0)],
    };
    assert!(grades_unique(&q.relevant));
    assert_eq!(first_relevant(&q), Some(2));
    assert_eq!(relevant_in_top(&q, 2), 0);
    assert_eq!(relevant_in_top(&q, 4), 2);
    assert_eq!(relevant_in_top(&q, 40), 2);
    assert_eq!(relevant_total(&q), 2);
    assert!(!grades_unique(&vec![("x".to_string(), 1), ("x".to_string(), 2)]));
}

#[test]
fn v7_bounds_of_consecutive_milliseconds_are_ordered() {
    for (a, b) in [(0i64, 1i64), (15, 16), (0xffff_ffff, 0x1_0000_0000), (1_700_000_000_000, 1_700_000_000_001)] {
        assert!(v7_floor(a) < v7_ceiling(a));
        assert!(v7_ceiling(a) < v7_floor(b));
    }
    assert_eq!(v7_ceiling(-1), v7_ceiling(0));
}

#[test]
fn script_flags_agree_with_counts() {
    for s in ["hello", "こんにちは", "mixed 世界 text", "party 🎉", "☀ sun", "한국어", ""] {
        let c = script_counts(s);
        assert_eq!(has_cjk(s), c.has_cjk);
        assert_eq!(has_emoji(s), c.has_emoji);
    }
    assert!(has_cjk("한국어") && !has_emoji("한국어"));
    assert!(has_emoji("party 🎉") && !has_cjk("party 🎉"));
}

#[test]
fn embedding_listing_grows_only_for_new_slugs() {
    let mut reg = EmbeddingRegistry::new();
    let base = hanzo_core::embed::list_embedding_models(&reg).len();
    let m = |slug: &str, dim: usize| EmbeddingModel {
        slug: slug.into(),
        dim,
        mrl_dims: vec![],
        prefix_query: None,
        prefix_passage: None,
        family: None,
    };
    register_embedding_model(&mut reg, m("custom:one", 8));
    assert_eq!(hanzo_core::embed::list_embedding_models(&reg).len(), base + 1);
    register_embedding_model(&mut reg, m("custom:one", 16));
    assert_eq!(hanzo_core::embed::list_embedding_models(&reg).len(), base + 1);
    assert_eq!(get_embedding_model(&reg, "custom:one").unwrap().dim, 16);
}

#[test]
fn chunked_body_cut_inside_a_chunk_is_refused() {
    let body: &[u8] = b"3\r\nabc\r\na\r\n0123456789\r\n0\r\n\r\n";
    // Cuts inside the first chunk's data, its CRLF, and the second chunk's data.
    for cut in [4usize, 6, 7, 12, 20, 21] {
        assert!(decode_chunked(&body[..cut]).is_err(), "cut at {cut}");
    }
}
