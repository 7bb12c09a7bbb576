use hanzo_core::api::{bearer_token, reply_status};
use hanzo_core::captions::{render_srt, render_vtt, Cue};
use hanzo_core::config::classify_link_rule;
use hanzo_core::dedup::chain_of;
use hanzo_core::embed::{coarse_dim, EmbeddingModel};
use hanzo_core::evm::{auto_detect_backend, cevm_probe_path, EvmBackend, GoEvmExecutor};
use hanzo_core::machine::{
    c_array_to_string, from_status, open_backend, socket_path_for_home, Backend, Error, Info, Manager,
    RawMachineInfo, State,
};
use hanzo_core::precompiles::{
    exec_pq_verify, exec_quasar_query, finish_call, CallOutcome, EngineFailure, PrecompileResult, PrecompileStep,
};
use hanzo_core::query::{characterize, parse_websearch, select_weight_percents, to_fts5_match};
use hanzo_core::range::{parse_range, RangeOutcome};
use hanzo_core::sidecar::{decode_chunked, parse_response, request_head, SidecarCall, SidecarClient};
use hanzo_core::address::{decode_address, encode_address};

fn sidecar_message(r: Result<Vec<u8>, Error>) -> String {
    match r {
        Err(Error::Sidecar(s)) => s,
        other => panic!("expected a sidecar error, got {other:?}"),
    }
}

#[test]
fn response_errors() {
    assert_eq!(sidecar_message(parse_response(b"HTTP/1.1 200 OK\r\n")), "no header terminator");
    assert_eq!(sidecar_message(parse_response(b"HTTP/1.1 \xff\r\n\r\n")), "non-utf8 headers");
    assert_eq!(sidecar_message(parse_response(b"garbage\r\n\r\n")), "bad status line: garbage");
    assert_eq!(sidecar_message(parse_response(b"HTTP/1.1 70000 X\r\n\r\n")), "bad status line: HTTP/1.1 70000 X");
    assert_eq!(parse_response(b"HTTP/1.1 204 No Content\r\n\r\nignored").unwrap(), b"");
    assert_eq!(parse_response(b"HTTP/1.1 200 OK\r\n\r\nall of it").unwrap(), b"all of it");
    assert_eq!(parse_response(b"HTTP/1.1 200 OK\r\nContent-Length: 99\r\n\r\nshort").unwrap(), b"short");
    assert_eq!(parse_response(b"HTTP/1.1 200 OK\r\nContent-Length: x\r\n\r\nbody").unwrap(), b"body");
}

#[test]
fn response_error_body_is_decoded_lossily() {
    let msg = sidecar_message(parse_response(b"HTTP/1.1 503 busy\r\n\r\nno\xffway"));
    assert_eq!(msg, "daemon 503: no\u{fffd}way");
}

#[test]
fn chunk_errors() {
    assert_eq!(sidecar_message(decode_chunked(b"5")), "chunk header truncated");
    assert_eq!(sidecar_message(decode_chunked(b"\xff\r\n")), "chunk size not utf-8");
    assert_eq!(sidecar_message(decode_chunked(b"zz\r\n")), "bad chunk size: zz");
    assert_eq!(sidecar_message(decode_chunked(b"5\r\nab")), "chunk truncated");
    assert_eq!(sidecar_message(decode_chunked(b"2\r\nabXY")), "missing chunk trailer");
    assert_eq!(decode_chunked(b"2;ext=1\r\nab\r\n0\r\n\r\n").unwrap(), b"ab");
    assert_eq!(decode_chunked(b" A \r\n0123456789\r\n0\r\n").unwrap(), b"0123456789");
    assert_eq!(decode_chunked(b"").unwrap(), b"");
}

#[test]
fn request_heads() {
    let call = SidecarCall::Start("vm1".into());
    assert_eq!(call.method(), "POST");
    assert_eq!(call.path(), "/v1/machines/vm1/start");
    assert_eq!(SidecarCall::Delete("a".into()).method(), "DELETE");
    assert_eq!(SidecarCall::List.path(), "/v1/machines");
    assert_eq!(
        request_head("GET", "/v1/health", 0),
        "GET /v1/health HTTP/1.1\r\nHost: machined.local\r\nAccept: application/json\r\nConnection: close\r\nContent-Length: 0\r\n\r\n"
    );
    assert!(request_head("POST", "/v1/machines", 12).ends_with("Content-Length: 12\r\nContent-Type: application/json\r\n\r\n"));
}

#[test]
fn client_and_backend() {
    let c = SidecarClient::new("/tmp/s.sock".into()).with_timeout(3, 5);
    assert_eq!(c.socket_path(), "/tmp/s.sock");
    assert_eq!(c.timeout(), (3, 5));
    assert_eq!(SidecarClient::new("x".into()).timeout(), (15, 0));
    match open_backend("/state", "/run/m.sock".into()) {
        Ok(Backend::Sidecar(c)) => assert_eq!(c.socket_path(), "/run/m.sock"),
        other => panic!("unexpected {other:?}"),
    }
    assert!(matches!(Manager::open("/state"), Err(Error::NotInstalled)));
    assert_eq!(Manager::version(), "not-installed");
    assert_eq!(socket_path_for_home(Some("/home/u")), "/home/u/.hanzo/run/machined.sock");
    assert_eq!(socket_path_for_home(Some("/home/u/")), "/home/u/.hanzo/run/machined.sock");
    assert_eq!(socket_path_for_home(None), "/tmp/hanzo-machined.sock");
}

#[test]
fn status_codes_and_states() {
    assert!(matches!(from_status(2, None), Error::NotFound));
    assert!(matches!(from_status(3, None), Error::Exists));
    match from_status(4, Some("disk".into())) {
        Error::Io(d) => assert_eq!(d, "disk"),
        other => panic!("unexpected {other:?}"),
    }
    match from_status(42, Some("odd".into())) {
        Error::Internal(d) => assert_eq!(d, "unknown status 42: odd"),
        other => panic!("unexpected {other:?}"),
    }
    assert_eq!(Error::Sidecar("x".into()).message(), "sidecar: x");
    assert_eq!(State::from_raw(3), State::Running);
    assert_eq!(State::from_raw(99), State::Error);
    assert_eq!(State::Stopping.name(), "stopping");
}

#[test]
fn raw_records() {
    assert_eq!(c_array_to_string(b"vm1\0junk").unwrap(), "vm1");
    assert!(matches!(c_array_to_string(b"\xff\0"), Err(Error::Utf8)));
    let raw = RawMachineInfo {
        name: b"box\0\0".to_vec(),
        distro: b"ubuntu\0".to_vec(),
        cpus: 2,
        memory_mb: 512,
        disk_gb: 8,
        state: 1,
        ip: vec![0u8; 4],
        created_at: 10,
        started_at: 20,
    };
    let info: Info = Info::from_raw(&raw).unwrap();
    assert_eq!(info.name, "box");
    assert_eq!(info.ip, None);
    assert_eq!(info.state, State::Stopped);
}

#[test]
fn address_errors() {
    assert_eq!(encode_address(&[1, 2, 3], None).unwrap_err(), "public key must be 32 bytes");
    assert_eq!(decode_address("nocolon").unwrap_err(), "address: missing prefix");
    assert_eq!(decode_address("hanzo:0OIl").unwrap_err(), "base58: invalid char");
    assert_eq!(decode_address("hanzo:2").unwrap_err(), "address: wrong length");
    assert_eq!(decode_address("hanzo:11111111111111111111111111").unwrap_err(), "address: wrong length");
    assert_eq!(decode_address(&format!("hanzo:{}", "1".repeat(24))).unwrap_err(), "address: bad checksum");
}

#[test]
fn range_edges() {
    assert_eq!(parse_range("items=0-1", 10), RangeOutcome::Invalid);
    assert_eq!(parse_range("bytes=", 10), RangeOutcome::Invalid);
    assert_eq!(parse_range("bytes=-0", 10), RangeOutcome::Invalid);
    assert_eq!(parse_range("bytes=a-b", 10), RangeOutcome::Invalid);
    assert_eq!(parse_range("bytes=5-2", 10), RangeOutcome::Unsatisfiable);
    assert_eq!(parse_range("bytes= 2-4 ,7-8", 10), RangeOutcome::Satisfied { start: 2, end: 4 });
    assert_eq!(parse_range("bytes=3-", 10), RangeOutcome::Satisfied { start: 3, end: 9 });
    assert_eq!(parse_range("bytes=-50", 10), RangeOutcome::Satisfied { start: 0, end: 9 });
}

#[test]
fn query_shapes() {
    let q = characterize("  'quoted text'  ");
    assert!(q.is_phrase);
    assert_eq!(q.token_count, 2);
    assert!(!characterize("ANDROID sales").is_boolean);
    assert!(characterize("cats -dogs").is_boolean);
    assert!(!characterize("-dogs").is_boolean);
    assert_eq!(select_weight_percents(characterize("rust")), (65, 35));
    assert_eq!(select_weight_percents(characterize("a b c d")), (50, 50));
}

#[test]
fn fts5_quoting() {
    assert_eq!(to_fts5_match(&parse_websearch("a-b")), "\"a-b\"");
    assert_eq!(to_fts5_match(&parse_websearch("naïve")), "naïve");
    assert_eq!(to_fts5_match(&parse_websearch("say \"hi\" x OR y -z")), "say AND hi AND (x OR y) NOT z");
    assert_eq!(to_fts5_match(&parse_websearch("\"a \"\"b\"")), "\"a \" AND b");
}

#[test]
fn websearch_groups() {
    let p = parse_websearch("a OR b OR \"c d\" e -");
    assert_eq!(p.optional, vec![vec!["a", "b", "c d"]]);
    assert_eq!(p.required, vec!["e", "-"]);
    assert!(p.excluded.is_empty());
}

#[test]
fn link_rules() {
    assert_eq!(classify_link_rule("Alice FOUNDED Acme"), "founded");
    assert_eq!(classify_link_rule("she Works At Hanzo"), "works_at");
    assert_eq!(classify_link_rule("Bob is an advisor"), "advises");
    assert_eq!(classify_link_rule("the paper cites prior work"), "cites");
    assert_eq!(classify_link_rule("HQ located in Paris"), "located_in");
    assert_eq!(classify_link_rule("was succeeded by Carol"), "succeeded_by");
}

#[test]
fn chains() {
    assert_eq!(chain_of("page/foo#chunk-12"), "page/foo");
    assert_eq!(chain_of("page/foo#chunk-x"), "page/foo#chunk-x");
    assert_eq!(chain_of("doc::3"), "doc");
    assert_eq!(chain_of("doc::3#chunk-1"), "doc");
    assert_eq!(chain_of("a::b"), "a::b");
}

#[test]
fn coarse_dims() {
    let m = |dim: usize, mrl: Vec<usize>| EmbeddingModel {
        slug: "m".into(),
        dim,
        mrl_dims: mrl,
        prefix_query: None,
        prefix_passage: None,
        family: None,
    };
    assert_eq!(coarse_dim(&m(1024, vec![])), 1024);
    assert_eq!(coarse_dim(&m(768, vec![64, 96, 128])), 96);
    assert_eq!(coarse_dim(&m(4096, vec![16, 32])), 32);
}

#[test]
fn api_helpers() {
    assert_eq!(bearer_token("Bearer abc"), "abc");
    assert_eq!(bearer_token("Basic abc"), "");
    assert_eq!(reply_status(404), 404);
    assert_eq!(reply_status(42), 500);
    assert_eq!(reply_status(1000), 500);
}

#[test]
fn backends() {
    assert_eq!(auto_detect_backend(true), EvmBackend::Cevm);
    assert_eq!(auto_detect_backend(false), EvmBackend::Revm);
    assert_eq!(cevm_probe_path("/h"), "/h/work/luxcpp/evm/build/bin/cevm");
    let g = GoEvmExecutor::new("/x/go-evm".into());
    assert_eq!(
        g.execute_block(&[], false).unwrap_err(),
        "go-evm binary not found at /x/go-evm: build with `go build` in luxfi/cevm"
    );
    assert_eq!(g.execute_block(&[], true).unwrap().total_gas, 0);
}

fn pq_input(pk: &[u8], sig: &[u8], msg: &[u8]) -> Vec<u8> {
    let mut v = Vec::new();
    v.extend_from_slice(&(pk.len() as u32).to_be_bytes());
    v.extend_from_slice(pk);
    v.extend_from_slice(&(sig.len() as u32).to_be_bytes());
    v.extend_from_slice(sig);
    v.extend_from_slice(msg);
    v
}

#[test]
fn precompile_flows() {
    let input = pq_input(&[1u8; 40], &[2u8; 24], b"msg");
    let call = match exec_pq_verify(&input) {
        PrecompileStep::Call(c) => c,
        other => panic!("unexpected {other:?}"),
    };
    match finish_call(&call, CallOutcome::Verified(Ok(true))) {
        PrecompileResult::Success { output, gas_used } => {
            assert_eq!(output.len(), 32);
            assert_eq!(output[31], 1);
            assert_eq!(gas_used, 3_004);
        }
        other => panic!("unexpected {other:?}"),
    }
    match finish_call(&call, CallOutcome::Verified(Err("bad key".into()))) {
        PrecompileResult::Revert { reason } => assert_eq!(reason, "ml-dsa verify error: bad key"),
        other => panic!("unexpected {other:?}"),
    }
    match exec_pq_verify(&pq_input(&[1u8; 4], &[], &[])[..9]) {
        PrecompileStep::Done(PrecompileResult::Revert { reason }) => assert_eq!(reason, "input too short for pq_verify"),
        other => panic!("unexpected {other:?}"),
    }

    let mut q = vec![0x42u8; 20];
    q.extend_from_slice(&[0xAA; 32]);
    q.extend_from_slice(&[0xBB; 32]);
    q.push(1);
    let call = match exec_quasar_query(&q) {
        PrecompileStep::Call(c) => c,
        other => panic!("unexpected {other:?}"),
    };
    match finish_call(&call, CallOutcome::Dispatched(Ok((vec![1], 400_000)))) {
        PrecompileResult::Success { output, gas_used } => {
            assert_eq!(output.len(), 53);
            assert_eq!(output[52], 1);
            assert_eq!(&output[20..52], &[0xAA; 32][..]);
            assert_eq!(gas_used, 601_000);
        }
        other => panic!("unexpected {other:?}"),
    }
    match finish_call(&call, CallOutcome::Dispatched(Ok((vec![1, 2], 0)))) {
        PrecompileResult::Revert { reason } => assert_eq!(reason, "unexpected quasar output length: 2 bytes"),
        other => panic!("unexpected {other:?}"),
    }
}

#[test]
fn engine_failures() {
    let mut input = vec![0u8; 36];
    input.extend_from_slice(b"prompt");
    let call = match hanzo_core::precompiles::exec_ai_inference(&input) {
        PrecompileStep::Call(c) => c,
        other => panic!("unexpected {other:?}"),
    };
    match finish_call(&call, CallOutcome::Inferred(Err(EngineFailure::ModelNotFound("m1".into())))) {
        PrecompileResult::Revert { reason } => assert_eq!(reason, "ai_inference model not found: m1"),
        other => panic!("unexpected {other:?}"),
    }
    match finish_call(&call, CallOutcome::Inferred(Ok(vec![9; 10]))) {
        PrecompileResult::Success { gas_used, .. } => assert_eq!(gas_used, 100_080),
        other => panic!("unexpected {other:?}"),
    }
    let mut e = vec![0u8; 4];
    e.extend_from_slice(&128u32.to_be_bytes());
    e.extend_from_slice(b"hello");
    let call = match hanzo_core::precompiles::exec_ai_embedding(&e) {
        PrecompileStep::Call(c) => c,
        other => panic!("unexpected {other:?}"),
    };
    match finish_call(&call, CallOutcome::Embedded(Err(EngineFailure::NoEmbeddingEngine))) {
        PrecompileResult::Revert { reason } => assert_eq!(reason, "no embedding engine registered on this node"),
        other => panic!("unexpected {other:?}"),
    }
    match finish_call(&call, CallOutcome::Embedded(Ok(vec![0; 512]))) {
        PrecompileResult::Success { gas_used, .. } => assert_eq!(gas_used, 52_048),
        other => panic!("unexpected {other:?}"),
    }
}

#[test]
fn captions_render_cues() {
    let cues = vec![
        Cue { start_secs: 0, start_ms: 0, end_secs: 1, end_ms: 500, text: "hi".into(), speaker: Some("S0".into()) },
        Cue { start_secs: 3725, start_ms: 7, end_secs: 3726, end_ms: 0, text: "world".into(), speaker: None },
    ];
    assert_eq!(
        render_vtt(&cues),
        "WEBVTT\n\n1\n00:00:00.000 --> 00:00:01.500\n<v S0>hi</v>\n\n2\n01:02:05.007 --> 01:02:06.000\nworld\n\n"
    );
    assert!(render_srt(&cues).contains("00:00:00,000 --> 00:00:01,500\nS0: hi\n\n"));
}
