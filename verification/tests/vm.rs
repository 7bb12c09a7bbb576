use hanzo_core::evm::{CevmExecutor, EvmBackend, GoEvmExecutor, RevmExecutor, Transaction};
use hanzo_core::precompiles::{
    exec_ai_embedding, exec_ai_inference, exec_pq_verify, exec_quasar_query, finish_call, quasar_query,
    CallOutcome, OutsideCall, PrecompileEntry, PrecompileKind, PrecompileRegistry, PrecompileResult, PrecompileStep, ADDR_AI_EMBEDDING, ADDR_AI_INFERENCE, ADDR_PQ_VERIFY,
    ADDR_QUASAR_QUERY,
};

fn sample_txs() -> Vec<Transaction> {
    vec![
        Transaction { raw_bytes: vec![0xde, 0xad], tx_index: 0, gas_used: 0 },
        Transaction { raw_bytes: vec![0xbe, 0xef], tx_index: 1, gas_used: 0 },
        Transaction { raw_bytes: vec![], tx_index: 2, gas_used: 0 },
    ]
}

#[test]
fn revm_executor_name() {
    let exec = RevmExecutor;
    assert_eq!(exec.name(), "revm");
    assert!(!exec.gpu_capable());
}

#[test]
fn revm_execute_block() {
    let exec = RevmExecutor;
    let txs = sample_txs();
    let result = exec.execute_block(&txs);
    assert_eq!(result.gas_used.len(), 3);
    assert_eq!(result.gas_used[0], 21_000);
    assert_eq!(result.gas_used[1], 21_000);
    assert_eq!(result.gas_used[2], 0);
    assert_eq!(result.total_gas, 42_000);
    assert_eq!(result.conflicts, 0);
}

#[test]
fn cevm_executor_name() {
    let exec = CevmExecutor::new(0);
    assert_eq!(exec.name(), "cevm");
    assert!(!exec.gpu_capable());
}

#[test]
fn cevm_gpu_capable_modes() {
    assert!(!CevmExecutor::new(0).gpu_capable());
    assert!(!CevmExecutor::new(1).gpu_capable());
    assert!(CevmExecutor::new(2).gpu_capable());
    assert!(CevmExecutor::new(3).gpu_capable());
}

#[test]
fn cevm_execute_block() {
    let exec = CevmExecutor::auto();
    let txs = sample_txs();
    let result = exec.execute_block(&txs);
    assert_eq!(result.gas_used.len(), 3);
    assert_eq!(result.total_gas, 42_000);
}

#[test]
fn go_evm_fails_on_missing_binary() {
    let exec = GoEvmExecutor::new("/nonexistent/path/cevm".into());
    let txs = sample_txs();
    let exists = std::path::Path::new(exec.binary_path()).exists();
    let result = exec.execute_block(&txs, exists);
    assert!(result.is_err());
}

#[test]
fn evm_backend_display() {
    assert_eq!(EvmBackend::Revm.to_string(), "revm");
    assert_eq!(EvmBackend::Cevm.to_string(), "cevm");
    assert_eq!(EvmBackend::GoEvm.to_string(), "go-evm");
}

#[test]
fn block_result_empty_block() {
    let exec = RevmExecutor;
    let result = exec.execute_block(&[]);
    assert!(result.gas_used.is_empty());
    assert_eq!(result.total_gas, 0);
}

#[test]
fn default_registry_has_four_precompiles() {
    let reg = PrecompileRegistry::default();
    assert_eq!(reg.len(), 4);
    assert!(reg.get(&ADDR_PQ_VERIFY).is_some());
    assert!(reg.get(&ADDR_QUASAR_QUERY).is_some());
    assert!(reg.get(&ADDR_AI_INFERENCE).is_some());
    assert!(reg.get(&ADDR_AI_EMBEDDING).is_some());
}

#[test]
fn registry_call_unknown_address_returns_none() {
    let reg = PrecompileRegistry::default();
    let unknown = [0xff; 20];
    assert!(reg.call(&unknown, &[]).is_none());
}

#[test]
fn addr_helper_layout() {
    assert_eq!(ADDR_PQ_VERIFY[17], 0x01);
    assert_eq!(ADDR_PQ_VERIFY[19], 0x01);
    assert_eq!(ADDR_PQ_VERIFY[0..17], [0u8; 17]);
    assert_eq!(ADDR_AI_INFERENCE[17], 0x02);
    assert_eq!(ADDR_AI_INFERENCE[19], 0x01);
}

fn is_revert(step: &PrecompileStep) -> bool {
    matches!(step, PrecompileStep::Done(PrecompileResult::Revert { .. }))
}

#[test]
fn pq_verify_rejects_short_input() {
    let result = exec_pq_verify(&[0; 5]);
    assert!(is_revert(&result));
}

#[test]
fn quasar_query_rejects_short_input() {
    let result = exec_quasar_query(&[0; 10]);
    assert!(is_revert(&result));
}

#[test]
fn ai_inference_rejects_empty() {
    let result = exec_ai_inference(&[]);
    assert!(is_revert(&result));
}

#[test]
fn ai_inference_rejects_missing_prompt() {
    let input = vec![0u8; 4 + 32];
    match exec_ai_inference(&input) {
        PrecompileStep::Done(PrecompileResult::Revert { reason }) => {
            assert!(reason.contains("non-empty"), "got reason: {reason}");
        }
        other => panic!("expected Revert, got {other:?}"),
    }
}

#[test]
fn ai_embedding_validates_dimension() {
    let result = exec_ai_embedding(&[0; 2]);
    assert!(is_revert(&result));

    let mut input = vec![0u8; 4];
    input.extend_from_slice(&0u32.to_be_bytes());
    input.extend_from_slice(b"text");
    assert!(is_revert(&exec_ai_embedding(&input)));

    let mut input = vec![0u8; 4];
    input.extend_from_slice(&5000u32.to_be_bytes());
    input.extend_from_slice(b"text");
    assert!(is_revert(&exec_ai_embedding(&input)));
}

#[test]
fn pq_verify_rejects_unsupported_pubkey_length() {
    // pk_len=1, pk=[0x00], sig_len=1, sig=[0x00], msg=[0x42]: no ML-DSA
    // parameter set has a 1-byte key, so the verifier reports Ok(false).
    let mut input = Vec::new();
    input.extend_from_slice(&1u32.to_be_bytes());
    input.push(0x00);
    input.extend_from_slice(&1u32.to_be_bytes());
    input.push(0x00);
    input.push(0x42);

    let call = match exec_pq_verify(&input) {
        PrecompileStep::Call(c) => c,
        other => panic!("expected a verification call, got {other:?}"),
    };
    match &call {
        OutsideCall::PqVerify { public_key, message, signature, gas_used } => {
            assert_eq!(public_key, &vec![0x00]);
            assert_eq!(signature, &vec![0x00]);
            assert_eq!(message, &vec![0x42]);
            assert_eq!(*gas_used, 3_000);
        }
        other => panic!("unexpected call {other:?}"),
    }
    match finish_call(&call, CallOutcome::Verified(Ok(false))) {
        PrecompileResult::Success { output, .. } => {
            assert_eq!(output.len(), 32);
            assert!(output.iter().all(|&b| b == 0));
        }
        other => panic!("expected Success(zero word), got {other:?}"),
    }
}

#[test]
fn quasar_query_composes_dispatch() {
    let mut input = vec![0x42u8; 20];
    input.extend_from_slice(&[0xAA; 32]);
    input.extend_from_slice(&[0xAA; 32]);
    input.push(0x01);
    let seen = std::cell::RefCell::new((String::new(), Vec::new(), 0u64));
    let r = quasar_query(&input, |a: String, w: Vec<u8>, g: u64| {
        *seen.borrow_mut() = (a, w, g);
        Ok((vec![1], 999_000))
    });
    assert_eq!(seen.borrow().0, "0x0300000000000000000000000000000000000020");
    assert_eq!(seen.borrow().1, input[20..85].to_vec());
    assert_eq!(seen.borrow().2, 1_000_000);
    match r {
        PrecompileResult::Success { output, gas_used } => {
            assert_eq!(output.len(), 53);
            assert_eq!(&output[0..52], &input[0..52]);
            assert_eq!(output[52], 1);
            assert_eq!(gas_used, 2_000);
        }
        other => panic!("unexpected {other:?}"),
    }
    match quasar_query(&input, |_a: String, _w: Vec<u8>, _g: u64| Err("no library".to_string())) {
        PrecompileResult::Revert { reason } => assert_eq!(reason, "luxprecompile dispatch failed: no library"),
        other => panic!("unexpected {other:?}"),
    }
    match quasar_query(&input, |_a: String, _w: Vec<u8>, _g: u64| Ok((vec![1, 0], 10))) {
        PrecompileResult::Revert { reason } => assert_eq!(reason, "unexpected quasar output length: 2 bytes"),
        other => panic!("unexpected {other:?}"),
    }
    match quasar_query(&input, |_a: String, _w: Vec<u8>, _g: u64| Ok((vec![0], 1_000_000))) {
        PrecompileResult::Success { output, gas_used } => {
            assert_eq!(output[52], 0);
            assert_eq!(gas_used, 1_000);
        }
        other => panic!("unexpected {other:?}"),
    }
    assert!(matches!(quasar_query(&[0; 10], |_a: String, _w: Vec<u8>, _g: u64| Ok((vec![], 0))), PrecompileResult::Revert { .. }));
}

fn echo_precompile(input: &[u8]) -> PrecompileResult {
    PrecompileResult::Success { output: input.iter().rev().copied().collect(), gas_used: 7 }
}

#[test]
fn custom_precompile_runs_the_users_function() {
    let mut reg = PrecompileRegistry::new();
    let addr = [9u8; 20];
    reg.register(PrecompileEntry { address: addr, name: "echo".into(), base_gas: 1, kind: PrecompileKind::Custom(3) });
    let call = match reg.call(&addr, &[1, 2, 3]) {
        Some(PrecompileStep::Call(c)) => c,
        other => panic!("expected a call, got {other:?}"),
    };
    let input = match &call {
        OutsideCall::Custom { tag, input } => {
            assert_eq!(*tag, 3);
            assert_eq!(input, &vec![1, 2, 3]);
            input.clone()
        }
        other => panic!("unexpected call {other:?}"),
    };
    match finish_call(&call, CallOutcome::Ran(echo_precompile(&input))) {
        PrecompileResult::Success { output, gas_used } => {
            assert_eq!(output, vec![3, 2, 1]);
            assert_eq!(gas_used, 7);
        }
        other => panic!("unexpected {other:?}"),
    }
}
