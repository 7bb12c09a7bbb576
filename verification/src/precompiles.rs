//! Custom precompiles of the L2: their fixed addresses, a registry keyed by
//! address, and for each precompile the decoding of its calldata, the
//! outside work it asks for (ML-DSA verification, the Lux Quasar
//! precompile, the inference and embedding engines), and the result it
//! returns for what that work reported.

use vstd::prelude::*;
use crate::numtext::{int_text, push_uint};
use crate::text::{bytes_range, str_eq};

verus! {

// ── Addresses ───────────────────────────────────────────────────────

/// PQ signature verification (ML-DSA, FIPS 204).
pub const ADDR_PQ_VERIFY: [u8; 20] = [0, 0, 0, 0, 0, 0, 0, 0, 0, 0, 0, 0, 0, 0, 0, 0, 0, 1, 0, 1];

/// Quasar committee membership query.
pub const ADDR_QUASAR_QUERY: [u8; 20] = [0, 0, 0, 0, 0, 0, 0, 0, 0, 0, 0, 0, 0, 0, 0, 0, 0, 1, 0, 2];

/// AI inference call.
pub const ADDR_AI_INFERENCE: [u8; 20] = [0, 0, 0, 0, 0, 0, 0, 0, 0, 0, 0, 0, 0, 0, 0, 0, 0, 2, 0, 1];

/// AI embedding computation.
pub const ADDR_AI_EMBEDDING: [u8; 20] = [0, 0, 0, 0, 0, 0, 0, 0, 0, 0, 0, 0, 0, 0, 0, 0, 0, 2, 0, 2];

/// The canonical Lux Quasar (Verkle witness) precompile that the Quasar
/// query forwards to.
pub const LUX_QUASAR_ADDR: &'static str = "0x0300000000000000000000000000000000000020";

/// Gas handed to the Lux Quasar precompile.
pub const QUASAR_GAS_LIMIT: u64 = 1_000_000;

/// The address of precompile `index` of `category`: seventeen zero bytes,
/// the category, a zero byte, the index.
pub open spec fn addr_spec(category: u8, index: u8) -> Seq<u8> {
    Seq::new(
        20,
        |i: int|
            if i == 17 {
                category
            } else if i == 19 {
                index
            } else {
                0u8
            },
    )
}

/// Builds the address of precompile `index` of `category`.
pub fn addr(category: u8, index: u8) -> (a: [u8; 20])
    ensures
        a@ == addr_spec(category, index),
{
    let mut a = [0u8; 20];
    a.set(17, category);
    a.set(19, index);
    assert(a@ =~= addr_spec(category, index));
    a
}

// ── Results ─────────────────────────────────────────────────────────

/// Outcome of a precompile execution.
#[derive(Debug, Clone)]
pub enum PrecompileResult {
    /// Successful execution with output bytes.
    Success { output: Vec<u8>, gas_used: u64 },
    /// Execution reverted.
    Revert { reason: String },
    /// Execution encountered an unrecoverable error.
    Error { message: String },
}

/// What the inference and embedding engines report on failure.
#[derive(Debug, Clone)]
pub enum EngineFailure {
    NoInferenceEngine,
    NoEmbeddingEngine,
    ModelNotFound(String),
    Other(String),
}

/// The outside work a precompile call asks for.
#[derive(Debug, Clone)]
pub enum OutsideCall {
    /// Verify an ML-DSA signature; `gas_used` is what the call costs.
    PqVerify { public_key: Vec<u8>, message: Vec<u8>, signature: Vec<u8>, gas_used: u64 },
    /// Run the Lux Quasar precompile on `witness` with `QUASAR_GAS_LIMIT`.
    QuasarDispatch { validator: Vec<u8>, commitment: Vec<u8>, witness: Vec<u8> },
    /// Run the inference engine on a model and prompt.
    Inference { model_id: Vec<u8>, prompt: Vec<u8> },
    /// Run the embedding engine for `dim` dimensions on a text.
    Embedding { dim: u32, text: Vec<u8> },
    /// Run the user's own precompile registered under `tag` on the calldata.
    Custom { tag: u32, input: Vec<u8> },
}

/// What the outside work reported.
#[derive(Debug)]
pub enum CallOutcome {
    /// ML-DSA verification: validity, or the verifier's error message.
    Verified(Result<bool, String>),
    /// Lux precompile: output bytes and remaining gas, or the dispatch
    /// error message.
    Dispatched(Result<(Vec<u8>, u64), String>),
    /// Inference output bytes, or the engine's failure.
    Inferred(Result<Vec<u8>, EngineFailure>),
    /// Embedding as little-endian `f32` bytes, or the engine's failure.
    Embedded(Result<Vec<u8>, EngineFailure>),
    /// What the user's own precompile returned.
    Ran(PrecompileResult),
}

/// A precompile call after its calldata is read: finished (a revert), or
/// waiting for outside work.
#[derive(Debug, Clone)]
pub enum PrecompileStep {
    Done(PrecompileResult),
    Call(OutsideCall),
}

/// Which precompile an entry runs: a built-in one, or one of the user's own,
/// known by the tag its execution function is registered under.
#[derive(Debug, Clone, Copy, PartialEq, Eq, Structural)]
pub enum PrecompileKind {
    PqVerify,
    QuasarQuery,
    AiInference,
    AiEmbedding,
    Custom(u32),
}

// ── Calldata ────────────────────────────────────────────────────────

/// The big-endian `u32` at `off`.
pub open spec fn be_u32(s: Seq<u8>, off: int) -> nat {
    (s[off] as nat) * 0x100_0000 + (s[off + 1] as nat) * 0x1_0000 + (s[off + 2] as nat) * 0x100 + (
    s[off + 3] as nat)
}

fn read_be_u32(s: &[u8], off: usize) -> (v: u64)
    requires
        off + 4 <= s@.len(),
    ensures
        v == be_u32(s@, off as int),
        v < 0x1_0000_0000,
{
    (s[off] as u64) * 0x100_0000 + (s[off + 1] as u64) * 0x1_0000 + (s[off + 2] as u64) * 0x100 + (
    s[off + 3] as u64)
}

/// The verification an ML-DSA calldata asks for: public key, message,
/// signature and gas, or the revert reason. Layout: a big-endian `u32`
/// key length, the key, a big-endian `u32` signature length, the
/// signature, then the message; gas 3000 plus one per 16 key and
/// signature bytes.
pub open spec fn pq_request(input: Seq<u8>) -> Result<(Seq<u8>, Seq<u8>, Seq<u8>, nat), Seq<char>> {
    if input.len() < 10 {
        Err("input too short for pq_verify"@)
    } else {
        let pk_len = be_u32(input, 0);
        if input.len() < 4 + pk_len + 4 {
            Err("input truncated at public key"@)
        } else {
            let so: int = 4 + pk_len as int;
            let sig_len = be_u32(input, so);
            let mo: int = so + 4 + sig_len;
            if input.len() < mo {
                Err("input truncated at signature"@)
            } else {
                Ok(
                    (
                        input.subrange(4, so),
                        input.skip(mo),
                        input.subrange(so + 4, mo),
                        3000 + (pk_len + sig_len) / 16,
                    ),
                )
            }
        }
    }
}

/// The Quasar dispatch a calldata asks for: validator, commitment and the
/// Verkle witness (commitment, proof, threshold flag), or the revert
/// reason. Layout: 20-byte validator, 32-byte commitment, 32-byte proof,
/// one flag byte.
pub open spec fn quasar_request(input: Seq<u8>) -> Result<(Seq<u8>, Seq<u8>, Seq<u8>), Seq<char>> {
    if input.len() < 85 {
        Err("quasar_query requires 85 bytes (addr ++ commitment ++ proof ++ flag)"@)
    } else {
        Ok((input.subrange(0, 20), input.subrange(20, 52), input.subrange(20, 85)))
    }
}

/// The inference an calldata asks for: model id and prompt, or the revert
/// reason. Layout: 4-byte selector, 32-byte model id, the prompt.
pub open spec fn inference_request(input: Seq<u8>) -> Result<(Seq<u8>, Seq<u8>), Seq<char>> {
    if input.len() < 36 {
        Err("ai_inference requires at least 36 bytes (selector + model id)"@)
    } else if input.len() == 36 {
        Err("ai_inference requires a non-empty prompt"@)
    } else {
        Ok((input.subrange(4, 36), input.skip(36)))
    }
}

/// The embedding a calldata asks for: dimension and text, or the revert
/// reason. Layout: 4-byte selector, big-endian `u32` dimension (1 to
/// 4096), the text.
pub open spec fn embedding_request(input: Seq<u8>) -> Result<(nat, Seq<u8>), Seq<char>> {
    if input.len() < 8 {
        Err("ai_embedding requires at least 8 bytes (selector + dim)"@)
    } else {
        let dim = be_u32(input, 4);
        if dim == 0 || dim > 4096 {
            Err("invalid embedding dimension: "@ + int_text(dim as int))
        } else if input.len() == 8 {
            Err("ai_embedding requires non-empty text"@)
        } else {
            Ok((dim, input.skip(8)))
        }
    }
}

/// `step` is a revert with `reason`.
pub open spec fn is_revert_with(step: PrecompileStep, reason: Seq<char>) -> bool {
    step matches PrecompileStep::Done(PrecompileResult::Revert { reason: r }) && r@ == reason
}

/// `step` is what a calldata of precompile `kind` leads to.
pub open spec fn step_for(step: PrecompileStep, kind: PrecompileKind, input: Seq<u8>) -> bool {
    match kind {
        PrecompileKind::PqVerify => match pq_request(input) {
            Err(reason) => is_revert_with(step, reason),
            Ok((pk, msg, sig, gas)) => step matches PrecompileStep::Call(
                OutsideCall::PqVerify { public_key, message, signature, gas_used },
            ) && public_key@ == pk && message@ == msg && signature@ == sig && gas_used == gas,
        },
        PrecompileKind::QuasarQuery => match quasar_request(input) {
            Err(reason) => is_revert_with(step, reason),
            Ok((v, c, w)) => step matches PrecompileStep::Call(
                OutsideCall::QuasarDispatch { validator, commitment, witness },
            ) && validator@ == v && commitment@ == c && witness@ == w,
        },
        PrecompileKind::AiInference => match inference_request(input) {
            Err(reason) => is_revert_with(step, reason),
            Ok((m, p)) => step matches PrecompileStep::Call(OutsideCall::Inference { model_id, prompt })
                && model_id@ == m && prompt@ == p,
        },
        PrecompileKind::AiEmbedding => match embedding_request(input) {
            Err(reason) => is_revert_with(step, reason),
            Ok((d, t)) => step matches PrecompileStep::Call(OutsideCall::Embedding { dim, text })
                && dim == d && text@ == t,
        },
        PrecompileKind::Custom(tag) => step matches PrecompileStep::Call(OutsideCall::Custom { tag: t, input: i })
            && t == tag && i@ == input,
    }
}

fn revert(reason: &str) -> (s: PrecompileStep)
    ensures
        is_revert_with(s, reason@),
{
    PrecompileStep::Done(PrecompileResult::Revert { reason: String::from_str(reason) })
}

/// Reads an ML-DSA verification calldata.
pub fn exec_pq_verify(input: &[u8]) -> (s: PrecompileStep)
    ensures
        step_for(s, PrecompileKind::PqVerify, input@),
{
    if input.len() < 10 {
        return revert("input too short for pq_verify");
    }
    let pk_len = read_be_u32(input, 0);
    if (input.len() as u64) < 4 + pk_len + 4 {
        return revert("input truncated at public key");
    }
    let so = (4 + pk_len) as usize;
    let sig_len = read_be_u32(input, so);
    let mo64 = so as u64 + 4 + sig_len;
    if (input.len() as u64) < mo64 {
        return revert("input truncated at signature");
    }
    let mo = mo64 as usize;
    let public_key = bytes_range(input, 4, so);
    let signature = bytes_range(input, so + 4, mo);
    let message = bytes_range(input, mo, input.len());
    assert(message@ =~= input@.skip(mo as int));
    let gas_used = 3_000u64.saturating_add((pk_len + sig_len) / 16);
    PrecompileStep::Call(OutsideCall::PqVerify { public_key, message, signature, gas_used })
}

/// Reads a Quasar membership calldata.
pub fn exec_quasar_query(input: &[u8]) -> (s: PrecompileStep)
    ensures
        step_for(s, PrecompileKind::QuasarQuery, input@),
{
    if input.len() < 85 {
        return revert("quasar_query requires 85 bytes (addr ++ commitment ++ proof ++ flag)");
    }
    let validator = bytes_range(input, 0, 20);
    let commitment = bytes_range(input, 20, 52);
    let mut witness = bytes_range(input, 20, 84);
    witness.push(input[84]);
    assert(witness@ =~= input@.subrange(20, 85));
    PrecompileStep::Call(OutsideCall::QuasarDispatch { validator, commitment, witness })
}

/// Reads an inference calldata.
pub fn exec_ai_inference(input: &[u8]) -> (s: PrecompileStep)
    ensures
        step_for(s, PrecompileKind::AiInference, input@),
{
    if input.len() < 36 {
        return revert("ai_inference requires at least 36 bytes (selector + model id)");
    }
    if input.len() == 36 {
        return revert("ai_inference requires a non-empty prompt");
    }
    let model_id = bytes_range(input, 4, 36);
    let prompt = bytes_range(input, 36, input.len());
    assert(prompt@ =~= input@.skip(36));
    PrecompileStep::Call(OutsideCall::Inference { model_id, prompt })
}

/// Reads an embedding calldata.
pub fn exec_ai_embedding(input: &[u8]) -> (s: PrecompileStep)
    ensures
        step_for(s, PrecompileKind::AiEmbedding, input@),
        input@.len() > 8 && 1 <= be_u32(input@, 4) <= 4096 ==> (s matches PrecompileStep::Call(
            OutsideCall::Embedding { dim, text },
        ) && dim == be_u32(input@, 4) && text@ == input@.subrange(8, input@.len() as int)),
{
    if input.len() < 8 {
        return revert("ai_embedding requires at least 8 bytes (selector + dim)");
    }
    let dim = read_be_u32(input, 4);
    if dim == 0 || dim > 4096 {
        let mut m = String::from_str("invalid embedding dimension: ");
        push_uint(&mut m, dim);
        assert(int_text(dim as int) == crate::numtext::radix_text(dim as nat, 10));
        return PrecompileStep::Done(PrecompileResult::Revert { reason: m });
    }
    if input.len() == 8 {
        return revert("ai_embedding requires non-empty text");
    }
    let text = bytes_range(input, 8, input.len());
    assert(text@ =~= input@.skip(8));
    PrecompileStep::Call(OutsideCall::Embedding { dim: dim as u32, text })
}

/// The text to embed is what follows the 8-byte header: for calldata made
/// of a 4-byte selector, the big-endian dimension and a non-empty text, the
/// embedding request carries that dimension and exactly that text.
pub proof fn lemma_embedding_text(selector: Seq<u8>, dim: Seq<u8>, text: Seq<u8>)
    requires
        selector.len() == 4,
        dim.len() == 4,
        1 <= be_u32(dim, 0) <= 4096,
        text.len() > 0,
    ensures
        embedding_request(selector + dim + text) == Ok::<(nat, Seq<u8>), Seq<char>>((be_u32(dim, 0), text)),
{
    let input = selector + dim + text;
    assert(input[4] == dim[0] && input[5] == dim[1] && input[6] == dim[2] && input[7] == dim[3]);
    assert(be_u32(input, 4) == be_u32(dim, 0));
    assert(input.skip(8) =~= text);
}

/// Reads the calldata of precompile `kind`.
pub fn execute(kind: PrecompileKind, input: &[u8]) -> (s: PrecompileStep)
    ensures
        step_for(s, kind, input@),
{
    match kind {
        PrecompileKind::PqVerify => exec_pq_verify(input),
        PrecompileKind::QuasarQuery => exec_quasar_query(input),
        PrecompileKind::AiInference => exec_ai_inference(input),
        PrecompileKind::AiEmbedding => exec_ai_embedding(input),
        PrecompileKind::Custom(tag) => {
            let data = bytes_range(input, 0, input.len());
            assert(data@ =~= input@);
            PrecompileStep::Call(OutsideCall::Custom { tag, input: data })
        },
    }
}

// ── Results of outside work ─────────────────────────────────────────

/// The revert reason for an engine failure in operation `op`.
pub open spec fn engine_reason(f: EngineFailure, op: Seq<char>) -> Seq<char> {
    match f {
        EngineFailure::NoInferenceEngine => "no inference engine registered on this node"@,
        EngineFailure::NoEmbeddingEngine => "no embedding engine registered on this node"@,
        EngineFailure::ModelNotFound(id) => op + " model not found: "@ + id@,
        EngineFailure::Other(m) => op + " engine failure: "@ + m@,
    }
}

/// The outcome answers the call, and inference output is small enough for
/// its gas to be counted.
pub open spec fn outcome_fits(call: OutsideCall, outcome: CallOutcome) -> bool {
    match call {
        OutsideCall::PqVerify { .. } => outcome is Verified,
        OutsideCall::QuasarDispatch { .. } => outcome is Dispatched,
        OutsideCall::Inference { .. } => outcome matches CallOutcome::Inferred(o) && (o matches Ok(out)
            ==> out@.len() * 8 <= u64::MAX),
        OutsideCall::Embedding { .. } => outcome is Embedded,
        OutsideCall::Custom { .. } => outcome is Ran,
    }
}

/// `r` is a success with `output` and `gas`.
pub open spec fn is_success_with(r: PrecompileResult, output: Seq<u8>, gas: int) -> bool {
    r matches PrecompileResult::Success { output: o, gas_used: g } && o@ == output && g == gas
}

/// `r` is a revert with `reason`.
pub open spec fn is_revert(r: PrecompileResult, reason: Seq<char>) -> bool {
    r matches PrecompileResult::Revert { reason: m } && m@ == reason
}

/// The 32-byte big-endian word reporting a signature check: one when the
/// signature is valid, else zero.
pub open spec fn validity_word(valid: bool) -> Seq<u8> {
    Seq::new(32, |i: int| if i == 31 && valid { 1u8 } else { 0u8 })
}

/// The result a precompile call returns for what its outside work
/// reported.
pub open spec fn finished(r: PrecompileResult, call: OutsideCall, outcome: CallOutcome) -> bool {
    match (call, outcome) {
        (OutsideCall::PqVerify { gas_used, .. }, CallOutcome::Verified(v)) => match v {
            Ok(valid) => is_success_with(r, validity_word(valid), gas_used as int),
            Err(m) => is_revert(r, "ml-dsa verify error: "@ + m@),
        },
        (OutsideCall::QuasarDispatch { validator, commitment, .. }, CallOutcome::Dispatched(d)) => match d {
            Err(m) => is_revert(r, "luxprecompile dispatch failed: "@ + m@),
            Ok((out, remaining)) => if out@.len() != 1 {
                is_revert(r, "unexpected quasar output length: "@ + int_text(out@.len() as int) + " bytes"@)
            } else {
                is_success_with(
                    r,
                    validator@ + commitment@ + seq![if out@[0] != 0 { 1u8 } else { 0u8 }],
                    (if remaining > QUASAR_GAS_LIMIT { 0 } else { QUASAR_GAS_LIMIT - remaining }) + 1000,
                )
            },
        },
        (OutsideCall::Inference { .. }, CallOutcome::Inferred(o)) => match o {
            Ok(out) => is_success_with(r, out@, if 100_000 + out@.len() * 8 > u64::MAX {
                u64::MAX as int
            } else {
                (100_000 + out@.len() * 8) as int
            }),
            Err(f) => is_revert(r, engine_reason(f, "ai_inference"@)),
        },
        (OutsideCall::Embedding { dim, .. }, CallOutcome::Embedded(o)) => match o {
            Ok(bytes) => is_success_with(r, bytes@, 50_000 + dim * 16),
            Err(f) => is_revert(r, engine_reason(f, "ai_embedding"@)),
        },
        (OutsideCall::Custom { .. }, CallOutcome::Ran(res)) => r == res,
        _ => false,
    }
}

fn reason_with(head: &str, tail: &str) -> (r: PrecompileResult)
    ensures
        is_revert(r, head@ + tail@),
{
    let mut m = String::from_str(head);
    m.append(tail);
    PrecompileResult::Revert { reason: m }
}

fn engine_revert(f: EngineFailure, op: &str) -> (r: PrecompileResult)
    ensures
        is_revert(r, engine_reason(f, op@)),
{
    match f {
        EngineFailure::NoInferenceEngine => PrecompileResult::Revert {
            reason: String::from_str("no inference engine registered on this node"),
        },
        EngineFailure::NoEmbeddingEngine => PrecompileResult::Revert {
            reason: String::from_str("no embedding engine registered on this node"),
        },
        EngineFailure::ModelNotFound(id) => {
            let mut m = String::from_str(op);
            m.append(" model not found: ");
            m.append(id.as_str());
            PrecompileResult::Revert { reason: m }
        },
        EngineFailure::Other(msg) => {
            let mut m = String::from_str(op);
            m.append(" engine failure: ");
            m.append(msg.as_str());
            PrecompileResult::Revert { reason: m }
        },
    }
}

/// The result of a precompile call once its outside work has reported.
pub fn finish_call(call: &OutsideCall, outcome: CallOutcome) -> (r: PrecompileResult)
    requires
        outcome_fits(*call, outcome),
    ensures
        finished(r, *call, outcome),
{
    match call {
        OutsideCall::PqVerify { gas_used, .. } => match outcome {
            CallOutcome::Verified(Ok(valid)) => {
                let mut output: Vec<u8> = Vec::new();
                let mut i: usize = 0;
                while i < 31
                    invariant
                        i <= 31,
                        output@ == Seq::new(i as nat, |k: int| 0u8),
                    decreases 31 - i,
                {
                    output.push(0u8);
                    i = i + 1;
                    assert(output@ =~= Seq::new(i as nat, |k: int| 0u8));
                }
                output.push(if valid {
                    1u8
                } else {
                    0u8
                });
                assert(output@ =~= validity_word(valid));
                PrecompileResult::Success { output, gas_used: *gas_used }
            },
            CallOutcome::Verified(Err(m)) => reason_with("ml-dsa verify error: ", m.as_str()),
            _ => PrecompileResult::Error { message: String::new() },
        },
        OutsideCall::QuasarDispatch { validator, commitment, .. } => match outcome {
            CallOutcome::Dispatched(Err(m)) => reason_with("luxprecompile dispatch failed: ", m.as_str()),
            CallOutcome::Dispatched(Ok((out, remaining))) => {
                if out.len() != 1 {
                    let mut m = String::from_str("unexpected quasar output length: ");
                    push_uint(&mut m, out.len() as u64);
                    m.append(" bytes");
                    assert(int_text(out@.len() as int) == crate::numtext::radix_text(out@.len(), 10));
                    return PrecompileResult::Revert { reason: m };
                }
                let member: u8 = if out[0] != 0 {
                    1
                } else {
                    0
                };
                let mut output = bytes_range(validator.as_slice(), 0, validator.len());
                let mut c = bytes_range(commitment.as_slice(), 0, commitment.len());
                output.append(&mut c);
                output.push(member);
                assert(output@ =~= validator@ + commitment@ + seq![member]);
                let gas_used = QUASAR_GAS_LIMIT.saturating_sub(remaining).saturating_add(1_000);
                PrecompileResult::Success { output, gas_used }
            },
            _ => PrecompileResult::Error { message: String::new() },
        },
        OutsideCall::Inference { .. } => match outcome {
            CallOutcome::Inferred(Ok(out)) => {
                let gas_used = 100_000u64.saturating_add(out.len() as u64 * 8);
                PrecompileResult::Success { output: out, gas_used }
            },
            CallOutcome::Inferred(Err(f)) => engine_revert(f, "ai_inference"),
            _ => PrecompileResult::Error { message: String::new() },
        },
        OutsideCall::Embedding { dim, .. } => match outcome {
            CallOutcome::Embedded(Ok(bytes)) => {
                let gas_used = 50_000u64 + (*dim as u64) * 16;
                PrecompileResult::Success { output: bytes, gas_used }
            },
            CallOutcome::Embedded(Err(f)) => engine_revert(f, "ai_embedding"),
            _ => PrecompileResult::Error { message: String::new() },
        },
        OutsideCall::Custom { .. } => match outcome {
            CallOutcome::Ran(res) => res,
            _ => PrecompileResult::Error { message: String::new() },
        },
    }
}

/// The result of a Quasar query for what the Lux precompile replied: the
/// dispatch error, an output of other than one byte, or the validator and
/// committee root followed by the membership flag, with the gas the
/// precompile used plus a 1000 routing fee.
pub open spec fn quasar_reply_result(
    r: PrecompileResult,
    input: Seq<u8>,
    reply: Result<(Vec<u8>, u64), String>,
) -> bool {
    match reply {
        Err(m) => is_revert(r, "luxprecompile dispatch failed: "@ + m@),
        Ok((out, remaining)) => if out@.len() != 1 {
            is_revert(r, "unexpected quasar output length: "@ + int_text(out@.len() as int) + " bytes"@)
        } else {
            is_success_with(
                r,
                input.subrange(0, 52) + seq![if out@[0] != 0 { 1u8 } else { 0u8 }],
                (if remaining > QUASAR_GAS_LIMIT { 0 } else { QUASAR_GAS_LIMIT - remaining }) + 1000,
            )
        },
    }
}

/// The Quasar committee membership query: reads the calldata, runs the Lux
/// Quasar precompile through `dispatch` (given the precompile's address, the
/// Verkle witness and the gas limit) and reports the validator, the
/// committee root and the membership flag.
pub fn quasar_query<F: Fn(String, Vec<u8>, u64) -> Result<(Vec<u8>, u64), String>>(
    input: &[u8],
    dispatch: F,
) -> (r: PrecompileResult)
    requires
        forall|a: String, w: Vec<u8>, g: u64| call_requires(dispatch, (a, w, g)),
    ensures
        input@.len() < 85 ==> is_revert(
            r,
            "quasar_query requires 85 bytes (addr ++ commitment ++ proof ++ flag)"@,
        ),
        input@.len() >= 85 ==> (r is Success || r is Revert),
        input@.len() >= 85 ==> exists|a: String, w: Vec<u8>, g: u64, reply: Result<(Vec<u8>, u64), String>|
            #![trigger call_ensures(dispatch, (a, w, g), reply)]
            a@ == LUX_QUASAR_ADDR@ && w@ == input@.subrange(20, 85) && g == QUASAR_GAS_LIMIT
                && call_ensures(dispatch, (a, w, g), reply) && quasar_reply_result(r, input@, reply),
        r matches PrecompileResult::Success { output, gas_used } ==> output@.len() == 53
            && output@.subrange(0, 52) == input@.subrange(0, 52) && output@[52] <= 1 && gas_used
            <= QUASAR_GAS_LIMIT + 1000,
{
    match exec_quasar_query(input) {
        PrecompileStep::Done(r) => r,
        PrecompileStep::Call(call) => {
            let witness = match &call {
                OutsideCall::QuasarDispatch { witness, .. } => witness,
                _ => {
                    return PrecompileResult::Error { message: String::new() };
                },
            };
            let w = bytes_range(witness.as_slice(), 0, witness.len());
            assert(w@ =~= input@.subrange(20, 85));
            let a = String::from_str(LUX_QUASAR_ADDR);
            let ghost ag = a;
            let ghost wg = w;
            let reply = dispatch(a, w, QUASAR_GAS_LIMIT);
            let ghost rg = reply;
            let r = finish_call(&call, CallOutcome::Dispatched(reply));
            proof {
                assert(input@.subrange(0, 20) + input@.subrange(20, 52) =~= input@.subrange(0, 52));
                assert(quasar_reply_result(r, input@, rg));
                assert(call_ensures(dispatch, (ag, wg, QUASAR_GAS_LIMIT), rg));
            }
            r
        },
    }
}

// ── Registry ────────────────────────────────────────────────────────

/// A registered precompile.
#[derive(Debug, Clone)]
pub struct PrecompileEntry {
    /// 20-byte EVM address where the precompile lives.
    pub address: [u8; 20],
    /// Name for logging.
    pub name: String,
    /// Base gas cost, charged before execution.
    pub base_gas: u64,
    /// What the precompile runs.
    pub kind: PrecompileKind,
}

/// What an entry says, apart from its address.
pub type EntryView = (Seq<char>, u64, PrecompileKind);

/// An entry as its address and what it says.
pub open spec fn entry_view(e: PrecompileEntry) -> (Seq<u8>, EntryView) {
    (e.address@, (e.name@, e.base_gas, e.kind))
}

/// No two entries share an address.
pub open spec fn addresses_unique(es: Seq<(Seq<u8>, EntryView)>) -> bool {
    forall|i: int, j: int| 0 <= i < j < es.len() ==> (#[trigger] es[i]).0 != (#[trigger] es[j]).0
}

/// The entries keyed by address.
pub open spec fn entries_map(es: Seq<(Seq<u8>, EntryView)>) -> Map<Seq<u8>, EntryView>
    decreases es.len(),
{
    if es.len() == 0 {
        Map::empty()
    } else {
        entries_map(es.drop_last()).insert(es.last().0, es.last().1)
    }
}

proof fn lemma_entries_map(es: Seq<(Seq<u8>, EntryView)>, k: Seq<u8>)
    requires
        addresses_unique(es),
    ensures
        entries_map(es).dom().contains(k) <==> exists|i: int| 0 <= i < es.len() && (#[trigger] es[i]).0 == k,
        forall|i: int| 0 <= i < es.len() && (#[trigger] es[i]).0 == k ==> entries_map(es)[k] == es[i].1,
    decreases es.len(),
{
    if es.len() > 0 {
        let p = es.drop_last();
        assert(addresses_unique(p)) by {
            assert forall|i: int, j: int| 0 <= i < j < p.len() implies (#[trigger] p[i]).0 != (#[trigger] p[j]).0 by {
                assert(p[i] == es[i] && p[j] == es[j]);
            }
        }
        lemma_entries_map(p, k);
        if entries_map(es).dom().contains(k) && es.last().0 != k {
            let i = choose|i: int| 0 <= i < p.len() && (#[trigger] p[i]).0 == k;
            assert(es[i] == p[i]);
        }
        assert forall|i: int| 0 <= i < es.len() && (#[trigger] es[i]).0 == k implies entries_map(es)[k] == es[i].1 by {
            if i < es.len() - 1 {
                assert(es[i] == p[i]);
                assert(es.last().0 != k);
            }
        }
        if exists|i: int| 0 <= i < es.len() && (#[trigger] es[i]).0 == k {
            let i = choose|i: int| 0 <= i < es.len() && (#[trigger] es[i]).0 == k;
            if i < es.len() - 1 {
                assert(p[i] == es[i]);
            }
        }
    }
}

proof fn lemma_entries_map_len(es: Seq<(Seq<u8>, EntryView)>)
    requires
        addresses_unique(es),
    ensures
        entries_map(es).dom().finite(),
        entries_map(es).dom().len() == es.len(),
    decreases es.len(),
{
    if es.len() > 0 {
        let p = es.drop_last();
        assert(addresses_unique(p)) by {
            assert forall|i: int, j: int| 0 <= i < j < p.len() implies (#[trigger] p[i]).0 != (#[trigger] p[j]).0 by {
                assert(p[i] == es[i] && p[j] == es[j]);
            }
        }
        lemma_entries_map_len(p);
        lemma_entries_map(p, es.last().0);
        if entries_map(p).dom().contains(es.last().0) {
            let i = choose|i: int| 0 <= i < p.len() && (#[trigger] p[i]).0 == es.last().0;
            assert(es[i] == p[i]);
            assert(es[i].0 != es[es.len() - 1].0);
        }
    }
}

/// Registry of precompiles, at most one per address.
#[derive(Debug)]
pub struct PrecompileRegistry {
    entries: Vec<PrecompileEntry>,
}

impl PrecompileRegistry {
    /// The entries in registration order.
    pub closed spec fn entry_seq(&self) -> Seq<(Seq<u8>, EntryView)> {
        self.entries@.map_values(|e: PrecompileEntry| entry_view(e))
    }

    /// The registered precompiles, keyed by address.
    pub open spec fn view_map(&self) -> Map<Seq<u8>, EntryView> {
        entries_map(self.entry_seq())
    }

    /// Addresses are unique.
    pub open spec fn wf(&self) -> bool {
        addresses_unique(self.entry_seq())
    }
}

fn same_address(a: &[u8; 20], b: &[u8; 20]) -> (r: bool)
    ensures
        r == (a@ == b@),
{
    let mut i: usize = 0;
    while i < 20
        invariant
            i <= 20,
            a@.len() == 20,
            b@.len() == 20,
            forall|k: int| 0 <= k < i ==> a@[k] == b@[k],
        decreases 20 - i,
    {
        if a[i] != b[i] {
            return false;
        }
        i = i + 1;
    }
    assert(a@ =~= b@);
    true
}

impl PrecompileRegistry {
    /// An empty registry.
    pub fn new() -> (r: PrecompileRegistry)
        ensures
            r.wf(),
            r.view_map() == Map::<Seq<u8>, EntryView>::empty(),
    {
        let r = PrecompileRegistry { entries: Vec::new() };
        assert(r.entry_seq() =~= Seq::<(Seq<u8>, EntryView)>::empty());
        r
    }

    fn position(&self, address: &[u8; 20]) -> (r: Option<usize>)
        ensures
            match r {
                Some(i) => i < self.entry_seq().len() && self.entry_seq()[i as int].0 == address@,
                None => forall|i: int| 0 <= i < self.entry_seq().len() ==> (#[trigger] self.entry_seq()[i]).0 != address@,
            },
    {
        let mut i: usize = 0;
        while i < self.entries.len()
            invariant
                i <= self.entries@.len(),
                forall|k: int| 0 <= k < i ==> (#[trigger] self.entry_seq()[k]).0 != address@,
            decreases self.entries.len() - i,
        {
            if same_address(&self.entries[i].address, address) {
                return Some(i);
            }
            i = i + 1;
        }
        None
    }

    /// Registers a precompile, replacing any entry at the same address.
    pub fn register(&mut self, entry: PrecompileEntry)
        requires
            old(self).wf(),
        ensures
            final(self).wf(),
            final(self).view_map() == old(self).view_map().insert(entry.address@, entry_view(entry).1),
            final(self).view_map().dom().finite(),
            final(self).view_map().dom().len() == old(self).view_map().dom().len() + (if old(
                self,
            ).view_map().dom().contains(entry.address@) {
                0int
            } else {
                1int
            }),
    {
        let ghost ev = entry_view(entry);
        let ghost old_seq = self.entry_seq();
        proof {
            lemma_entries_map_len(old_seq);
        }
        proof {
            lemma_entries_map(self.entry_seq(), ev.0);
        }
        match self.position(&entry.address) {
            Some(i) => {
                let ghost before = self.entry_seq();
                self.entries.set(i, entry);
                proof {
                    let after = self.entry_seq();
                    assert(after =~= before.update(i as int, ev));
                    assert(addresses_unique(after)) by {
                        assert forall|a: int, b: int| 0 <= a < b < after.len() implies (#[trigger] after[a]).0 != (#[trigger] after[b]).0 by {
                            if a != i && b != i {
                                assert(after[a] == before[a] && after[b] == before[b]);
                            }
                        }
                    }
                    assert forall|k: Seq<u8>| #[trigger] entries_map(after).dom().contains(k) <==> old(self).view_map().insert(ev.0, ev.1).dom().contains(k) by {
                        lemma_entries_map(after, k);
                        lemma_entries_map(before, k);
                        if entries_map(before).dom().contains(k) && k != ev.0 {
                            let j = choose|j: int| 0 <= j < before.len() && (#[trigger] before[j]).0 == k;
                            assert(after[j] == before[j]);
                        }
                        if entries_map(after).dom().contains(k) && k != ev.0 {
                            let j = choose|j: int| 0 <= j < after.len() && (#[trigger] after[j]).0 == k;
                            assert(after[j] == before[j]);
                        }
                        if k == ev.0 {
                            assert(after[i as int].0 == k);
                        }
                    }
                    assert forall|k: Seq<u8>| #[trigger] entries_map(after).dom().contains(k) implies entries_map(after)[k] == old(self).view_map().insert(ev.0, ev.1)[k] by {
                        lemma_entries_map(after, k);
                        lemma_entries_map(before, k);
                        if k == ev.0 {
                            assert(after[i as int].0 == k);
                        } else {
                            let j = choose|j: int| 0 <= j < after.len() && (#[trigger] after[j]).0 == k;
                            assert(after[j] == before[j]);
                        }
                    }
                    assert(entries_map(after) =~= old(self).view_map().insert(ev.0, ev.1));
                }
            },
            None => {
                let ghost before = self.entry_seq();
                self.entries.push(entry);
                proof {
                    let after = self.entry_seq();
                    assert(after =~= before.push(ev));
                    assert(after.drop_last() =~= before);
                    assert(addresses_unique(after)) by {
                        assert forall|a: int, b: int| 0 <= a < b < after.len() implies (#[trigger] after[a]).0 != (#[trigger] after[b]).0 by {
                            assert(after[a] == before[a]);
                            if b < before.len() {
                                assert(after[b] == before[b]);
                            }
                        }
                    }
                }
            },
        }
        proof {
            lemma_entries_map_len(self.entry_seq());
        }
    }

    /// The precompile at `address`.
    pub fn get(&self, address: &[u8; 20]) -> (r: Option<&PrecompileEntry>)
        requires
            self.wf(),
        ensures
            match r {
                Some(e) => self.view_map().dom().contains(address@) && e.address@ == address@
                    && self.view_map()[address@] == entry_view(*e).1,
                None => !self.view_map().dom().contains(address@),
            },
    {
        proof {
            lemma_entries_map(self.entry_seq(), address@);
        }
        match self.position(address) {
            Some(i) => {
                assert(self.entry_seq()[i as int] == entry_view(self.entries@[i as int]));
                Some(&self.entries[i])
            },
            None => None,
        }
    }

    /// Runs the precompile at `address` on `input` as far as the calldata
    /// goes: `None` when no precompile lives there.
    pub fn call(&self, address: &[u8; 20], input: &[u8]) -> (r: Option<PrecompileStep>)
        requires
            self.wf(),
        ensures
            match r {
                Some(s) => self.view_map().dom().contains(address@) && step_for(
                    s,
                    self.view_map()[address@].2,
                    input@,
                ),
                None => !self.view_map().dom().contains(address@),
            },
    {
        match self.get(address) {
            Some(e) => Some(execute(e.kind, input)),
            None => None,
        }
    }

    /// Number of registered precompiles.
    pub fn len(&self) -> (n: usize)
        requires
            self.wf(),
        ensures
            n == self.view_map().dom().len(),
    {
        proof {
            lemma_entries_map_len(self.entry_seq());
        }
        self.entries.len()
    }

    /// Whether no precompile is registered.
    pub fn is_empty(&self) -> (b: bool)
        requires
            self.wf(),
        ensures
            b == (self.view_map().dom().len() == 0),
    {
        proof {
            lemma_entries_map_len(self.entry_seq());
        }
        self.entries.len() == 0
    }
}

fn entry(address: [u8; 20], name: &str, base_gas: u64, kind: PrecompileKind) -> (e: PrecompileEntry)
    ensures
        entry_view(e) == (address@, (name@, base_gas, kind)),
{
    PrecompileEntry { address, name: String::from_str(name), base_gas, kind }
}

/// The built-in precompiles: ML-DSA verification and the Quasar query at
/// 3000 base gas, inference at 100000, embedding at 50000.
pub open spec fn builtin_precompiles() -> Map<Seq<u8>, EntryView> {
    Map::empty().insert(addr_spec(1, 1), ("pq_verify"@, 3_000u64, PrecompileKind::PqVerify)).insert(
        addr_spec(1, 2),
        ("quasar_query"@, 3_000u64, PrecompileKind::QuasarQuery),
    ).insert(addr_spec(2, 1), ("ai_inference"@, 100_000u64, PrecompileKind::AiInference)).insert(
        addr_spec(2, 2),
        ("ai_embedding"@, 50_000u64, PrecompileKind::AiEmbedding),
    )
}

impl Default for PrecompileRegistry {
    /// A registry with all built-in precompiles.
    fn default() -> (r: PrecompileRegistry)
        ensures
            r.wf(),
            r.view_map() == builtin_precompiles(),
    {
        let mut r = PrecompileRegistry::new();
        r.register(entry(addr(1, 1), "pq_verify", 3_000, PrecompileKind::PqVerify));
        r.register(entry(addr(1, 2), "quasar_query", 3_000, PrecompileKind::QuasarQuery));
        r.register(entry(addr(2, 1), "ai_inference", 100_000, PrecompileKind::AiInference));
        r.register(entry(addr(2, 2), "ai_embedding", 50_000, PrecompileKind::AiEmbedding));
        r
    }
}

/// The built-in registry holds four precompiles, at the four built-in
/// addresses, and nothing at any other address.
pub proof fn lemma_builtin_precompiles(a: Seq<u8>)
    ensures
        builtin_precompiles().dom().finite(),
        builtin_precompiles().dom().len() == 4,
        builtin_precompiles().dom().contains(addr_spec(1, 1)),
        builtin_precompiles().dom().contains(addr_spec(1, 2)),
        builtin_precompiles().dom().contains(addr_spec(2, 1)),
        builtin_precompiles().dom().contains(addr_spec(2, 2)),
        builtin_precompiles().dom().contains(a) ==> (a == addr_spec(1, 1) || a == addr_spec(1, 2)
            || a == addr_spec(2, 1) || a == addr_spec(2, 2)),
{
    let a11 = addr_spec(1, 1);
    let a12 = addr_spec(1, 2);
    let a21 = addr_spec(2, 1);
    let a22 = addr_spec(2, 2);
    assert(a11[19] != a12[19] && a11[17] != a21[17] && a11 != a22 && a12[17] != a21[17] && a12[17]
        != a22[17] && a21[19] != a22[19]) by {
        assert(a11[19] == 1 && a12[19] == 2 && a21[19] == 1 && a22[19] == 2);
        assert(a11[17] == 1 && a12[17] == 1 && a21[17] == 2 && a22[17] == 2);
    }
    let m0 = Map::<Seq<u8>, EntryView>::empty();
    let m1 = m0.insert(a11, ("pq_verify"@, 3_000u64, PrecompileKind::PqVerify));
    let m2 = m1.insert(a12, ("quasar_query"@, 3_000u64, PrecompileKind::QuasarQuery));
    let m3 = m2.insert(a21, ("ai_inference"@, 100_000u64, PrecompileKind::AiInference));
    assert(m1.dom().len() == 1 && m1.dom().finite());
    assert(!m1.dom().contains(a12));
    assert(m2.dom().len() == 2);
    assert(!m2.dom().contains(a21));
    assert(m3.dom().len() == 3);
    assert(!m3.dom().contains(a22));
}

/// Registering a precompile makes it what its address looks up, and leaves
/// every other address as it was.
pub proof fn lemma_register_then_get(
    before: Map<Seq<u8>, EntryView>,
    after: Map<Seq<u8>, EntryView>,
    e: PrecompileEntry,
    a: Seq<u8>,
)
    requires
        after == before.insert(e.address@, entry_view(e).1),
    ensures
        a == e.address@ ==> after.dom().contains(a) && after[a] == entry_view(e).1,
        a != e.address@ ==> (after.dom().contains(a) == before.dom().contains(a) && (
        before.dom().contains(a) ==> after[a] == before[a])),
{
}

} // verus!
