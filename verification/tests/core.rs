//! Buffers, errors, manifests, steps and timers.

use infe::buffer::{BufferView, BufferViewMut, DType};
use infe::error::ComponentError;
use infe::manifest::{
    version_in_range, ComponentManifest, EngineSupport, IntegrationStatus, ManifestCapability,
    MANIFEST_SCHEMA_VERSION,
};
use infe::step::{StepContext, StepDecision, StepOutput, StepPlan};
use infe::timer::StepTimer;
use std::collections::BTreeMap;
use std::time::{Duration, Instant};

// --- buffers -------------------------------------------------------------

fn f32_bytes(data: &[f32]) -> Vec<u8> {
    data.iter().flat_map(|x| x.to_le_bytes()).collect()
}

fn floats(bits: Option<Vec<u32>>) -> Option<Vec<f32>> {
    bits.map(|bits| bits.into_iter().map(f32::from_bits).collect())
}

#[test]
fn dtype_byte_lengths() {
    assert_eq!(DType::F16.byte_len(), 2);
    assert_eq!(DType::BF16.byte_len(), 2);
    assert_eq!(DType::F32.byte_len(), 4);
    assert_eq!(DType::I32.byte_len(), 4);
    assert_eq!(DType::I64.byte_len(), 8);
    assert_eq!(DType::U8.byte_len(), 1);
}

#[test]
fn dtype_dlpack_codes() {
    assert_eq!(DType::U8.dlpack_code(), 0);
    assert_eq!(DType::F16.dlpack_code(), 1);
    assert_eq!(DType::F32.dlpack_code(), 2);
    assert_eq!(DType::I32.dlpack_code(), 3);
    assert_eq!(DType::I64.dlpack_code(), 4);
    assert_eq!(DType::BF16.dlpack_code(), 5);
}

#[test]
fn dtype_names() {
    assert_eq!(DType::F16.to_text(), "f16");
    assert_eq!(DType::BF16.to_text(), "bf16");
    assert_eq!(DType::F32.to_text(), "f32");
    assert_eq!(DType::I32.to_text(), "i32");
    assert_eq!(DType::I64.to_text(), "i64");
    assert_eq!(DType::U8.to_text(), "u8");
}

#[test]
fn buffer_view_from_f32_slice() {
    let bytes = f32_bytes(&[1.0, 2.0, 3.0, 4.0]);
    let view = BufferView::from_bytes(&bytes, DType::F32);
    assert_eq!(view.dtype(), DType::F32);
    assert_eq!(view.shape(), &[4]);
    assert_eq!(view.numel(), 4);
    assert_eq!(view.byte_len(), 16);
    assert_eq!(floats(view.as_f32_bits()), Some(vec![1.0, 2.0, 3.0, 4.0]));
}

#[test]
fn buffer_view_from_i32_slice() {
    let data: Vec<i32> = vec![10, 20, 30];
    let bytes: Vec<u8> = data.iter().flat_map(|x| x.to_le_bytes()).collect();
    let view = BufferView::from_bytes(&bytes, DType::I32);
    assert_eq!(view.as_i32(), Some(vec![10, 20, 30]));
}

#[test]
fn buffer_view_dtype_mismatch_returns_none() {
    let bytes = f32_bytes(&[1.0, 2.0]);
    let view = BufferView::from_bytes(&bytes, DType::F32);
    assert_eq!(view.as_i32(), None);
    assert_eq!(view.as_i64(), None);
}

#[test]
fn buffer_view_multidim() {
    let bytes = f32_bytes(&[0.0; 12]);
    let view = BufferView::from_raw(&bytes, &[3, 4], DType::F32);
    assert_eq!(view.shape(), &[3, 4]);
    assert_eq!(view.numel(), 12);
    assert_eq!(view.byte_len(), 48);
}

#[test]
fn buffer_view_mut_f32() {
    let mut bytes = f32_bytes(&[0.0; 4]);
    let mut view = BufferViewMut::from_raw(&mut bytes, &[4], DType::F32);
    assert!(view.set_f32_bits(0, 42.0f32.to_bits()));
    assert!(view.set_f32_bits(3, 99.0f32.to_bits()));
    assert_eq!(bytes, f32_bytes(&[42.0, 0.0, 0.0, 99.0]));
}

#[test]
fn buffer_view_mut_demote_to_view() {
    let mut bytes: Vec<u8> = [1i64, 2, 3].iter().flat_map(|x| x.to_le_bytes()).collect();
    let view_mut = BufferViewMut::from_raw(&mut bytes, &[3], DType::I64);
    let view = view_mut.as_view();
    assert_eq!(view.as_i64(), Some(vec![1i64, 2, 3]));
}

#[test]
fn signed_elements_at_the_edges() {
    let data = [i32::MIN, -1, 0, 1, i32::MAX];
    let bytes: Vec<u8> = data.iter().flat_map(|x| x.to_le_bytes()).collect();
    let view = BufferView::from_bytes(&bytes, DType::I32);
    assert_eq!(view.as_i32(), Some(data.to_vec()));
    let data = [i64::MIN, -1, 0, 1, i64::MAX];
    let bytes: Vec<u8> = data.iter().flat_map(|x| x.to_le_bytes()).collect();
    let view = BufferView::from_bytes(&bytes, DType::I64);
    assert_eq!(view.as_i64(), Some(data.to_vec()));
}

#[test]
fn written_elements_read_back() {
    let mut bytes = vec![0u8; 16];
    let mut view = BufferViewMut::from_raw(&mut bytes, &[2, 2], DType::I32);
    assert_eq!(view.shape(), &[2, 2]);
    assert_eq!(view.numel(), 4);
    assert_eq!(view.dtype(), DType::I32);
    assert!(view.set_i32(1, -7));
    assert!(view.set_i32(3, i32::MAX));
    assert!(!view.set_i64(0, 5));
    assert!(!view.set_f32_bits(0, 5));
    assert_eq!(view.as_view().as_i32(), Some(vec![0, -7, 0, i32::MAX]));
    let mut bytes = vec![0u8; 16];
    let mut view = BufferViewMut::from_raw(&mut bytes, &[2], DType::I64);
    assert!(view.set_i64(1, -2));
    assert!(!view.set_i32(0, 1));
    assert_eq!(view.as_view().as_i64(), Some(vec![0, -2]));
    assert_eq!(bytes[8..], (-2i64).to_le_bytes());
}

#[test]
fn odd_bytes_and_empty_shapes() {
    let bytes = [1u8, 0, 2, 0, 3];
    let view = BufferView::from_bytes(&bytes, DType::F16);
    assert_eq!(view.shape(), &[2]);
    assert_eq!(view.byte_len(), 4);
    assert_eq!(view.as_bytes(), &bytes[..4]);
    let view = BufferView::from_raw(&bytes, &[], DType::U8);
    assert_eq!(view.numel(), 1);
    let view = BufferView::from_raw(&[], &[usize::MAX, usize::MAX, 0], DType::I64);
    assert_eq!(view.numel(), 0);
    assert_eq!(view.as_i64(), Some(vec![]));
}

// --- errors --------------------------------------------------------------

#[test]
fn internal_convenience() {
    let e = ComponentError::internal("infe-kv", "block table overflow");
    assert!(matches!(e, ComponentError::Internal { component: "infe-kv", .. }));
}

#[test]
fn buffer_too_small_is_transient() {
    let e = ComponentError::BufferTooSmall { needed: 1024, have: 512 };
    assert!(e.is_transient());
    assert!(!e.requires_fallback());
}

#[test]
fn invalid_input_is_not_transient() {
    let e = ComponentError::InvalidInput("bad shape".into());
    assert!(!e.is_transient());
    assert!(e.requires_fallback());
}

#[test]
fn unsupported_feature_requires_fallback() {
    let e = ComponentError::UnsupportedFeature("spec-decode v3".into());
    assert!(e.requires_fallback());
}

#[test]
fn unsupported_engine_requires_fallback() {
    let e = ComponentError::UnsupportedEngine {
        component: "infe-parsers",
        version: "0.13.0".into(),
        range: ">=0.10, <0.13".into(),
    };
    assert!(e.requires_fallback());
}

#[test]
fn component_error_messages() {
    assert_eq!(
        ComponentError::InvalidInput("bad shape".into()).to_text(),
        "invalid input: bad shape"
    );
    assert_eq!(
        ComponentError::internal("infe-kv", "overflow").to_text(),
        "internal error in infe-kv: overflow"
    );
    assert_eq!(
        ComponentError::BufferTooSmall { needed: 1024, have: 0 }.to_text(),
        "buffer too small: needed 1024 bytes, have 0"
    );
    assert_eq!(
        ComponentError::UnsupportedFeature("x".into()).to_text(),
        "unsupported feature: x"
    );
    let e = ComponentError::UnsupportedEngine {
        component: "infe-parsers",
        version: "0.13.0".into(),
        range: ">=0.10, <0.13".into(),
    };
    assert_eq!(
        e.to_text(),
        "engine version 0.13.0 not supported by infe-parsers (requires >=0.10, <0.13)"
    );
}

// --- manifests -----------------------------------------------------------

fn example_manifest() -> ComponentManifest {
    ComponentManifest {
        schema_version: 0,
        name: "infe-parsers".to_string(),
        version: "0.1.0".to_string(),
        description: "Tool-call and reasoning stream parsers".to_string(),
        contract_version: 0,
        capabilities: vec![ManifestCapability::StreamParsing],
        engines: vec![EngineSupport {
            engine: "vllm".to_string(),
            version_range: ">=0.10, <0.14".to_string(),
            registration: "--tool-call-parser".to_string(),
            status: IntegrationStatus::Verified,
        }],
        conformance_ref: "conformance/parsers/".to_string(),
        unsupported_features: vec![],
        metadata: BTreeMap::new(),
    }
}

#[test]
fn manifest_valid() {
    let m = example_manifest();
    assert!(m.validate().is_empty(), "{:?}", m.validate());
}

#[test]
fn manifest_invalid_name() {
    let mut m = example_manifest();
    m.name = "parsers".to_string();
    let errors = m.validate();
    assert!(errors.iter().any(|e| e.contains("does not start")));
}

#[test]
fn manifest_no_capabilities() {
    let mut m = example_manifest();
    m.capabilities.clear();
    let errors = m.validate();
    assert!(errors.iter().any(|e| e.contains("no capabilities")));
}

#[test]
fn supports_engine_in_range() {
    let m = example_manifest();
    assert!(m.supports_engine("vllm", "0.12.0"));
    assert!(m.supports_engine("vllm", "0.10.5"));
    assert!(m.supports_engine("vllm", "0.13.99"));
}

#[test]
fn does_not_support_engine_out_of_range() {
    let m = example_manifest();
    assert!(!m.supports_engine("vllm", "0.9.0"));
    assert!(!m.supports_engine("vllm", "0.14.0"));
    assert!(!m.supports_engine("sglang", "0.5.0"));
}

#[test]
fn does_not_support_documented_gap() {
    let m = ComponentManifest {
        engines: vec![EngineSupport {
            engine: "sglang".to_string(),
            version_range: ">=0.4".to_string(),
            registration: "N/A".to_string(),
            status: IntegrationStatus::DocumentedGap,
        }],
        ..example_manifest()
    };
    assert!(!m.supports_engine("sglang", "0.5.0"));
}

#[test]
fn capability_display() {
    assert_eq!(ManifestCapability::Scheduling.to_text(), "scheduling");
    assert_eq!(ManifestCapability::KvManagement.to_text(), "kv-management");
    assert_eq!(ManifestCapability::Custom("foo".to_string()).to_text(), "custom:foo");
}

#[test]
fn other_capability_and_status_texts() {
    assert_eq!(ManifestCapability::StreamParsing.to_text(), "stream-parsing");
    assert_eq!(ManifestCapability::AttentionMetadata.to_text(), "attention-metadata");
    assert_eq!(IntegrationStatus::Verified.to_text(), "verified");
    assert_eq!(IntegrationStatus::Experimental.to_text(), "experimental");
    assert_eq!(IntegrationStatus::DocumentedGap.to_text(), "documented-gap");
}

#[test]
fn schema_version_constant() {
    assert_eq!(MANIFEST_SCHEMA_VERSION, 0);
}

#[test]
fn new_manifest_has_everything_to_declare() {
    let m = ComponentManifest::new("kv", "1.0.0");
    assert_eq!(m.schema_version, MANIFEST_SCHEMA_VERSION);
    assert_eq!(m.name, "kv");
    assert_eq!(m.version, "1.0.0");
    assert_eq!(
        m.validate(),
        vec![
            "name 'kv' does not start with 'infe-'",
            "no capabilities declared",
            "no engine support declared",
        ]
    );
}

#[test]
fn every_validation_error() {
    let mut m = ComponentManifest::new("", "");
    m.schema_version = 12;
    m.engines.push(EngineSupport {
        engine: "tgi".to_string(),
        version_range: String::new(),
        registration: String::new(),
        status: IntegrationStatus::Experimental,
    });
    assert_eq!(
        m.validate(),
        vec![
            "schema_version is 12, expected 0",
            "name is empty",
            "name '' does not start with 'infe-'",
            "version is empty",
            "no capabilities declared",
            "unknown engine 'tgi' (expected 'vllm' or 'sglang')",
            "engine 'tgi' has empty version_range",
        ]
    );
}

#[test]
fn version_ranges() {
    assert!(version_in_range("1.2.3", ""));
    assert!(version_in_range("1.2.3", ">=1.2.3"));
    assert!(!version_in_range("1.2.3", "<1.2.3"));
    assert!(version_in_range("1.2.2", "<1.2.3"));
    assert!(version_in_range("0.10", ">= 0.9 , < 0.11"));
    assert!(!version_in_range("0.10", ">=0.9,<0.10"));
    // Parts that are not numbers count as 0, and so do missing ones.
    assert!(version_in_range("x.1", ">=0.1,<0.1.1"));
    assert!(version_in_range("+1", ">=1.0.0"));
    assert!(!version_in_range("-1", ">=1.0.0"));
    assert!(version_in_range("4294967295", ">=4294967295"));
    assert!(!version_in_range("4294967296", ">=1"));
    assert!(version_in_range("1.2.3.9", "<1.2.4"));
    // Other constraints constrain nothing.
    assert!(version_in_range("9.9", "==1.0, ~2"));
}

#[test]
fn a_comma_means_and() {
    for version in ["0.9", "0.10", "0.12.7", "0.14", "1"] {
        let both = version_in_range(version, ">=0.10,<0.14");
        assert_eq!(
            both,
            version_in_range(version, ">=0.10") && version_in_range(version, "<0.14")
        );
    }
}

// --- steps ---------------------------------------------------------------

fn kv_free_fraction(ctx: &StepContext) -> f64 {
    let (free, total) = ctx.kv_free_ratio();
    free as f64 / total as f64
}

#[test]
fn step_context_kv_pressure() {
    let ctx = StepContext { free_kv_blocks: 20, total_kv_blocks: 100, ..Default::default() };
    assert!(!ctx.is_kv_pressured());

    let ctx = StepContext { free_kv_blocks: 5, total_kv_blocks: 100, ..Default::default() };
    assert!((kv_free_fraction(&ctx) - 0.05).abs() < 1e-9);
    assert!(ctx.is_kv_pressured());

    let ctx = StepContext { free_kv_blocks: 9, total_kv_blocks: 100, ..Default::default() };
    assert!(ctx.is_kv_pressured());

    let ctx = StepContext { free_kv_blocks: 10, total_kv_blocks: 100, ..Default::default() };
    assert!(!ctx.is_kv_pressured());
}

#[test]
fn kv_pressure_does_not_overflow() {
    let ctx = StepContext {
        free_kv_blocks: usize::MAX / 2,
        total_kv_blocks: usize::MAX,
        ..Default::default()
    };
    assert!(!ctx.is_kv_pressured());
}

#[test]
fn step_plan_admit_and_preempt() {
    let mut plan = StepPlan::new();
    plan.add(1, StepDecision::Admit { num_tokens: 128, num_kv_blocks: 4 });
    plan.add(2, StepDecision::Defer);
    plan.add(3, StepDecision::Preempt { keep_prefix: true });
    plan.add(4, StepDecision::Finish);

    assert_eq!(plan.num_admitted(), 1);
    assert_eq!(plan.num_preempted(), 1);
    assert_eq!(plan.total_kv_blocks_to_allocate, 4);
    assert_eq!(plan.decisions.len(), 4);
}

#[test]
fn a_second_decision_replaces_the_first() {
    let mut plan = StepPlan::default();
    plan.add(1, StepDecision::Admit { num_tokens: 1, num_kv_blocks: 2 });
    plan.add(1, StepDecision::Preempt { keep_prefix: false });
    assert_eq!(plan.num_admitted(), 0);
    assert_eq!(plan.num_preempted(), 1);
    assert_eq!(plan.total_kv_blocks_to_allocate, 2);
    assert_eq!(plan.total_kv_blocks_freed, 1);
    assert_eq!(plan.decisions.len(), 1);
}

#[test]
fn step_output_no_op_default() {
    let out = StepOutput::default();
    assert!(out.no_op);
    assert!(out.plan.is_none());
}

#[test]
fn step_context_empty_kv() {
    let ctx = StepContext::default();
    assert!((kv_free_fraction(&ctx) - 1.0).abs() < 1e-9);
    assert!(!ctx.is_kv_pressured());
}

// --- timer ---------------------------------------------------------------

fn wait(time: Duration) {
    let start = Instant::now();
    while start.elapsed() < time {}
}

fn micros(ns: u64) -> String {
    format!("{:.2}", ns as f64 / 1000.0)
}

#[test]
fn disabled_timer_does_not_record() {
    let mut timer = StepTimer::new("test");
    assert!(!timer.is_enabled());

    let guard = timer.start(0);
    wait(Duration::from_micros(100));
    timer.finish(guard);

    assert_eq!(timer.steps(), 0);
    assert_eq!(timer.mean_ns(), 0);
}

#[test]
fn enabled_timer_records_steps() {
    let mut timer = StepTimer::new("test");
    timer.set_enabled(true);

    let guard = timer.start(1);
    wait(Duration::from_micros(500));
    timer.finish(guard);
    let guard = timer.start(2);
    wait(Duration::from_micros(1000));
    timer.finish(guard);

    assert_eq!(timer.steps(), 2);
    assert!(timer.mean_ns() > 0);
    assert!(timer.min_ns() <= timer.max_ns());
    assert!(timer.min_ns() >= 500_000);
    assert!(timer.last_ns() >= 1_000_000);
}

#[test]
fn reset_stats() {
    let mut timer = StepTimer::new("test");
    timer.set_enabled(true);

    let guard = timer.start(0);
    timer.finish(guard);
    assert!(timer.steps() > 0);

    timer.reset_stats();
    assert_eq!(timer.steps(), 0);
    assert_eq!(timer.mean_ns(), 0);
    assert!(timer.is_enabled());
}

#[test]
fn summary_empty() {
    let timer = StepTimer::new("test");
    assert_eq!(timer.summary(micros), "test: no steps recorded");
}

#[test]
fn summary_with_data() {
    let mut timer = StepTimer::new("infe-kv");
    timer.set_enabled(true);
    let guard = timer.start(0);
    timer.finish(guard);
    let s = timer.summary(micros);
    assert!(s.contains("infe-kv"));
    assert!(s.contains("1 steps"));
}

#[test]
fn guard_elapsed() {
    let mut timer = StepTimer::new("test");
    timer.set_enabled(true);
    let guard = timer.start(0);
    wait(Duration::from_micros(200));
    let elapsed = guard.elapsed();
    assert!(elapsed.as_micros() >= 100);
}

#[test]
fn recorded_times_add_up() {
    let mut timer = StepTimer::new("infe-kv");
    assert_eq!(timer.min_ns(), 0);
    assert_eq!(timer.max_ns(), 0);
    timer.record(Duration::from_nanos(1500));
    timer.record(Duration::from_micros(4));
    timer.record_nanos(501);
    assert_eq!(timer.name(), "infe-kv");
    assert_eq!(timer.steps(), 3);
    assert_eq!(timer.total_ns(), 6001);
    assert_eq!(timer.mean_ns(), 2000);
    assert_eq!(timer.min_ns(), 501);
    assert_eq!(timer.max_ns(), 4000);
    assert_eq!(timer.last_ns(), 501);
    assert_eq!(
        timer.summary(micros),
        "infe-kv: 3 steps, mean=2.00\u{b5}s, min=0.50\u{b5}s, max=4.00\u{b5}s"
    );
}

#[test]
fn nanoseconds_beyond_the_counter_wrap() {
    let mut timer = StepTimer::new("test");
    timer.record_nanos(u128::from(u64::MAX) + 8);
    assert_eq!(timer.last_ns(), 7);
    timer.record(Duration::from_secs(1));
    assert_eq!(timer.total_ns(), 1_000_000_007);
}

#[test]
fn a_range_has_no_gaps() {
    let range = ">=0.4, <2.0.1";
    let versions = ["0.4", "0.4.1", "0.10", "1", "1.99.99", "2.0.0"];
    assert!(versions.iter().all(|v| version_in_range(v, range)));
    assert!(!version_in_range("0.3.99", range));
    assert!(!version_in_range("2.0.1", range));
}

#[test]
fn admitted_and_preempted_requests_differ() {
    let mut plan = StepPlan::new();
    for id in 0..10 {
        if id % 3 == 0 {
            plan.add(id, StepDecision::Admit { num_tokens: 1, num_kv_blocks: 1 });
        } else {
            plan.add(id, StepDecision::Preempt { keep_prefix: false });
        }
    }
    assert_eq!(plan.num_admitted(), 4);
    assert_eq!(plan.num_preempted(), 6);
    assert_eq!(plan.total_kv_blocks_to_allocate, 4);
    assert_eq!(plan.total_kv_blocks_freed, 6);
    plan.add(0, StepDecision::Finish);
    assert_eq!(plan.num_admitted() + plan.num_preempted(), plan.decisions.len() - 1);
}

#[test]
fn the_longest_step_is_the_minimum() {
    let mut timer = StepTimer::new("t");
    timer.record(Duration::from_nanos(u64::MAX));
    assert_eq!(timer.steps(), 1);
    assert_eq!(timer.min_ns(), u64::MAX);
    assert_eq!(timer.max_ns(), u64::MAX);
    assert_eq!(timer.mean_ns(), u64::MAX);
    timer.record_nanos(7);
    assert_eq!(timer.min_ns(), 7);
}

#[test]
fn after_a_reset_the_statistics_are_new() {
    let mut timer = StepTimer::new("t");
    timer.set_enabled(true);
    timer.record_nanos(3);
    for next in [0, 5, u64::MAX] {
        timer.reset_stats();
        assert_eq!((timer.steps(), timer.total_ns(), timer.mean_ns()), (0, 0, 0));
        assert_eq!((timer.min_ns(), timer.max_ns(), timer.last_ns()), (0, 0, 0));
        assert!(timer.is_enabled());
        assert_eq!(timer.name(), "t");
        timer.record_nanos(u128::from(next));
        assert_eq!((timer.min_ns(), timer.max_ns(), timer.last_ns()), (next, next, next));
    }
}

#[test]
fn a_disabled_guard_has_no_time() {
    let mut timer = StepTimer::new("t");
    let guard = timer.start(1);
    wait(Duration::from_micros(50));
    assert_eq!(guard.elapsed(), Duration::ZERO);
    // What counts is whether timing was enabled at the start.
    timer.set_enabled(true);
    timer.finish(guard);
    assert_eq!(timer.steps(), 0);
    let guard = timer.start(2);
    timer.set_enabled(false);
    timer.finish(guard);
    assert_eq!(timer.steps(), 1);
}
