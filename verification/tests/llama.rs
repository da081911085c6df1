use orsiktop::llama::pick_metric;
use orsiktop::llama::{parse_prometheus_lines, summarize_slots, SlotInfo};
use orsiktop::llama::model_display_name;

#[test]
fn model_path_is_shortened_for_display() {
    assert_eq!(
        model_display_name("/models/Qwen3.8-27B-UD-Q4_K_M.gguf"),
        "Qwen3.8-27B-UD-Q4_K_M"
    );
}

#[test]
fn model_names_without_a_path_keep_their_text() {
    assert_eq!(model_display_name("tiny.gguf.gguf"), "tiny");
    assert_eq!(model_display_name("plain"), "plain");
}

#[test]
fn prometheus_lines_keep_names_labels_and_values() {
    let text = "# HELP llamacpp:prompt_tokens_total Number of prompt tokens processed.\n\
                # TYPE llamacpp:prompt_tokens_total counter\n\
                llamacpp:prompt_tokens_total 12000\n\
                \n\
                llamacpp:spec_decode_num_drafts_total{position=\"0\"} 3 1700000000\n\
                llamacpp:requests_processing{} 1\n\
                   lonely_name\n\
                llamacpp:kv_cache_usage_ratio NaN\n";
    let metrics = parse_prometheus_lines(text);
    assert_eq!(metrics.len(), 4);
    assert_eq!(metrics[0].name, "llamacpp:prompt_tokens_total");
    assert_eq!(metrics[0].labels, None);
    assert_eq!(metrics[0].value, "12000");
    assert_eq!(metrics[1].name, "llamacpp:spec_decode_num_drafts_total");
    assert_eq!(metrics[1].labels.as_deref(), Some("position=\"0\""));
    assert_eq!(metrics[1].value, "3");
    // An empty label set counts as no labels.
    assert_eq!(metrics[2].labels, None);
    // Values are kept as written; the caller drops non-numbers.
    assert_eq!(metrics[3].value, "NaN");
}

#[test]
fn slot_summary_uses_prompt_tokens_or_processed_plus_decoded() {
    let slots = vec![
        SlotInfo {
            n_ctx: 196608,
            is_processing: true,
            n_prompt_tokens: 38779,
            n_prompt_tokens_processed: 10,
            n_decoded: 5,
        },
        SlotInfo {
            n_ctx: 8192,
            is_processing: false,
            n_prompt_tokens: 0,
            n_prompt_tokens_processed: 40000,
            n_decoded: 12,
        },
    ];
    let s = summarize_slots(4096, &slots);
    assert_eq!(s.slot_count, 2);
    assert_eq!(s.busy_slots, 1);
    assert_eq!(s.context_size, 196608);
    assert_eq!(s.context_used, 40012);
    let idle = summarize_slots(300000, &[SlotInfo::default()]);
    assert_eq!(idle.slot_count, 1);
    assert_eq!(idle.busy_slots, 0);
    assert_eq!(idle.context_size, 300000);
    assert_eq!(idle.context_used, 0);
}

#[test]
fn slot_fallback_uses_processed_plus_decoded() {
    let slot = SlotInfo {
        n_ctx: 8192,
        n_prompt_tokens_processed: 4000,
        n_decoded: 250,
        ..SlotInfo::default()
    };
    let s = summarize_slots(0, &[slot]);
    assert_eq!(s.context_used, 4250);
    assert_eq!(s.context_size, 8192);
    assert_eq!(s.slot_count, 1);
}

#[test]
fn pick_metric_prefers_names_in_order_and_skips_labelled_samples() {
    let metrics = parse_prometheus_lines(
        "llamacpp:tokens{slot=\"0\"} 5\nllamacpp:prompt_tokens_total 7\nllamacpp:tokens 9\nllamacpp:tokens 11\n",
    );
    assert_eq!(metrics.len(), 4);
    assert_eq!(pick_metric(&metrics, &["llamacpp:tokens", "llamacpp:prompt_tokens_total"]), Some(2));
    assert_eq!(pick_metric(&metrics, &["missing", "llamacpp:prompt_tokens_total"]), Some(1));
    assert_eq!(pick_metric(&metrics, &["missing"]), None);
    assert_eq!(pick_metric(&metrics, &[]), None);
}
