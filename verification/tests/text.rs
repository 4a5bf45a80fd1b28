use thx::count::{compact_count, context_compact, context_line, usage_summary, Usage};
use thx::clock::{
    animation_frame, compact_duration, duration_ms, task_poll_interval, Duration, Instant,
};
use thx::text::{
    blank, byte_len, count_char, decimal_text, find_char, has_prefix, join_texts, lines_of,
    same_text, split_text, to_chars, trimmed, white, words_of,
};
use thx::thinking::{reasoning_text, thinking_parts, ReasoningContent};
use thx::truncate::{truncate_head_tail, truncate_utf8};

#[test]
fn compact_formatters_are_readable() {
    assert_eq!(compact_count(999), "999");
    assert_eq!(compact_count(1_000), "1k");
    assert_eq!(compact_count(1_500_000), "1.5m");
    assert_eq!(compact_duration(Duration::from_millis(1200)), "1.2s");
    assert_eq!(compact_duration(Duration::from_secs(65)), "1m 5s");
}

fn float_count(value: u64) -> String {
    let (value, suffix) = if value >= 1_000_000 {
        (value as f64 / 1_000_000.0, "m")
    } else if value >= 1_000 {
        (value as f64 / 1_000.0, "k")
    } else {
        return value.to_string();
    };
    format!("{value:.1}{suffix}").replace(".0", "")
}

fn float_size(value: u64) -> String {
    if value >= 1_000_000 {
        format!("{:.1}M", value as f64 / 1_000_000.0)
    } else if value >= 1_000 {
        format!("{:.1}K", value as f64 / 1_000.0)
    } else {
        value.to_string()
    }
}

#[test]
fn counts_print_as_doubles_do() {
    let mut values: Vec<u64> = vec![0, 1, 999, 1_000, 999_949, 999_950, 999_999, 1_000_000, u64::MAX];
    for tens in 0..100_000u64 {
        values.push(tens * 10);
    }
    for shift in 0..64u32 {
        let power = 1u64 << shift;
        for offset in [0u64, 1, 2, 49, 50, 51, 1023, 1024, 1025] {
            values.push(power.saturating_add(offset));
            values.push(power.saturating_sub(offset));
        }
    }
    let mut seed = 7u64;
    for _ in 0..50_000 {
        seed = seed.wrapping_mul(6364136223846793005).wrapping_add(1442695040888963407);
        values.push(seed);
        values.push(seed >> 40);
        values.push(seed >> 20);
    }
    for value in values {
        assert_eq!(compact_count(value), float_count(value), "{value}");
        assert_eq!(context_compact(value), float_size(value), "{value}");
    }
}

#[test]
fn ties_go_to_the_even_tenth() {
    assert_eq!(compact_count(1_250), "1.2k");
    assert_eq!(compact_count(1_750), "1.8k");
    assert_eq!(compact_count(1_050), "1.1k");
    assert_eq!(context_compact(100_000), "100.0K");
    assert_eq!(compact_count(999_950), "1000k");
}

#[test]
fn usage_summary_labels_aggregate_run_totals() {
    let usage = Usage {
        input_tokens: 12_000,
        output_tokens: 300,
        total_tokens: 0,
        cached_input_tokens: 0,
        cache_creation_input_tokens: 0,
        tool_use_prompt_tokens: 0,
        reasoning_tokens: 0,
    };
    let summary = usage_summary(&usage, Duration::from_secs(1));
    assert!(summary.contains("input-total 12k"), "{summary}");
    assert!(summary.contains("output-total 300"), "{summary}");
    assert_eq!(summary, "input-total 12k · output-total 300 · ⧖ 1.0s");
}

#[test]
fn usage_summary_names_what_is_known() {
    let nothing = Usage {
        input_tokens: 0,
        output_tokens: 0,
        total_tokens: 0,
        cached_input_tokens: 0,
        cache_creation_input_tokens: 0,
        tool_use_prompt_tokens: 0,
        reasoning_tokens: 0,
    };
    assert_eq!(usage_summary(&nothing, Duration::from_secs(12)), "12s");
    let all = Usage { tool_use_prompt_tokens: 5, reasoning_tokens: 2_000, ..nothing };
    assert_eq!(
        usage_summary(&all, Duration::from_millis(250)),
        "input-total 0 · output-total 0 · tool-prompt 5 · ∵ 2k · ⧖ 0.2s"
    );
    let only_total = Usage { total_tokens: 9, ..nothing };
    assert_eq!(
        usage_summary(&only_total, Duration::from_secs(0)),
        "input-total 0 · output-total 0 · ⧖ 0.0s"
    );
}

#[test]
fn context_lines_round_their_percentage() {
    assert_eq!(context_line(100_000, Some(400_000)), "ctx 100.0K (25%)");
    assert_eq!(context_line(1, Some(3)), "ctx 1 (33%)");
    assert_eq!(context_line(2, Some(3)), "ctx 2 (67%)");
    assert_eq!(context_line(u64::MAX, Some(u64::MAX)), "ctx 18446744073709.6M (1%)");
    assert_eq!(context_line(500, None), "ctx 500");
}

#[test]
fn durations_change_their_unit() {
    assert_eq!(compact_duration(Duration { nanos: 0 }), "0.0s");
    assert_eq!(compact_duration(Duration::from_millis(9_999)), "9.9s");
    assert_eq!(compact_duration(Duration::from_millis(10_000)), "10s");
    assert_eq!(compact_duration(Duration::from_millis(59_999)), "59s");
    assert_eq!(compact_duration(Duration::from_secs(60)), "1m 0s");
    assert_eq!(compact_duration(Duration::from_secs(3_725)), "62m 5s");
}

#[test]
fn milliseconds_stop_at_the_greatest_number() {
    assert_eq!(duration_ms(Duration::from_millis(12)), 12);
    assert_eq!(duration_ms(Duration { nanos: 999_999 }), 0);
    assert_eq!(duration_ms(Duration { nanos: u128::MAX }), u64::MAX);
}

#[test]
fn polling_has_a_default_and_a_minimum() {
    assert_eq!(task_poll_interval(None), Duration::from_secs(1));
    assert_eq!(task_poll_interval(Some(1)), Duration::from_millis(100));
    assert_eq!(task_poll_interval(Some(250)), Duration::from_millis(250));
}

#[test]
fn moments_do_not_run_backwards() {
    let early = Instant { nanos: 5 };
    let late = Instant { nanos: 9 };
    assert_eq!(late.duration_since(early), Duration { nanos: 4 });
    assert_eq!(early.duration_since(late), Duration { nanos: 0 });
}

#[test]
fn the_animation_has_ten_frames() {
    let frames: Vec<char> = (0..11u64)
        .map(|step| animation_frame(Duration::from_millis(step * 80)))
        .collect();
    let expected: Vec<char> = "⠋⠙⠹⠸⠼⠴⠦⠧⠇⠏⠋".chars().collect();
    assert_eq!(frames, expected);
}

#[test]
fn white_space_is_that_of_unicode() {
    for code in 0..=0x10ffffu32 {
        if let Some(c) = char::from_u32(code) {
            assert_eq!(white(c), c.is_whitespace(), "{code:x}");
        }
    }
}

#[test]
fn splitting_agrees_with_the_standard_library() {
    let samples = [
        "", "a", "a\nb", "a\n", "\n", "\n\n", "a\r\nb\r\n", "a\rb", "a\r", "  x  y\t z ", " ",
        "é\u{3000}ß", "x\u{a0}y",
    ];
    for sample in samples {
        let lines: Vec<&str> = sample.lines().collect();
        assert_eq!(lines_of(sample), lines);
        let words: Vec<&str> = sample.split_whitespace().collect();
        assert_eq!(words_of(sample), words);
        let pieces: Vec<&str> = sample.split('\n').collect();
        assert_eq!(split_text(sample, '\n'), pieces);
        assert_eq!(join_texts(&split_text(sample, '\n'), "\n"), sample);
        assert_eq!(trimmed(sample), sample.trim());
        assert_eq!(blank(sample), sample.trim().is_empty());
        assert_eq!(byte_len(sample), sample.len());
    }
}

#[test]
fn small_text_helpers_agree_with_the_standard_library() {
    assert_eq!(decimal_text(0), "0");
    assert_eq!(decimal_text(u128::MAX), u128::MAX.to_string());
    assert!(has_prefix("https://x", "https://"));
    assert!(!has_prefix("http", "https://"));
    assert!(same_text("a", "a") && !same_text("a", "b"));
    assert_eq!(find_char(&to_chars("ab\ncd\n"), '\n'), 2);
    assert_eq!(find_char(&to_chars("abcd"), '\n'), 4);
    assert_eq!(count_char("ab\ncd\n", '\n'), 2);
    assert_eq!(count_char("ab\ncd\n", 'x'), 0);
}

#[test]
fn truncation_cuts_between_characters() {
    assert_eq!(truncate_utf8("aé🙂b", 0), "");
    assert_eq!(truncate_utf8("aé🙂b", 1), "a");
    assert_eq!(truncate_utf8("aé🙂b", 2), "a");
    assert_eq!(truncate_utf8("aé🙂b", 3), "aé");
    assert_eq!(truncate_utf8("aé🙂b", 6), "aé");
    assert_eq!(truncate_utf8("aé🙂b", 7), "aé🙂");
    assert_eq!(truncate_utf8("aé🙂b", 100), "aé🙂b");
}

#[test]
fn truncated_text_keeps_head_and_tail() {
    let text = "0123456789".repeat(30);
    let short = truncate_head_tail(&text, 100, "test");
    let note = "\n\n[thx: 300 bytes omitted from test]\n\n";
    let room = 100 - note.len();
    let head = room / 4;
    let tail = room - head;
    let expected = format!(
        "{}\n\n[thx: {} bytes omitted from test]\n\n{}",
        &text[..head],
        text.len() - head - tail,
        &text[text.len() - tail..]
    );
    assert_eq!(short, expected);
    assert!(short.len() <= 100);
    assert_eq!(truncate_head_tail(&short, 100, "test"), short);
    assert_eq!(truncate_head_tail("short", 100, "test"), "short");
    assert_eq!(truncate_head_tail(&text, 10, "test"), &note[..10]);
}

#[test]
fn one_line_texts_are_cut_after_sixty_characters() {
    assert_eq!(thx::truncate::inline("  a \n b\tc  "), "a b c");
    let long = "x".repeat(61);
    assert_eq!(thx::truncate::inline(&long), format!("{}…", "x".repeat(60)));
    assert_eq!(thx::truncate::inline(&"é".repeat(60)), "é".repeat(60));
}

#[test]
fn reasoning_prefers_summaries() {
    let content = vec![
        ReasoningContent::Text("detail".into()),
        ReasoningContent::Summary("first".into()),
        ReasoningContent::Summary(String::new()),
        ReasoningContent::Other,
        ReasoningContent::Summary("second".into()),
    ];
    assert_eq!(reasoning_text(&content).as_deref(), Some("first\nsecond"));
    let blank = vec![
        ReasoningContent::Summary("  ".into()),
        ReasoningContent::Text("a".into()),
        ReasoningContent::Text("b".into()),
    ];
    assert_eq!(reasoning_text(&blank).as_deref(), Some("a\nb"));
    assert_eq!(reasoning_text(&vec![ReasoningContent::Other]), None);
}

#[test]
fn bold_first_lines_are_titles() {
    let parts = |text| {
        let (title, body) = thinking_parts(text);
        (title, body)
    };
    assert_eq!(parts(None), (None, None));
    assert_eq!(parts(Some(" \n ")), (None, None));
    assert_eq!(
        parts(Some(" ** Plan ** \n\n do it \n")),
        (Some("Plan".into()), Some("do it".into()))
    );
    assert_eq!(parts(Some("**Plan**")), (Some("Plan".into()), None));
    assert_eq!(parts(Some("Plan\nnext")), (None, Some("Plan\nnext".into())));
    assert_eq!(parts(Some("****\nnext")), (None, Some("****\nnext".into())));
    assert_eq!(parts(Some("***")), (None, Some("***".into())));
    let long = format!("**{}**", "x".repeat(81));
    assert_eq!(parts(Some(&long)), (None, Some(long.clone())));
}

#[test]
fn inlining_twice_is_inlining_once() {
    let long = "word ".repeat(40);
    for text in ["", "  a \n b\t", long.as_str(), &"x".repeat(61), &format!("{} y", "x".repeat(59))] {
        let once = thx::truncate::inline(text);
        assert_eq!(thx::truncate::inline(&once), once);
        assert!(once.chars().count() <= 61);
        assert!(!once.contains('\n'));
    }
}
