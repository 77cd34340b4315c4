use ask::chunking::{
    self, chunk_content, heading_score, is_code_fence, is_horizontal_rule, is_list_item,
    ordered_list_marker_len, scan_breakpoints, structure_chunks, Breakpoint, ChunkSpan,
    ChunkStrategy,
};

#[test]
fn chunk_content_empty() {
    assert!(chunk_content("", 10, 0).is_empty());
}

#[test]
fn chunk_content_zero_chunk_size() {
    assert!(chunk_content("hello", 0, 0).is_empty());
}

#[test]
fn chunk_content_smaller_than_chunk() {
    let chunks = chunk_content("hello", 100, 0);
    assert_eq!(chunks, vec![(0, 5)]);
}

#[test]
fn chunk_content_exact_size() {
    let chunks = chunk_content("12345", 5, 0);
    assert_eq!(chunks, vec![(0, 5)]);
}

#[test]
fn chunk_content_multiple_chunks_no_overlap() {
    let chunks = chunk_content("abcdefghij", 5, 0);
    assert_eq!(chunks, vec![(0, 5), (5, 10)]);
}

#[test]
fn chunk_content_with_overlap() {
    let chunks = chunk_content("abcdefghij", 6, 2);
    assert_eq!(chunks, vec![(0, 6), (4, 10)]);
}

#[test]
fn chunk_content_full_overlap_returns_single_chunk() {
    let chunks = chunk_content("hello world", 5, 5);
    assert_eq!(chunks, vec![(0, 11)]);
}

#[test]
fn chunk_content_overlap_greater_than_size() {
    let chunks = chunk_content("hello world", 5, 10);
    assert_eq!(chunks, vec![(0, 11)]);
}

#[test]
fn chunk_content_chunk_size_one() {
    let chunks = chunk_content("abc", 1, 0);
    assert_eq!(chunks, vec![(0, 1), (1, 2), (2, 3)]);
}

#[test]
fn chunk_content_multibyte_utf8() {
    let chunks = chunk_content("añb", 3, 0);
    assert_eq!(chunks, vec![(0, 3), (3, 4)]);
}

#[test]
fn fixed_utf8_chunks_empty() {
    assert!(chunking::fixed_utf8_chunks("", 10, 0).is_empty());
}

#[test]
fn fixed_utf8_chunks_zero_chunk_size() {
    assert!(chunking::fixed_utf8_chunks("hello", 0, 0).is_empty());
}

#[test]
fn fixed_utf8_chunks_smaller_than_chunk() {
    let chunks = chunking::fixed_utf8_chunks("hello", 100, 0);
    assert_eq!(chunks, vec![chunking::ChunkSpan { start: 0, end: 5 }]);
}

#[test]
fn fixed_utf8_chunks_exact_size() {
    let chunks = chunking::fixed_utf8_chunks("12345", 5, 0);
    assert_eq!(chunks, vec![chunking::ChunkSpan { start: 0, end: 5 }]);
}

#[test]
fn fixed_utf8_chunks_multiple_chunks_no_overlap() {
    let chunks = chunking::fixed_utf8_chunks("abcdefghij", 5, 0);
    assert_eq!(
        chunks,
        vec![
            chunking::ChunkSpan { start: 0, end: 5 },
            chunking::ChunkSpan { start: 5, end: 10 },
        ]
    );
}

#[test]
fn fixed_utf8_chunks_with_overlap() {
    let chunks = chunking::fixed_utf8_chunks("abcdefghij", 6, 2);
    assert_eq!(
        chunks,
        vec![
            chunking::ChunkSpan { start: 0, end: 6 },
            chunking::ChunkSpan { start: 4, end: 10 },
        ]
    );
}

#[test]
fn fixed_utf8_chunks_full_overlap_returns_single_chunk() {
    let chunks = chunking::fixed_utf8_chunks("hello world", 5, 5);
    assert_eq!(chunks, vec![chunking::ChunkSpan { start: 0, end: 11 }]);
}

#[test]
fn fixed_utf8_chunks_overlap_greater_than_size() {
    let chunks = chunking::fixed_utf8_chunks("hello world", 5, 10);
    assert_eq!(chunks, vec![chunking::ChunkSpan { start: 0, end: 11 }]);
}

#[test]
fn fixed_utf8_chunks_chunk_size_one() {
    let chunks = chunking::fixed_utf8_chunks("abc", 1, 0);
    assert_eq!(
        chunks,
        vec![
            chunking::ChunkSpan { start: 0, end: 1 },
            chunking::ChunkSpan { start: 1, end: 2 },
            chunking::ChunkSpan { start: 2, end: 3 },
        ]
    );
}

#[test]
fn fixed_utf8_chunks_never_split_multibyte_scalar() {
    let chunks = chunking::fixed_utf8_chunks("éé", 3, 0);
    assert_eq!(
        chunks,
        vec![
            chunking::ChunkSpan { start: 0, end: 2 },
            chunking::ChunkSpan { start: 2, end: 4 },
        ]
    );
}

#[test]
fn fixed_utf8_planner_implements_chunk_planner_trait() {
    fn plan_with_trait(
        planner: &impl chunking::ChunkPlanner,
        content: &str,
    ) -> chunking::ChunkPlan {
        planner.plan(content, 5, 0)
    }

    let planner = chunking::FixedUtf8ChunkPlanner;
    let plan = plan_with_trait(&planner, "abcdefghij");

    assert_eq!(plan.strategy, "fixed_utf8");
    assert_eq!(
        plan.spans,
        vec![
            chunking::ChunkSpan { start: 0, end: 5 },
            chunking::ChunkSpan { start: 5, end: 10 },
        ]
    );
}

#[test]
fn structure_chunks_prefers_heading_breakpoint() {
    let content = "# Alpha\nfirst paragraph\n\n## Beta\nsecond paragraph\n";
    let split = content.find("## Beta").unwrap();
    let plan = chunking::structure_chunks(content, 28, 0, 16);

    assert_eq!(
        plan[0],
        chunking::ChunkSpan {
            start: 0,
            end: split
        }
    );
}

#[test]
fn structure_chunks_uses_blank_line_before_list_item() {
    let content = "intro paragraph\n\n- first item\n- second item\n";
    let split = content.find("- first item").unwrap();
    let plan = chunking::structure_chunks(content, 24, 0, 12);

    assert_eq!(
        plan[0],
        chunking::ChunkSpan {
            start: 0,
            end: split
        }
    );
}

#[test]
fn structure_chunks_uses_horizontal_rule_breakpoint() {
    let content = "opening paragraph\n\n---\n\nclosing paragraph\n";
    let split = content.find("---").unwrap();
    let plan = chunking::structure_chunks(content, 24, 0, 12);

    assert_eq!(
        plan[0],
        chunking::ChunkSpan {
            start: 0,
            end: split
        }
    );
}

#[test]
fn structure_chunks_ignores_headings_inside_fenced_code() {
    let content = "intro\n```\n# not a heading\n```\n\n# Real Heading\nbody\n";
    let fenced_heading = content.find("# not a heading").unwrap();
    let plan = chunking::structure_chunks(content, 25, 0, 20);

    assert_ne!(plan[0].end, fenced_heading);
    assert!(plan[0].end <= content.find("# Real Heading").unwrap());
}

#[test]
fn structure_chunks_falls_back_to_utf8_safe_fixed_split() {
    let chunks = chunking::structure_chunks("éé", 3, 0, 1);
    assert_eq!(
        chunks,
        vec![
            chunking::ChunkSpan { start: 0, end: 2 },
            chunking::ChunkSpan { start: 2, end: 4 },
        ]
    );
}

#[test]
fn routed_planner_defaults_to_structure() {
    let plan = chunking::plan_chunks("notes.md", "# A\n\n# B\n", 6, 0);

    assert_eq!(plan.strategy, "structure");
}

fn chars(text: &str) -> Vec<char> {
    text.chars().collect()
}

/// The score of a break as single steps of floating point give it.
fn reference_score(score: u16, distance: usize, window: usize) -> f64 {
    let normalized = distance as f64 / window.max(1) as f64;
    f64::from(score) / (1.0 + (0.7 * normalized.powi(2)))
}

/// The best break as a maximum over floating point scores gives it.
fn reference_best(
    breakpoints: &[Breakpoint],
    start: usize,
    target: usize,
    window: usize,
) -> Option<usize> {
    let lower = target.saturating_sub(window);
    breakpoints
        .iter()
        .filter(|b| b.position > start && b.position <= target && b.position >= lower)
        .max_by(|a, b| {
            reference_score(a.score, target - a.position, window)
                .total_cmp(&reference_score(b.score, target - b.position, window))
        })
        .map(|b| b.position)
}

#[test]
fn structure_chunks_follow_floating_point_scores() {
    let mut content = String::new();
    for i in 0..400_usize {
        match (i * 7 + i / 3) % 11 {
            0 => content.push_str("# heading\n"),
            1 => content.push_str("### third\n"),
            2 => content.push_str("\n"),
            3 => content.push_str("- item\n"),
            4 => content.push_str("12. item\n"),
            5 => content.push_str("---\n"),
            6 => content.push_str("a line of text that is rather longer\n"),
            7 => content.push_str("###### sixth\n"),
            8 => content.push_str("\u{e9}\u{e9} two\n"),
            9 => content.push_str("plain\n"),
            _ => content.push_str("words and words\n"),
        }
    }
    let breakpoints = scan_breakpoints(&content);
    assert!(breakpoints.len() > 400);

    for (size, window) in [(40, 20), (97, 96), (200, 1), (333, 1000), (512, 256), (1000, 7)] {
        let spans = structure_chunks(&content, size, 0, window);
        for span in &spans {
            let target = span.start + size;
            if target >= content.len() {
                assert_eq!(span.end, content.len());
            } else if let Some(best) = reference_best(&breakpoints, span.start, target, window) {
                assert_eq!(span.end, best, "size {size} window {window} start {}", span.start);
            }
        }
    }
}

#[test]
fn spans_cover_the_text_without_gaps() {
    let content = "# A\n\nfirst \u{20ac} line\n\n## B\n- one\n- two\n\u{1f600}\u{1f600}\u{1f600} end\n".repeat(9);
    for (size, overlap, window) in [(1, 0, 1), (5, 0, 2), (17, 4, 8), (40, 39, 20), (64, 8, 64)] {
        for spans in [
            structure_chunks(&content, size, overlap, window),
            chunking::fixed_utf8_chunks(&content, size, overlap),
        ] {
            assert_eq!(spans[0].start, 0);
            assert_eq!(spans[spans.len() - 1].end, content.len());
            for span in &spans {
                assert!(span.start < span.end);
                assert!(content.is_char_boundary(span.start));
                assert!(content.is_char_boundary(span.end));
                let text = &content[span.start..span.end];
                assert!(text.len() <= size || text.chars().count() == 1);
            }
            for pair in spans.windows(2) {
                assert!(pair[0].start < pair[1].start && pair[1].start <= pair[0].end);
                if overlap == 0 {
                    assert_eq!(pair[1].start, pair[0].end);
                }
            }
        }
    }
}

#[test]
fn headings_are_scored_by_level() {
    assert_eq!(heading_score(&chars("# Title")), Some(100));
    assert_eq!(heading_score(&chars("## Title")), Some(90));
    assert_eq!(heading_score(&chars("###\tTitle")), Some(80));
    assert_eq!(heading_score(&chars("####")), Some(70));
    assert_eq!(heading_score(&chars("##### x")), Some(60));
    assert_eq!(heading_score(&chars("###### x")), Some(50));
    assert_eq!(heading_score(&chars("####### x")), None);
    assert_eq!(heading_score(&chars("#x")), None);
    assert_eq!(heading_score(&chars("plain")), None);
}

#[test]
fn lines_are_told_apart() {
    assert!(is_code_fence(&chars("```rust")));
    assert!(is_code_fence(&chars("~~~")));
    assert!(!is_code_fence(&chars("``")));
    assert!(is_horizontal_rule(&chars("---")));
    assert!(is_horizontal_rule(&chars("*****")));
    assert!(is_horizontal_rule(&chars("___")));
    assert!(!is_horizontal_rule(&chars("--")));
    assert!(!is_horizontal_rule(&chars("-*-")));
    assert!(is_list_item(&chars("- a")));
    assert!(is_list_item(&chars("* a")));
    assert!(is_list_item(&chars("+ a")));
    assert!(is_list_item(&chars("10. a")));
    assert!(!is_list_item(&chars("-a")));
    assert!(!is_list_item(&chars("10.a")));
    assert_eq!(ordered_list_marker_len(&chars("10. a")), Some(4));
    assert_eq!(ordered_list_marker_len(&chars(". a")), None);
    assert_eq!(ordered_list_marker_len(&chars("1a. b")), None);
}

#[test]
fn breaks_lie_inside_the_text() {
    assert_eq!(
        scan_breakpoints("# A\ntext\n\n```\n# code\n```\nend"),
        vec![
            Breakpoint { position: 4, score: 1 },
            Breakpoint { position: 9, score: 1 },
            Breakpoint { position: 10, score: 20 },
            Breakpoint { position: 10, score: 1 },
            Breakpoint { position: 10, score: 80 },
            Breakpoint { position: 21, score: 80 },
        ]
    );
    assert!(scan_breakpoints("").is_empty());
    assert!(scan_breakpoints("one line").is_empty());
}

#[test]
fn strategies_have_names() {
    assert_eq!(ChunkStrategy::FixedUtf8.as_str(), "fixed_utf8");
    assert_eq!(ChunkStrategy::Structure.as_str(), "structure");
    assert_eq!(
        structure_chunks("ab", 5, 0, 1),
        vec![ChunkSpan { start: 0, end: 2 }]
    );
}
