use koe::merge::{dropped_notice, merge, Span, Turn};
use koe::segments::TextSegment;

fn centis(t: f64) -> i64 {
    (t * 100.0).round() as i64
}

fn seg(t0: f64, t1: f64, text: &str) -> TextSegment {
    TextSegment {
        t0: centis(t0),
        t1: centis(t1),
        text: text.into(),
        no_speech: 0.0f32.to_bits(),
    }
}

fn span(start: f64, end: f64, speaker: &str) -> Span {
    Span {
        start: (start * 1e9).round() as i64,
        end: (end * 1e9).round() as i64,
        speaker: speaker.to_string(),
    }
}

#[test]
fn merge_attributes_each_segment_to_its_dominant_speaker() {
    let texts = vec![seg(0.0, 2.0, "ひとつめ"), seg(3.0, 5.0, "ふたつめ")];
    let diar = vec![span(0.0, 2.0, "SPEAKER_00"), span(3.0, 5.0, "SPEAKER_01")];
    let (turns, dropped) = merge(&texts, &diar);

    assert_eq!(dropped, 0);
    assert_eq!(turns.len(), 2);
    assert_eq!(turns[0].speaker, "SPEAKER_00");
    assert_eq!(turns[1].speaker, "SPEAKER_01");
}

#[test]
fn merge_collapses_a_run_of_one_speaker_into_a_single_turn() {
    let texts = vec![seg(0.0, 1.0, "まず"), seg(1.0, 2.0, "つぎ")];
    let diar = vec![span(0.0, 2.0, "SPEAKER_00")];
    let (turns, _) = merge(&texts, &diar);

    assert_eq!(turns.len(), 1);
    assert_eq!(turns[0].text, "まず つぎ");
    assert_eq!(turns[0].t1, centis(2.0));
}

#[test]
fn merge_drops_text_that_overlaps_no_speech() {
    // Recognition's invented filler over a silence lands outside every speaker.
    let texts = vec![seg(0.0, 5.0, "はい"), seg(10.0, 11.0, "本題")];
    let diar = vec![span(10.0, 11.0, "SPEAKER_00")];
    let (turns, dropped) = merge(&texts, &diar);

    assert_eq!(dropped, 1);
    assert_eq!(turns.len(), 1);
    assert_eq!(turns[0].text, "本題");
}

#[test]
fn merge_takes_the_longest_overlap_and_of_equals_the_first() {
    let diar = vec![span(0.0, 1.0, "a"), span(1.0, 2.5, "b"), span(2.5, 4.0, "c")];
    let (turns, _) = merge(&[seg(0.0, 4.0, "x")], &diar);
    assert_eq!(turns[0].speaker, "b");
    let (turns, _) = merge(&[seg(0.5, 1.5, "x")], &diar);
    assert_eq!(turns[0].speaker, "a");
    let (turns, _) = merge(&[seg(0.49, 1.5, "x")], &diar);
    assert_eq!(turns[0].speaker, "a");
    let (turns, _) = merge(&[seg(0.51, 1.5, "x")], &diar);
    assert_eq!(turns[0].speaker, "b");
}

#[test]
fn merge_takes_touching_for_no_overlap() {
    let diar = vec![span(1.0, 2.0, "a")];
    let texts = vec![seg(0.0, 1.0, "x"), seg(2.0, 3.0, "y"), seg(1.5, 1.5, "z")];
    let (turns, dropped) = merge(&texts, &diar);
    assert!(turns.is_empty());
    assert_eq!(dropped, 3);
}

#[test]
fn merge_passes_over_blank_text_without_counting_it() {
    let diar = vec![span(0.0, 9.0, "a")];
    let texts = vec![seg(0.0, 1.0, " \u{3000} "), seg(1.0, 2.0, "  x ")];
    let (turns, dropped) = merge(&texts, &diar);
    assert_eq!(dropped, 0);
    assert_eq!(turns.len(), 1);
    assert_eq!(turns[0].text, "x");
    assert_eq!(turns[0].t0, centis(1.0));
}

#[test]
fn merge_cuts_turns_where_the_speaker_changes() {
    let diar = vec![
        span(0.0, 2.0, "a"),
        span(2.0, 3.0, "b"),
        span(3.0, 9.0, "a"),
    ];
    let texts = vec![
        seg(0.0, 1.0, "1"),
        seg(1.0, 2.0, "2"),
        seg(2.0, 3.0, "3"),
        seg(3.0, 4.0, "4"),
        seg(20.0, 21.0, "lost"),
        seg(5.0, 6.0, "5"),
    ];
    let (turns, dropped) = merge(&texts, &diar);
    let got: Vec<(i64, i64, &str, &str)> = turns
        .iter()
        .map(|t| (t.t0, t.t1, t.speaker.as_str(), t.text.as_str()))
        .collect();
    assert_eq!(
        got,
        vec![
            (0, 200, "a", "1 2"),
            (200, 300, "b", "3"),
            (300, 600, "a", "4 5"),
        ]
    );
    assert_eq!(dropped, 1);
}

#[test]
fn merge_of_silence_drops_everything() {
    let (turns, dropped) = merge(&[seg(0.0, 1.0, "x"), seg(1.0, 2.0, "")], &[]);
    assert!(turns.is_empty());
    assert_eq!(dropped, 2);
}

#[test]
fn merge_does_not_overflow_at_the_ends_of_time() {
    let text = TextSegment {
        t0: i64::MIN,
        t1: i64::MAX,
        text: "x".into(),
        no_speech: 0,
    };
    let diar = vec![Span {
        start: i64::MIN,
        end: i64::MAX,
        speaker: "a".into(),
    }];
    let (turns, dropped) = merge(&[text], &diar);
    assert_eq!(turns.len(), 1);
    assert_eq!(dropped, 0);
}

/// The turns, field by field.
fn shown(turns: &[Turn]) -> Vec<(i64, i64, &str, &str)> {
    turns
        .iter()
        .map(|t| (t.t0, t.t1, t.speaker.as_str(), t.text.as_str()))
        .collect()
}

#[test]
fn merge_adds_up_the_stretches_of_a_speaker_who_returns() {
    let diar = vec![span(0.0, 1.5, "A"), span(1.5, 3.5, "B"), span(3.5, 5.0, "A")];
    let (turns, dropped) = merge(&[seg(0.0, 5.0, "x")], &diar);
    assert_eq!(dropped, 0);
    assert_eq!(shown(&turns), vec![(0, 500, "A", "x")]);
    // Only what lies inside the text counts.
    let (turns, _) = merge(&[seg(1.0, 4.0, "x")], &diar);
    assert_eq!(shown(&turns), vec![(100, 400, "B", "x")]);
    let (turns, _) = merge(&[seg(0.5, 4.5, "x")], &diar);
    assert_eq!(shown(&turns), vec![(50, 450, "A", "x")]);
}

#[test]
fn merge_takes_the_first_to_overlap_of_speakers_who_overlap_as_long() {
    let diar = vec![
        span(0.0, 1.0, "A"),
        span(1.0, 3.0, "B"),
        span(3.0, 4.0, "A"),
        span(4.0, 6.0, "C"),
    ];
    let (turns, _) = merge(&[seg(0.0, 6.0, "x")], &diar);
    assert_eq!(turns[0].speaker, "A");
    // From one second on, B is the first to overlap the text.
    let (turns, _) = merge(&[seg(1.0, 6.0, "x")], &diar);
    assert_eq!(turns[0].speaker, "B");
}

#[test]
fn merge_finds_whom_a_table_of_overlaps_names() {
    let names = ["a", "b", "c"];
    let mut seed: u64 = 1;
    let mut next = move |n: u64| {
        seed = seed.wrapping_mul(6364136223846793005).wrapping_add(1);
        (seed >> 33) % n
    };
    for _ in 0..2000 {
        let mut diar = Vec::new();
        for _ in 0..next(7) {
            let start = next(10) as i64;
            let end = start + next(5) as i64;
            let speaker = names[next(3) as usize].to_string();
            diar.push(Span {
                start: start * 10_000_000,
                end: end * 10_000_000,
                speaker,
            });
        }
        let t0 = next(8) as i64;
        let t1 = t0 + next(6) as i64;
        let text = TextSegment {
            t0,
            t1,
            text: "x".into(),
            no_speech: 0,
        };
        let mut table: Vec<(String, i64)> = Vec::new();
        for d in &diar {
            let both = t1.min(d.end / 10_000_000) - t0.max(d.start / 10_000_000);
            if both > 0 {
                match table.iter_mut().find(|e| e.0 == d.speaker) {
                    Some(e) => e.1 += both,
                    None => table.push((d.speaker.clone(), both)),
                }
            }
        }
        let most = table.iter().map(|e| e.1).max();
        let expected = table.iter().find(|e| Some(e.1) == most);
        let (turns, dropped) = merge(&[text], &diar);
        match expected {
            Some(e) => {
                assert_eq!(dropped, 0);
                assert_eq!(shown(&turns), vec![(t0, t1, e.0.as_str(), "x")]);
            }
            None => {
                assert_eq!(dropped, 1);
                assert!(turns.is_empty());
            }
        }
    }
}

#[test]
fn the_no_speech_value_has_no_say() {
    let diar = vec![span(0.0, 1.0, "a"), span(1.0, 2.0, "b")];
    let texts = vec![seg(0.0, 1.0, "1"), seg(1.0, 2.0, "2"), seg(5.0, 6.0, "3")];
    let mut sure = vec![seg(0.0, 1.0, "1"), seg(1.0, 2.0, "2"), seg(5.0, 6.0, "3")];
    for t in &mut sure {
        t.no_speech = 1.0f32.to_bits();
    }
    let (turns, dropped) = merge(&texts, &diar);
    let (others, as_many) = merge(&sure, &diar);
    assert_eq!(shown(&turns), vec![(0, 100, "a", "1"), (100, 200, "b", "2")]);
    assert_eq!(shown(&turns), shown(&others));
    assert_eq!((dropped, as_many), (1, 1));
}

#[test]
fn speech_that_overlaps_no_text_changes_nothing() {
    // Both speakers overlap the text one second, and `a` is the first to.
    let texts = vec![seg(4.0, 6.0, "x"), seg(20.0, 21.0, "lost")];
    let diar = || vec![span(4.0, 5.0, "a"), span(5.0, 6.0, "b")];
    let (turns, dropped) = merge(&texts, &diar());
    assert_eq!(shown(&turns), vec![(400, 600, "a", "x")]);
    assert_eq!(dropped, 1);
    for k in 0..=2 {
        for speaker in ["a", "b", "c"] {
            for (start, end) in [(0.0, 4.0), (6.0, 20.0), (21.0, 99.0)] {
                let mut more = diar();
                more.insert(k, span(start, end, speaker));
                let (others, as_many) = merge(&texts, &more);
                assert_eq!(shown(&others), shown(&turns));
                assert_eq!(as_many, dropped);
            }
        }
    }
}

#[test]
fn merge_does_not_overflow_where_a_speaker_has_all_of_time_many_times() {
    let text = TextSegment {
        t0: i64::MIN,
        t1: i64::MAX,
        text: "x".into(),
        no_speech: 0,
    };
    let always = |speaker: &str| Span {
        start: i64::MIN,
        end: i64::MAX,
        speaker: speaker.into(),
    };
    let diar = vec![always("a"), always("b"), always("b"), always("a"), always("b")];
    let (turns, _) = merge(&[text], &diar);
    assert_eq!(turns[0].speaker, "b");
}

#[test]
fn dropped_text_is_reported_where_there_is_any() {
    assert_eq!(dropped_notice(0), None);
    assert_eq!(
        dropped_notice(12).as_deref(),
        Some("dropped 12 text segments with no overlapping speech")
    );
}
