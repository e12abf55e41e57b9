use koe::merge::{merge, Span, Turn};
use koe::segments::TextSegment;
use koe::speakers::{label, letter, totals, Total};
use koe::transcript::{mmss, render, share};
use std::collections::BTreeMap;

fn span(start: f64, end: f64, speaker: &str) -> Span {
    Span {
        start: (start * 1e9).round() as i64,
        end: (end * 1e9).round() as i64,
        speaker: speaker.to_string(),
    }
}

fn seg(t0: i64, t1: i64, text: &str) -> TextSegment {
    TextSegment {
        t0,
        t1,
        text: text.to_string(),
        no_speech: 0,
    }
}

#[test]
fn minutes_and_seconds() {
    assert_eq!(mmss(0), "00:00");
    assert_eq!(mmss(59), "00:59");
    assert_eq!(mmss(60), "01:00");
    assert_eq!(mmss(1930), "32:10");
    assert_eq!(mmss(6000), "100:00");
    assert_eq!(mmss(-1), "00:00");
    assert_eq!(mmss(u32::MAX as i128 * 60 + 61), "4294967295:01");
    for secs in 0..10_000i128 {
        let t = secs as f64 + 0.5;
        let by_float = format!("{:02}:{:02}", (t / 60.0) as u32, (t % 60.0) as u32);
        assert_eq!(mmss(secs), by_float);
    }
}

#[test]
fn shares_are_rounded_to_the_nearest_percent() {
    let second = 1_000_000_000i128;
    assert_eq!(share(1300 * second, 1930 * 16_000), "67");
    assert_eq!(share(0, 16_000), "0");
    assert_eq!(share(second, 16_000), "100");
    assert_eq!(share(3 * second, 16_000), "300");
    // Halves go to the even side.
    assert_eq!(share(second / 200, 16_000), "0");
    assert_eq!(share(3 * second / 200, 16_000), "2");
    assert_eq!(share(5 * second / 200, 16_000), "2");
    assert_eq!(share(-second / 4, 16_000), "-25");
}

#[test]
fn shares_are_what_floating_point_prints() {
    for hundredths in 0..2_000i128 {
        for samples in [16_000usize, 160_000, 48_000] {
            let nanos = hundredths * 10_000_000 + 1_234_567;
            let secs = samples as f64 / 16_000.0;
            let percent = nanos as f64 / 1e9 / secs * 100.0;
            assert_eq!(share(nanos, samples), format!("{:.0}", percent));
        }
    }
    assert_eq!(format!("{:.0}", 2.5f64), "2");
}

#[test]
fn shares_of_nothing_are_no_numbers() {
    assert_eq!(share(0, 0), format!("{:.0}", 0.0f64 / 0.0));
    assert_eq!(share(1, 0), format!("{:.0}", 1.0f64 / 0.0));
    assert_eq!(share(-1, 0), format!("{:.0}", -1.0f64 / 0.0));
}

fn by_map(diar: &[Span]) -> Vec<(String, i128)> {
    let mut map: BTreeMap<String, i128> = BTreeMap::new();
    for s in diar {
        *map.entry(s.speaker.clone()).or_default() += s.end as i128 - s.start as i128;
    }
    map.into_iter().collect()
}

fn pairs(list: &[Total]) -> Vec<(String, i128)> {
    list.iter().map(|t| (t.speaker.clone(), t.nanos)).collect()
}

fn some_speech() -> Vec<Span> {
    vec![
        span(0.0, 2.0, "SPEAKER_01"),
        span(2.0, 5.0, "SPEAKER_00"),
        span(5.0, 5.5, "SPEAKER_02"),
        span(6.0, 7.0, "SPEAKER_01"),
        span(7.0, 7.0, ""),
        span(8.0, 9.0, "SPEAKER"),
        span(9.0, 9.5, "話者"),
        span(9.5, 9.75, "\u{10000}"),
        span(9.75, 10.0, "\u{ffff}"),
    ]
}

#[test]
fn totals_are_listed_by_name() {
    let diar = some_speech();
    let list = totals(&diar);
    assert_eq!(pairs(&list), by_map(&diar));
    assert_eq!(list[0].speaker, "");
    assert_eq!(list[2].speaker, "SPEAKER_00");
    assert_eq!(list[2].nanos, 3_000_000_000);
    let sum: i128 = list.iter().map(|t| t.nanos).sum();
    let all: i128 = diar.iter().map(|s| s.end as i128 - s.start as i128).sum();
    assert_eq!(sum, all);
    assert!(totals(&[]).is_empty());
}

#[test]
fn letters_follow_talk_time() {
    let list = totals(&some_speech());
    let mut ranked: Vec<(String, i128)> = pairs(&list);
    ranked.sort_by(|a, b| b.1.cmp(&a.1));
    for (i, (name, _)) in ranked.iter().enumerate() {
        let expected = (b'A' + i as u8) as char;
        assert_eq!(label(&list, name), expected);
        let k = list.iter().position(|t| t.speaker == *name).unwrap();
        assert_eq!(letter(&list, k), expected);
    }
    // Of two who speak as long the smaller name goes first.
    assert_eq!(label(&list, &"SPEAKER_00".to_string()), 'A');
    assert_eq!(label(&list, &"SPEAKER_01".to_string()), 'B');
    assert_eq!(label(&list, &"nobody".to_string()), '?');
}

#[test]
fn letters_go_on_behind_z() {
    let list: Vec<Total> = (0..191usize)
        .map(|i| Total {
            speaker: format!("{i:03}"),
            nanos: 1_000 - i as i128,
        })
        .collect();
    assert_eq!(letter(&list, 25), 'Z');
    assert_eq!(letter(&list, 26), '[');
    assert_eq!(letter(&list, 63), '\u{80}');
    assert_eq!(letter(&list, 190), '\u{ff}');
}

#[test]
fn a_transcript_has_its_header_and_a_line_for_each_turn() {
    let diar = vec![
        span(0.0, 300.0, "SPEAKER_00"),
        span(300.0, 750.0, "SPEAKER_01"),
        span(750.0, 1300.0, "SPEAKER_00"),
    ];
    let texts = vec![
        seg(19_200, 19_900, " 来週のリリースなんですけど"),
        seg(19_900, 20_000, "テスト環境の準備って "),
        seg(200_000, 200_100, "はい"),
        seg(32_050, 33_000, "二日あれば"),
    ];
    let (turns, dropped) = merge(&texts, &diar);
    assert_eq!(dropped, 1);
    let list = totals(&diar);
    let text = render("meeting.mp4", 1930 * 16_000, &list, &turns);
    assert_eq!(
        text,
        "source: meeting.mp4\n\
         duration: 32:10\n\
         speech: 21:40 (67%)\n\
         speakers: A=14:10 B=07:30\n\
         note: speaker labels come from voice clustering, not identity.\n\
         note: attribution is roughly 85% accurate by duration; errors concentrate in\n\
         \x20     short backchannels and rapid exchanges, not in long stretches of speech.\n\
         \n\
         [03:12] A: 来週のリリースなんですけど テスト環境の準備って\n\
         [05:20] B: 二日あれば\n"
    );
}

#[test]
fn speakers_are_listed_by_name_under_their_letters() {
    let diar = vec![span(0.0, 1.0, "SPEAKER_00"), span(1.0, 62.0, "SPEAKER_01")];
    let text = render("a", 16_000 * 124, &totals(&diar), &[]);
    let lines: Vec<&str> = text.lines().collect();
    assert_eq!(lines[1], "duration: 02:04");
    assert_eq!(lines[2], "speech: 01:02 (50%)");
    assert_eq!(lines[3], "speakers: B=00:01 A=01:01");
    assert_eq!(lines.len(), 8);
}

#[test]
fn a_silent_recording_has_no_speakers() {
    let text = render("a", 16_000, &[], &[]);
    let lines: Vec<&str> = text.lines().collect();
    assert_eq!(lines[2], "speech: 00:00 (0%)");
    assert_eq!(lines[3], "speakers:");
}

#[test]
fn a_turn_of_an_unlisted_speaker_is_marked() {
    let turn = Turn {
        t0: -50,
        t1: 100,
        speaker: "nobody".to_string(),
        text: "x".to_string(),
    };
    let text = render("a", 16_000, &[], &[turn]);
    assert!(text.ends_with("\n\n[00:00] ?: x\n"));
}
