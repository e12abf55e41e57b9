use koe::segments::{num_threads, trailing_notice, transcribe, RawSegment};
use koe::stitch::{lossy, stitch};

#[test]
fn stitch_passes_through_complete_input() {
    let mut carry = Vec::new();
    assert_eq!(stitch(&mut carry, "おはよう".as_bytes()), "おはよう");
    assert!(carry.is_empty());
}

#[test]
fn stitch_rejoins_a_character_split_across_segments() {
    let whole = "あい".as_bytes();
    let (head, tail) = whole.split_at(4); // mid-way through the second character
    let mut carry = Vec::new();

    assert_eq!(stitch(&mut carry, head), "あ");
    assert!(!carry.is_empty(), "the truncated tail must be held back");
    assert_eq!(stitch(&mut carry, tail), "い");
    assert!(carry.is_empty());
}

#[test]
fn stitch_handles_a_segment_that_opens_with_a_continuation_byte() {
    let whole = "日本語".as_bytes();
    let mut carry = Vec::new();
    let mut out = String::new();
    // One byte at a time is the worst case: every boundary lands mid-character.
    for b in whole {
        out.push_str(&stitch(&mut carry, &[*b]));
    }
    assert_eq!(out, "日本語");
    assert!(carry.is_empty());
}

#[test]
fn stitch_drops_bytes_that_can_never_complete() {
    let mut carry = Vec::new();
    // 0xFF starts no valid sequence. It is marked, and the byte after it still
    // comes through in the same call.
    assert_eq!(stitch(&mut carry, &[0xFF, b'a']), "\u{FFFD}a");
    assert!(carry.is_empty());
}

#[test]
fn stitch_keeps_nul_which_is_valid_utf8() {
    let mut carry = Vec::new();
    assert_eq!(stitch(&mut carry, &[b'a', 0x00, b'b']), "a\0b");
}

/// Incremental decoding with the standard library.
fn stitch_by_std(carry: &mut Vec<u8>, bytes: &[u8]) -> String {
    carry.extend_from_slice(bytes);
    let mut out = String::new();
    loop {
        match std::str::from_utf8(carry) {
            Ok(s) => {
                out.push_str(s);
                carry.clear();
                return out;
            }
            Err(e) => {
                let good = e.valid_up_to();
                out.push_str(std::str::from_utf8(&carry[..good]).unwrap());
                match e.error_len() {
                    None => {
                        carry.drain(..good);
                        return out;
                    }
                    Some(n) => {
                        out.push('\u{FFFD}');
                        carry.drain(..good + n);
                    }
                }
            }
        }
    }
}

fn assert_agrees(bytes: &[u8]) {
    let mut ours = Vec::new();
    let mut theirs = Vec::new();
    let text = stitch(&mut ours, bytes);
    assert_eq!(text, stitch_by_std(&mut theirs, bytes), "{:x?}", bytes);
    assert_eq!(ours, theirs, "{:x?}", bytes);
    assert_eq!(lossy(bytes), String::from_utf8_lossy(bytes), "{:x?}", bytes);
}

/// Bytes on both sides of every boundary between the ranges that decoding tells apart.
const EDGES: [u8; 28] = [
    0x00, 0x41, 0x7f, 0x80, 0x8f, 0x90, 0x9f, 0xa0, 0xbf, 0xc0, 0xc1, 0xc2, 0xdf, 0xe0, 0xe1,
    0xec, 0xed, 0xee, 0xef, 0xf0, 0xf1, 0xf3, 0xf4, 0xf5, 0xf7, 0xf8, 0xfe, 0xff,
];

#[test]
fn stitch_agrees_with_std_on_all_pairs() {
    for a in 0..=255u8 {
        assert_agrees(&[a]);
        for b in 0..=255u8 {
            assert_agrees(&[a, b]);
        }
    }
}

#[test]
fn stitch_agrees_with_std_on_longer_edges() {
    for a in EDGES {
        for b in EDGES {
            for c in EDGES {
                assert_agrees(&[a, b, c]);
                for d in EDGES {
                    assert_agrees(&[a, b, c, d]);
                }
                assert_agrees(&[a, b, c, b'x', a, b]);
            }
        }
    }
}

#[test]
fn stitch_decodes_every_character() {
    for c in '\0'..=char::MAX {
        let mut buf = [0u8; 4];
        let bytes = c.encode_utf8(&mut buf).as_bytes();
        let mut carry = Vec::new();
        assert_eq!(stitch(&mut carry, bytes), c.to_string());
        assert!(carry.is_empty());
    }
}

#[test]
fn stitch_gives_the_same_text_wherever_the_bytes_are_cut() {
    let bytes: Vec<u8> = [
        "会議 ".as_bytes(),
        &[0xE3, 0x81, 0xFF],
        "🎤録音".as_bytes(),
        &[0x80, 0xF0, 0x9F],
        "a".as_bytes(),
        &[0xE3, 0x81],
    ]
    .concat();
    let mut whole_carry = Vec::new();
    let whole = stitch(&mut whole_carry, &bytes);
    assert_eq!(whole, "会議 \u{FFFD}\u{FFFD}🎤録音\u{FFFD}\u{FFFD}a");
    assert_eq!(whole_carry, vec![0xE3, 0x81]);
    for i in 0..=bytes.len() {
        for j in i..=bytes.len() {
            let mut carry = Vec::new();
            let mut out = stitch(&mut carry, &bytes[..i]);
            out.push_str(&stitch(&mut carry, &bytes[i..j]));
            out.push_str(&stitch(&mut carry, &bytes[j..]));
            assert_eq!(out, whole);
            assert_eq!(carry, whole_carry);
        }
    }
}

#[test]
fn held_bytes_wait_for_more() {
    let mut carry = vec![0xF0, 0x9F, 0x8E];
    assert_eq!(stitch(&mut carry, &[]), "");
    assert_eq!(carry, vec![0xF0, 0x9F, 0x8E]);
    assert_eq!(stitch(&mut carry, &[0xA4]), "🎤");
    assert!(carry.is_empty());
}

#[test]
fn lossy_marks_a_truncated_end() {
    assert_eq!(lossy(&[b'a', 0xE3, 0x81]), "a\u{FFFD}");
    assert_eq!(lossy("終".as_bytes()), "終");
    assert_eq!(lossy(&[]), "");
}

fn raw(start: i64, end: i64, bytes: &[u8]) -> Option<RawSegment> {
    Some(RawSegment {
        start,
        end,
        bytes: bytes.to_vec(),
        no_speech: 0.25f32.to_bits(),
    })
}

#[test]
fn transcribe_skips_what_is_blank_or_missing() {
    let i = "い".as_bytes();
    let segments = vec![
        raw(0, 100, " あ ".as_bytes()),
        None,
        raw(100, 150, " \u{3000}\n".as_bytes()),
        raw(150, 200, &i[..1]),
        raw(200, 300, &i[1..]),
        raw(300, 400, &[b'!', 0xE3, 0x81]),
    ];
    let (texts, trailing) = transcribe(&segments);
    let got: Vec<(i64, i64, &str)> = texts
        .iter()
        .map(|t| (t.t0, t.t1, t.text.as_str()))
        .collect();
    // The text is kept untrimmed, and the split character goes to the later segment.
    assert_eq!(
        got,
        vec![(0, 100, " あ "), (200, 300, "い"), (300, 400, "!")]
    );
    assert_eq!(f32::from_bits(texts[0].no_speech), 0.25);
    assert_eq!(trailing, 2);
}

#[test]
fn transcribe_of_nothing_is_nothing() {
    let (texts, trailing) = transcribe(&[]);
    assert!(texts.is_empty());
    assert_eq!(trailing, 0);
}

#[test]
fn trailing_bytes_are_reported() {
    assert_eq!(trailing_notice(0), None);
    assert_eq!(
        trailing_notice(2).unwrap(),
        "discarded 2 trailing bytes that form no character"
    );
}

#[test]
fn threads_are_capped() {
    assert_eq!(num_threads(None), 4);
    assert_eq!(num_threads(Some(1)), 1);
    assert_eq!(num_threads(Some(7)), 7);
    assert_eq!(num_threads(Some(8)), 8);
    assert_eq!(num_threads(Some(64)), 8);
}
