use koe::media::{
    audio_stream_index, decode, decode_args, decoded, parse_index, probe_args, DecodeError,
    StreamError,
};

#[test]
fn the_only_stream_is_picked() {
    assert_eq!(audio_stream_index(b"1\n").unwrap(), 1);
    assert_eq!(audio_stream_index(b"0").unwrap(), 0);
    assert_eq!(audio_stream_index(b"\r\n  12 \r\n\n").unwrap(), 12);
    assert_eq!(audio_stream_index(b"warning\n\xff\n3\n").unwrap(), 3);
}

#[test]
fn no_stream_is_an_error() {
    for stdout in [&b""[..], b"\n\n", b"x\n", b"-1\n", b"1 2\n"] {
        let err = audio_stream_index(stdout).unwrap_err();
        assert!(matches!(err, StreamError::Absent));
        assert_eq!(err.message("a.mp4"), "no audio stream in a.mp4");
    }
}

#[test]
fn several_streams_are_not_guessed_at() {
    let err = audio_stream_index(b"1\n2\n\n7\n").unwrap_err();
    assert_eq!(
        err.message("a.mp4"),
        "3 audio streams [1, 2, 7]; pick one explicitly"
    );
    match err {
        StreamError::Ambiguous(many) => assert_eq!(many, vec![1, 2, 7]),
        StreamError::Absent => panic!("there are three"),
    }
}

#[test]
fn indices_are_read_as_std_reads_them() {
    for line in [
        "", "0", "7", "+7", "+", "-7", "-0", "++1", "007", "1_0", "１", "1a", " 5\t", "\u{3000}6",
        "18446744073709551615", "18446744073709551616", "00018446744073709551615",
        "99999999999999999999999x",
    ] {
        assert_eq!(parse_index(line), line.trim().parse().ok(), "{:?}", line);
    }
}

#[test]
fn indices_are_read_back() {
    for n in [0usize, 9, 10, 4096, usize::MAX] {
        assert_eq!(audio_stream_index(format!("{n}\n").as_bytes()).unwrap(), n);
    }
}

#[test]
fn the_probe_is_asked_for_audio() {
    assert_eq!(
        probe_args("a b.mp4"),
        vec![
            "-v",
            "error",
            "-select_streams",
            "a",
            "-show_entries",
            "stream=index",
            "-of",
            "csv=p=0",
            "a b.mp4",
        ]
    );
}

#[test]
fn the_decoder_is_asked_for_the_stream() {
    assert_eq!(
        decode_args("会議.mp4", 12),
        vec![
            "-v", "error", "-i", "会議.mp4", "-map", "0:12", "-f", "f32le", "-acodec",
            "pcm_f32le", "-ac", "1", "-ar", "16000", "-",
        ]
    );
}

#[test]
fn samples_are_read_as_they_were_written() {
    let samples = [0.0f32, 1.0, -1.0, 0.1, f32::MIN_POSITIVE, -0.0, f32::MAX];
    let mut raw: Vec<u8> = Vec::new();
    for s in samples {
        raw.extend_from_slice(&s.to_le_bytes());
    }
    for left_over in 0..4usize {
        let bits: Vec<u32> = samples.iter().map(|s| s.to_bits()).collect();
        assert_eq!(decode(&raw), bits);
        raw.push(left_over as u8);
    }
    assert_eq!(decode(&[0, 0, 128, 63]), vec![1.0f32.to_bits()]);
    assert!(decode(&[1, 2, 3]).is_empty());
}

#[test]
fn a_failed_decoder_gives_no_samples() {
    let raw = [0, 0, 128, 63, 9];
    assert_eq!(decoded(true, &raw).unwrap(), vec![1.0f32.to_bits()]);
    assert!(decoded(true, &[]).unwrap().is_empty());
    for raw in [&raw[..], &[]] {
        let err = decoded(false, raw).unwrap_err();
        assert!(matches!(err, DecodeError::Failed));
        assert_eq!(err.message(), "ffmpeg failed");
    }
}
