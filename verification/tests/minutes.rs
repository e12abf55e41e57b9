use koe::minutes::{model_args, plan, prompt, write_minutes, MinutesError, Plan};

#[test]
fn without_a_model_minutes_are_skipped() {
    assert!(matches!(plan(None, None), Plan::Skip));
    assert!(matches!(plan(None, Some("p.txt".into())), Plan::Skip));
}

#[test]
fn a_prompt_file_replaces_the_built_in_prompt() {
    match plan(Some("m.gguf".into()), None) {
        Plan::Embedded(model) => assert_eq!(model, "m.gguf"),
        other => panic!("{:?}", other),
    }
    match plan(Some("m.gguf".into()), Some("p.txt".into())) {
        Plan::Custom(model, path) => {
            assert_eq!(model, "m.gguf");
            assert_eq!(path, "p.txt");
        }
        other => panic!("{:?}", other),
    }
}

#[test]
fn the_transcript_follows_the_prompt_as_it_is() {
    assert_eq!(prompt("指示:\n", "source: a\n\n"), "指示:\nsource: a\n\n");
}

#[test]
fn the_model_runner_is_given_the_prompt_file() {
    assert_eq!(
        model_args("m.gguf", "out/.minutes-prompt.txt"),
        vec![
            "-m",
            "m.gguf",
            "-f",
            "out/.minutes-prompt.txt",
            "-c",
            "32768",
            "-n",
            "3000",
            "--temp",
            "0.2",
            "-st",
            "--no-warmup",
            "-rea",
            "off",
        ]
    );
}

#[test]
fn the_answer_is_kept() {
    let printed = "banner\n> prompt\n\n■ 日時\n七月\n\n■ 決定事項\n[ Prompt: 12 t/s ]\n";
    let minutes = write_minutes(true, "", printed.as_bytes()).unwrap();
    assert_eq!(minutes, "■ 日時\n七月\n\n■ 決定事項\n");
}

#[test]
fn an_answer_without_a_footer_runs_to_the_end() {
    let minutes = write_minutes(true, "", "[ Prompt: x ■ 日時 \u{3000}\n\n".as_bytes()).unwrap();
    assert_eq!(minutes, "■ 日時\n");
}

#[test]
fn the_first_heading_and_the_last_footer_count() {
    let printed = "■ 日時 a [ Prompt: b ■ 日時 c [ Prompt: d";
    let minutes = write_minutes(true, "", printed.as_bytes()).unwrap();
    assert_eq!(minutes, "■ 日時 a [ Prompt: b ■ 日時 c\n");
}

#[test]
fn broken_output_is_read_all_the_same() {
    let mut printed = vec![0xFF];
    printed.extend_from_slice("■ 日時\n".as_bytes());
    printed.extend_from_slice(&[0xE3, 0x81]);
    let minutes = write_minutes(true, "", &printed).unwrap();
    assert_eq!(minutes, "■ 日時\n\u{FFFD}\n");
}

#[test]
fn output_without_a_heading_is_an_error() {
    let err = write_minutes(true, "", "■日時".as_bytes()).unwrap_err();
    assert!(matches!(err, MinutesError::Missing));
    assert_eq!(err.message(), "llama-cli produced no minutes");
}

#[test]
fn a_failed_run_is_an_error_whatever_it_printed() {
    let err = write_minutes(false, "exit status: 1", "■ 日時".as_bytes()).unwrap_err();
    assert_eq!(err.message(), "llama-cli exited with exit status: 1");
    assert!(matches!(err, MinutesError::Exit(_)));
}

#[test]
fn an_unreadable_prompt_is_named() {
    let err = MinutesError::Unreadable("p.txt".into(), "no such file".into());
    assert_eq!(
        err.message(),
        "minutes prompt not readable: p.txt: no such file"
    );
}
