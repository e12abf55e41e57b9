//! Minutes of a meeting, drawn up by a language model from the transcript.
//!
//! They are optional: without a model they are skipped, and nothing that goes wrong with
//! them touches the transcript.

use crate::stitch;
use crate::text;
use vstd::prelude::*;
use vstd::string::*;

verus! {

/// What the minutes open with.
pub const HEADING: &'static str = "■ 日時";

/// What the model runner prints behind the answer.
pub const FOOTER: &'static str = "[ Prompt:";

/// Whether minutes are drawn up, and from which prompt.
#[derive(Debug)]
pub enum Plan {
    /// There is no model, so there are no minutes.
    Skip,
    /// By this model, from the built-in prompt.
    Embedded(String),
    /// By this model, from the prompt in this file.
    Custom(String, String),
}

/// Why there are no minutes though there is a model.
#[derive(Debug)]
pub enum MinutesError {
    /// The prompt at this path cannot be read, for this reason.
    Unreadable(String, String),
    /// The model runner failed, with this status.
    Exit(String),
    /// The output of the model runner holds no minutes.
    Missing,
}

/// Decides whether minutes are drawn up, given the paths of the model and of a prompt that
/// replaces the built-in one.
pub fn plan(model: Option<String>, prompt: Option<String>) -> (res: Plan)
    ensures
        res == match (model, prompt) {
            (None, _) => Plan::Skip,
            (Some(model), None) => Plan::Embedded(model),
            (Some(model), Some(path)) => Plan::Custom(model, path),
        },
{
    match model {
        None => Plan::Skip,
        Some(model) => match prompt {
            None => Plan::Embedded(model),
            Some(path) => Plan::Custom(model, path),
        },
    }
}

/// What the model is given: the prompt, and the transcript as it is behind it.
pub fn prompt(head: &str, transcript: &str) -> (res: String)
    ensures
        res@ == head@ + transcript@,
{
    let mut res = head.to_owned();
    res.append(transcript);
    res
}

/// The arguments that have the model runner answer the prompt in the file `prompt`.
pub fn model_args(model: &str, prompt: &str) -> (args: Vec<String>)
    ensures
        args.deep_view() == seq![
            "-m"@,
            model@,
            "-f"@,
            prompt@,
            "-c"@,
            "32768"@,
            "-n"@,
            "3000"@,
            "--temp"@,
            "0.2"@,
            "-st"@,
            "--no-warmup"@,
            "-rea"@,
            "off"@,
        ],
{
    let mut args: Vec<String> = Vec::new();
    args.push("-m".to_owned());
    args.push(model.to_owned());
    args.push("-f".to_owned());
    args.push(prompt.to_owned());
    args.push("-c".to_owned());
    args.push("32768".to_owned());
    args.push("-n".to_owned());
    args.push("3000".to_owned());
    args.push("--temp".to_owned());
    args.push("0.2".to_owned());
    args.push("-st".to_owned());
    args.push("--no-warmup".to_owned());
    args.push("-rea".to_owned());
    args.push("off".to_owned());
    args
}

/// The answer in `text` is what stands between `start` and `end`: from the first heading
/// on, up to the last footer behind it or, where there is none, to the end.
pub open spec fn is_answer(text: Seq<char>, start: int, end: int) -> bool {
    &&& text::occurs_at(text, HEADING@, start)
    &&& forall|i: int| i < start ==> !text::occurs_at(text, HEADING@, i)
    &&& if exists|i: int| start <= i && text::occurs_at(text, FOOTER@, i) {
        &&& start <= end
        &&& text::occurs_at(text, FOOTER@, end)
        &&& forall|i: int| end < i ==> !text::occurs_at(text, FOOTER@, i)
    } else {
        end == text.len()
    }
}

/// The minutes that the answer between `start` and `end` is: without trailing whitespace,
/// and with a newline at the end.
pub open spec fn minutes_of(text: Seq<char>, start: int, end: int) -> Seq<char> {
    text::trim_end_of(text.subrange(start, end)).push('\n')
}

/// Picks the minutes from what the model runner did and printed.
///
/// It prints a banner, the echoed prompt, then the answer; the answer is kept.
pub fn write_minutes(succeeded: bool, status: &str, stdout: &[u8]) -> (res: Result<
    String,
    MinutesError,
>)
    ensures
        match res {
            Ok(minutes) => {
                &&& succeeded
                &&& exists|start: int, end: int|
                    #[trigger] is_answer(stitch::lossy_of(stdout@), start, end) && minutes@
                        == minutes_of(stitch::lossy_of(stdout@), start, end)
            },
            Err(MinutesError::Exit(message)) => !succeeded && message@ == status@,
            Err(MinutesError::Missing) => {
                &&& succeeded
                &&& forall|i: int| !text::occurs_at(stitch::lossy_of(stdout@), HEADING@, i)
            },
            Err(MinutesError::Unreadable(_, _)) => false,
        },
{
    if !succeeded {
        return Err(MinutesError::Exit(status.to_owned()));
    }
    let printed = stitch::lossy(stdout);
    let chars = text::chars_of(printed.as_str());
    let heading = text::chars_of(HEADING);
    let footer = text::chars_of(FOOTER);
    let ghost all = chars@;
    match text::find(chars.as_slice(), heading.as_slice()) {
        None => Err(MinutesError::Missing),
        Some(start) => {
            let end: usize = match text::rfind(chars.as_slice(), footer.as_slice(), start) {
                Some(end) => end,
                None => chars.len(),
            };
            let answer = text::string_of(chars.as_slice(), start, end);
            assert(is_answer(all, start as int, end as int));
            let mut minutes = text::trim_end(answer.as_str());
            minutes.push('\n');
            Ok(minutes)
        },
    }
}

impl MinutesError {
    /// What the user is told of it.
    pub open spec fn message_of(&self) -> Seq<char> {
        match self {
            MinutesError::Unreadable(path, cause) => "minutes prompt not readable: "@ + path@
                + ": "@ + cause@,
            MinutesError::Exit(status) => "llama-cli exited with "@ + status@,
            MinutesError::Missing => "llama-cli produced no minutes"@,
        }
    }

    /// What the user is told of it.
    pub fn message(&self) -> (res: String)
        ensures
            res@ == self.message_of(),
            match self {
                MinutesError::Unreadable(path, cause) => res@ == "minutes prompt not readable: "@
                    + path@ + ": "@ + cause@,
                MinutesError::Exit(status) => res@ == "llama-cli exited with "@ + status@,
                MinutesError::Missing => res@ == "llama-cli produced no minutes"@,
            },
    {
        match self {
            MinutesError::Unreadable(path, cause) => {
                let mut res = "minutes prompt not readable: ".to_owned();
                res.append(path.as_str());
                res.append(": ");
                res.append(cause.as_str());
                res
            },
            MinutesError::Exit(status) => {
                let mut res = "llama-cli exited with ".to_owned();
                res.append(status.as_str());
                res
            },
            MinutesError::Missing => "llama-cli produced no minutes".to_owned(),
        }
    }
}

/// There is one answer at most.
pub proof fn answers_are_unique(text: Seq<char>, start: int, end: int, start2: int, end2: int)
    requires
        is_answer(text, start, end),
        is_answer(text, start2, end2),
    ensures
        start == start2,
        end == end2,
{
    assert(start == start2) by {
        if start < start2 {
            assert(!text::occurs_at(text, HEADING@, start));
        }
        if start2 < start {
            assert(!text::occurs_at(text, HEADING@, start2));
        }
    }
    if exists|i: int| start <= i && text::occurs_at(text, FOOTER@, i) {
        if end < end2 {
            assert(!text::occurs_at(text, FOOTER@, end2));
        }
        if end2 < end {
            assert(!text::occurs_at(text, FOOTER@, end));
        }
    }
}

/// Wherever the heading stands in the text there is an answer.
pub proof fn headings_are_answered(text: Seq<char>, at: int)
    requires
        text::occurs_at(text, HEADING@, at),
    ensures
        exists|start: int, end: int| start <= at && #[trigger] is_answer(text, start, end),
{
    let start = lemma_first(text, HEADING@, at);
    if exists|i: int| start <= i && text::occurs_at(text, FOOTER@, i) {
        let i = choose|i: int| start <= i && text::occurs_at(text, FOOTER@, i);
        let end = lemma_last(text, FOOTER@, i);
        assert(is_answer(text, start, end));
    } else {
        assert(is_answer(text, start, text.len() as int));
    }
}

proof fn lemma_first(text: Seq<char>, pattern: Seq<char>, at: int) -> (first: int)
    requires
        text::occurs_at(text, pattern, at),
    ensures
        first <= at,
        text::occurs_at(text, pattern, first),
        forall|i: int| i < first ==> !text::occurs_at(text, pattern, i),
    decreases at,
{
    if exists|i: int| i < at && text::occurs_at(text, pattern, i) {
        let i = choose|i: int| i < at && text::occurs_at(text, pattern, i);
        lemma_first(text, pattern, i)
    } else {
        at
    }
}

proof fn lemma_last(text: Seq<char>, pattern: Seq<char>, at: int) -> (last: int)
    requires
        text::occurs_at(text, pattern, at),
    ensures
        at <= last,
        text::occurs_at(text, pattern, last),
        forall|i: int| last < i ==> !text::occurs_at(text, pattern, i),
    decreases text.len() - at,
{
    if exists|i: int| at < i && text::occurs_at(text, pattern, i) {
        let i = choose|i: int| at < i && text::occurs_at(text, pattern, i);
        lemma_last(text, pattern, i)
    } else {
        at
    }
}

/// Minutes open with the heading and close with one newline behind something visible.
pub proof fn minutes_open_with_the_heading(text: Seq<char>, start: int, end: int)
    requires
        is_answer(text, start, end),
    ensures
        HEADING@.is_prefix_of(minutes_of(text, start, end)),
        minutes_of(text, start, end).last() == '\n',
        !text::is_blank(minutes_of(text, start, end)[minutes_of(text, start, end).len() - 2]),
{
    reveal_strlit("■ 日時");
    reveal_strlit("[ Prompt:");
    let n = HEADING@.len() as int;
    let answer = text.subrange(start, end);
    assert(text.subrange(start, start + n) == HEADING@);
    if end < start + n {
        // The footer would have to begin inside the heading.
        assert(text.subrange(end, end + FOOTER@.len())[0] == FOOTER@[0]);
        assert(HEADING@[end - start] == text[end]);
    }
    assert(answer.take(n) =~= HEADING@);
    assert(answer[n - 1] == HEADING@[n - 1]);
    lemma_trim_end_keeps(answer, n);
}

proof fn lemma_trim_end_keeps(s: Seq<char>, n: int)
    requires
        0 < n <= s.len(),
        !text::is_blank(s[n - 1]),
    ensures
        text::trim_end_of(s).len() >= n,
        text::trim_end_of(s).take(n) == s.take(n),
        !text::is_blank(text::trim_end_of(s).last()),
    decreases s.len(),
{
    if text::is_blank(s.last()) {
        lemma_trim_end_keeps(s.drop_last(), n);
        assert(s.drop_last().take(n) =~= s.take(n));
    }
}

/// The answer runs from the first heading in the text to the last footer behind it, and to
/// the end where no footer stands behind the heading.
pub proof fn answers_run_from_heading_to_footer(text: Seq<char>, start: int, end: int)
    requires
        is_answer(text, start, end),
    ensures
        0 <= start <= end <= text.len(),
        start + "■ 日時"@.len() <= text.len(),
        text.subrange(start, start + "■ 日時"@.len()) == "■ 日時"@,
        forall|i: int|
            0 <= i < start ==> #[trigger] text.subrange(i, i + "■ 日時"@.len()) != "■ 日時"@,
        end == text.len() || (end + "[ Prompt:"@.len() <= text.len() && text.subrange(
            end,
            end + "[ Prompt:"@.len(),
        ) == "[ Prompt:"@),
        forall|i: int|
            start <= i && (end < i || end == text.len()) && i + "[ Prompt:"@.len() <= text.len()
                ==> #[trigger] text.subrange(i, i + "[ Prompt:"@.len()) != "[ Prompt:"@,
{
    reveal_strlit("[ Prompt:");
    let footer = FOOTER@;
    assert forall|i: int| 0 <= i < start implies #[trigger] text.subrange(i, i + "■ 日時"@.len())
        != "■ 日時"@ by {
        assert(!text::occurs_at(text, HEADING@, i));
    }
    assert forall|i: int|
        start <= i && (end < i || end == text.len()) && i + "[ Prompt:"@.len() <= text.len()
            implies #[trigger] text.subrange(i, i + "[ Prompt:"@.len()) != "[ Prompt:"@ by {
        if text.subrange(i, i + footer.len()) == footer {
            assert(text::occurs_at(text, FOOTER@, i));
        }
    }
}

/// The minutes are the whole answer but for whitespace at its end, in place of which there
/// is one newline.
pub proof fn minutes_are_the_whole_answer(text: Seq<char>, start: int, end: int)
    requires
        0 <= start <= end <= text.len(),
    ensures
        ({
            let minutes = minutes_of(text, start, end);
            let kept = start + minutes.len() - 1;
            &&& minutes.len() > 0
            &&& minutes.last() == '\n'
            &&& kept <= end
            &&& minutes.drop_last() == text.subrange(start, kept)
            &&& forall|i: int| kept <= i < end ==> text::is_blank(#[trigger] text[i])
            &&& start < kept ==> !text::is_blank(text[kept - 1])
        }),
{
    let answer = text.subrange(start, end);
    text::trimming_the_end_stops_at_what_is_visible(answer);
    let j = choose|j: int|
        {
            &&& 0 <= j <= answer.len()
            &&& text::trim_end_of(answer) == #[trigger] answer.take(j)
            &&& forall|k: int| j <= k < answer.len() ==> text::is_blank(#[trigger] answer[k])
            &&& j > 0 ==> !text::is_blank(answer[j - 1])
        };
    let minutes = minutes_of(text, start, end);
    assert(minutes.drop_last() =~= answer.take(j));
    assert(answer.take(j) =~= text.subrange(start, start + j));
    assert forall|i: int| start + j <= i < end implies text::is_blank(#[trigger] text[i]) by {
        assert(answer[i - start] == text[i]);
    }
    if j > 0 {
        assert(answer[j - 1] == text[start + j - 1]);
    }
}

/// The minutes lose nothing visible of the answer: the characters that are not whitespace
/// are those from the heading to the footer, in order.
pub proof fn minutes_lose_nothing_visible(text: Seq<char>, start: int, end: int)
    requires
        0 <= start <= end <= text.len(),
    ensures
        minutes_of(text, start, end).filter(|c: char| !text::is_blank(c)) == text.subrange(
            start,
            end,
        ).filter(|c: char| !text::is_blank(c)),
{
    let minutes = minutes_of(text, start, end);
    let kept = start + minutes.len() - 1;
    minutes_are_the_whole_answer(text, start, end);
    let tail = text.subrange(kept, end);
    assert(text.subrange(start, end) =~= text.subrange(start, kept) + tail);
    text::lemma_visible_add(text.subrange(start, kept), tail);
    assert(forall|i: int| 0 <= i < tail.len() ==> #[trigger] tail[i] == text[kept + i]);
    text::lemma_blank_is_invisible(tail);
    assert(minutes =~= text.subrange(start, kept) + seq!['\n']);
    text::lemma_visible_add(text.subrange(start, kept), seq!['\n']);
    text::lemma_visible_one('\n');
}

} // verus!
