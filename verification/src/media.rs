//! What goes to the media tools and what comes back.

use crate::stitch;
use crate::text;
use crate::transcript::SAMPLE_RATE;
use vstd::prelude::*;
use vstd::string::*;
use vstd::utf8::*;

verus! {

/// Why no audio stream was picked.
#[derive(Debug)]
pub enum StreamError {
    /// There is none.
    Absent,
    /// There are several, with these indices, and none is preferred.
    Ambiguous(Vec<usize>),
}

/// How many characters of `s` come before the first newline.
pub open spec fn line_len(s: Seq<char>) -> int
    decreases s.len(),
{
    if s.len() == 0 || s[0] == '\n' {
        0
    } else {
        1 + line_len(s.drop_first())
    }
}

/// The lines of `s`, without their newlines.
pub open spec fn lines_of(s: Seq<char>) -> Seq<Seq<char>>
    decreases s.len(),
{
    let n = line_len(s);
    if 0 <= n < s.len() {
        seq![s.take(n)] + lines_of(s.skip(n + 1))
    } else {
        seq![s]
    }
}

/// `s` without a leading plus sign.
pub open spec fn unsigned_of(s: Seq<char>) -> Seq<char> {
    if s.len() > 0 && s[0] == '+' {
        s.drop_first()
    } else {
        s
    }
}

/// `s` is a number: decimal digits, at least one.
pub open spec fn is_number(s: Seq<char>) -> bool {
    s.len() > 0 && forall|i: int| 0 <= i < s.len() ==> text::is_digit(#[trigger] s[i])
}

/// The index that `line` holds, where it holds one that fits: a number, with or without a
/// plus sign, whitespace around it or not.
pub open spec fn index_of(line: Seq<char>) -> Option<usize> {
    let digits = unsigned_of(text::trim_of(line));
    if is_number(digits) && text::value_of(digits) <= usize::MAX {
        Some(text::value_of(digits) as usize)
    } else {
        None
    }
}

/// The indices that `lines` hold; lines that hold none are passed over.
pub open spec fn indices_of(lines: Seq<Seq<char>>) -> Seq<usize>
    decreases lines.len(),
{
    if lines.len() == 0 {
        seq![]
    } else {
        match index_of(lines[0]) {
            Some(n) => seq![n] + indices_of(lines.drop_first()),
            None => indices_of(lines.drop_first()),
        }
    }
}

/// The stream indices in the output of the probe.
pub open spec fn streams_of(stdout: Seq<u8>) -> Seq<usize> {
    indices_of(lines_of(stitch::lossy_of(stdout)))
}

proof fn lemma_value_grows(digits: Seq<char>, n: int)
    requires
        0 <= n <= digits.len(),
        forall|i: int| 0 <= i < digits.len() ==> text::is_digit(#[trigger] digits[i]),
    ensures
        text::value_of(digits.take(n)) <= text::value_of(digits),
    decreases digits.len() - n,
{
    if n < digits.len() {
        lemma_value_grows(digits, n + 1);
        assert(digits.take(n + 1).drop_last() =~= digits.take(n));
    } else {
        assert(digits.take(n) =~= digits);
    }
}

/// Reads the index that `line` holds.
pub fn parse_index(line: &str) -> (res: Option<usize>)
    ensures
        res == index_of(line@),
{
    let trimmed = text::trim(line);
    let chars = text::chars_of(trimmed.as_str());
    let len: usize = chars.len();
    let start: usize = if len > 0 && chars[0] == '+' {
        1
    } else {
        0
    };
    let ghost digits = unsigned_of(trimmed@);
    assert(digits =~= chars@.skip(start as int));
    if start == len {
        return None;
    }
    let mut value: usize = 0;
    let mut i: usize = start;
    assert(digits.take(0) =~= seq![]);
    while i < len
        invariant
            start <= i <= len == chars@.len(),
            digits == chars@.skip(start as int),
            digits == unsigned_of(text::trim_of(line@)),
            value == text::value_of(digits.take(i - start)),
            forall|j: int| 0 <= j < i - start ==> text::is_digit(#[trigger] digits[j]),
        decreases len - i,
    {
        let c = chars[i];
        let ghost at = i - start;
        assert(digits[at] == c);
        if c < '0' || '9' < c {
            assert(!text::is_digit(digits[at]));
            return None;
        }
        let ghost next = digits.take(at + 1);
        assert(next.drop_last() =~= digits.take(at));
        let d: usize = (c as u32 - 48) as usize;
        let grown: Option<usize> = match value.checked_mul(10) {
            Some(tens) => tens.checked_add(d),
            None => None,
        };
        match grown {
            Some(v) => {
                value = v;
            },
            None => {
                proof {
                    if is_number(digits) {
                        lemma_value_grows(digits, at + 1);
                    }
                }
                return None;
            },
        }
        i = i + 1;
    }
    assert(digits.take(len - start) =~= digits);
    Some(value)
}

/// Reads the stream indices in the output of the probe.
fn indices(text: &str) -> (res: Vec<usize>)
    ensures
        res@ == indices_of(lines_of(text@)),
{
    let chars = text::chars_of(text);
    let len: usize = chars.len();
    let ghost all = chars@;
    let mut res: Vec<usize> = Vec::new();
    let mut from: usize = 0;
    assert(all.skip(0) =~= all);
    loop
        invariant
            from <= len == all.len(),
            all == chars@,
            all == text@,
            indices_of(lines_of(all)) == res@ + indices_of(lines_of(all.skip(from as int))),
        decreases len - from,
    {
        let ghost rest = all.skip(from as int);
        let mut to: usize = from;
        while to < len && chars[to] != '\n'
            invariant
                from <= to <= len == all.len(),
                all == chars@,
                rest == all.skip(from as int),
                line_len(rest) == to - from + line_len(all.skip(to as int)),
            decreases len - to,
        {
            assert(all.skip(to as int).drop_first() =~= all.skip(to + 1));
            to = to + 1;
        }
        assert(line_len(rest) == to - from);
        let line = text::string_of(chars.as_slice(), from, to);
        let ghost lines = lines_of(rest);
        let ghost after = indices_of(lines.drop_first());
        let ghost found = res@;
        assert(lines.len() > 0);
        assert(lines[0] =~= line@);
        match parse_index(line.as_str()) {
            Some(n) => {
                res.push(n);
                assert(indices_of(lines) == seq![n] + after);
                assert(res@ + after =~= found + (seq![n] + after));
            },
            None => {
                assert(indices_of(lines) == after);
            },
        }
        assert(res@ + after == found + indices_of(lines));
        if to == len {
            assert(lines.drop_first() =~= seq![]);
            assert(res@ =~= res@ + after);
            return res;
        }
        assert(rest.skip(line_len(rest) + 1) =~= all.skip(to + 1));
        assert(lines.drop_first() =~= lines_of(all.skip(to + 1)));
        from = to + 1;
    }
}

/// Picks the audio stream from the output of the probe. Where there are several it does
/// not guess.
pub fn audio_stream_index(stdout: &[u8]) -> (res: Result<usize, StreamError>)
    ensures
        match res {
            Ok(n) => streams_of(stdout@) == seq![n],
            Err(StreamError::Absent) => streams_of(stdout@).len() == 0,
            Err(StreamError::Ambiguous(many)) => {
                &&& many@ == streams_of(stdout@)
                &&& many@.len() >= 2
            },
        },
{
    let text = stitch::lossy(stdout);
    let found = indices(text.as_str());
    if found.len() == 0 {
        Err(StreamError::Absent)
    } else if found.len() == 1 {
        assert(found@ =~= seq![found@[0]]);
        Ok(found[0])
    } else {
        Err(StreamError::Ambiguous(found))
    }
}

/// `numbers` with a comma and a space between any two.
pub open spec fn listed(numbers: Seq<usize>) -> Seq<char>
    decreases numbers.len(),
{
    if numbers.len() == 0 {
        seq![]
    } else if numbers.len() == 1 {
        text::decimal_of(numbers[0] as nat)
    } else {
        listed(numbers.drop_last()) + ", "@ + text::decimal_of(numbers.last() as nat)
    }
}

impl StreamError {
    /// What the user is told of it.
    pub open spec fn message_of(&self, path: Seq<char>) -> Seq<char> {
        match self {
            StreamError::Absent => "no audio stream in "@ + path,
            StreamError::Ambiguous(many) => text::decimal_of(many@.len()) + " audio streams ["@
                + listed(many@) + "]; pick one explicitly"@,
        }
    }

    /// What the user is told of it.
    pub fn message(&self, path: &str) -> (res: String)
        ensures
            res@ == self.message_of(path@),
            match self {
                StreamError::Absent => res@ == "no audio stream in "@ + path@,
                StreamError::Ambiguous(many) => res@ == text::decimal_of(many@.len())
                    + " audio streams ["@ + listed(many@) + "]; pick one explicitly"@,
            },
    {
        match self {
            StreamError::Absent => {
                let mut res = "no audio stream in ".to_owned();
                res.append(path);
                res
            },
            StreamError::Ambiguous(many) => {
                let mut res = String::new();
                text::push_decimal(&mut res, many.len() as u128);
                res.append(" audio streams [");
                let ghost head = res@;
                let mut i: usize = 0;
                assert(many@.take(0) =~= seq![]);
                assert(res@ =~= head + listed(many@.take(0)));
                while i < many.len()
                    invariant
                        i <= many@.len(),
                        res@ == head + listed(many@.take(i as int)),
                    decreases many@.len() - i,
                {
                    assert(many@.take(i + 1).drop_last() =~= many@.take(i as int));
                    if i > 0 {
                        res.append(", ");
                    }
                    text::push_decimal(&mut res, many[i] as u128);
                    i = i + 1;
                    assert(res@ =~= head + listed(many@.take(i as int)));
                }
                assert(many@.take(many@.len() as int) =~= many@);
                res.append("]; pick one explicitly");
                assert(res@ =~= self.message_of(path@));
                res
            },
        }
    }
}

/// The arguments that have the probe list the audio streams of `path`, one index to a
/// line.
pub fn probe_args(path: &str) -> (args: Vec<String>)
    ensures
        args.deep_view() == seq![
            "-v"@,
            "error"@,
            "-select_streams"@,
            "a"@,
            "-show_entries"@,
            "stream=index"@,
            "-of"@,
            "csv=p=0"@,
            path@,
        ],
{
    let mut args: Vec<String> = Vec::new();
    args.push("-v".to_owned());
    args.push("error".to_owned());
    args.push("-select_streams".to_owned());
    args.push("a".to_owned());
    args.push("-show_entries".to_owned());
    args.push("stream=index".to_owned());
    args.push("-of".to_owned());
    args.push("csv=p=0".to_owned());
    args.push(path.to_owned());
    args
}

/// The arguments that have the decoder write the stream `stream` of `path` to its output:
/// one channel of little-endian single-precision samples.
pub fn decode_args(path: &str, stream: usize) -> (args: Vec<String>)
    ensures
        args.deep_view() == seq![
            "-v"@,
            "error"@,
            "-i"@,
            path@,
            "-map"@,
            "0:"@ + text::decimal_of(stream as nat),
            "-f"@,
            "f32le"@,
            "-acodec"@,
            "pcm_f32le"@,
            "-ac"@,
            "1"@,
            "-ar"@,
            text::decimal_of(SAMPLE_RATE as nat),
            "-"@,
        ],
{
    let mut map = "0:".to_owned();
    text::push_decimal(&mut map, stream as u128);
    let mut rate = String::new();
    text::push_decimal(&mut rate, SAMPLE_RATE as u128);
    assert(rate@ =~= text::decimal_of(SAMPLE_RATE as nat));
    let mut args: Vec<String> = Vec::new();
    args.push("-v".to_owned());
    args.push("error".to_owned());
    args.push("-i".to_owned());
    args.push(path.to_owned());
    args.push("-map".to_owned());
    args.push(map);
    args.push("-f".to_owned());
    args.push("f32le".to_owned());
    args.push("-acodec".to_owned());
    args.push("pcm_f32le".to_owned());
    args.push("-ac".to_owned());
    args.push("1".to_owned());
    args.push("-ar".to_owned());
    args.push(rate);
    args.push("-".to_owned());
    args
}

/// The number that the four bytes of `raw` from `at` on spell, least first.
pub open spec fn word_at(raw: Seq<u8>, at: int) -> int {
    raw[at] + 0x100 * raw[at + 1] + 0x1_0000 * raw[at + 2] + 0x100_0000 * raw[at + 3]
}

/// The samples in `raw`, as bit patterns; up to three bytes left over are no sample.
pub open spec fn samples_of(raw: Seq<u8>) -> Seq<u32> {
    Seq::new(raw.len() / 4, |i: int| word_at(raw, 4 * i) as u32)
}

/// Reads decoded audio: the bit pattern of each single-precision sample.
pub fn decode(raw: &[u8]) -> (samples: Vec<u32>)
    ensures
        samples@ == samples_of(raw@),
{
    let len: usize = raw.len() / 4;
    let mut samples: Vec<u32> = Vec::new();
    let mut i: usize = 0;
    while i < len
        invariant
            i <= len,
            len == raw@.len() / 4,
            4 * len <= usize::MAX,
            samples@ == samples_of(raw@).take(i as int),
        decreases len - i,
    {
        let at: usize = 4 * i;
        let word: u32 = raw[at] as u32 + 0x100 * (raw[at + 1] as u32) + 0x1_0000 * (raw[at
            + 2] as u32) + 0x100_0000 * (raw[at + 3] as u32);
        samples.push(word);
        i = i + 1;
        assert(samples@ =~= samples_of(raw@).take(i as int));
    }
    assert(samples@ =~= samples_of(raw@));
    samples
}

/// Why there are no samples.
#[derive(Debug)]
pub enum DecodeError {
    /// The decoder reported a failure, so that what it wrote is not to be relied on.
    Failed,
}

impl DecodeError {
    /// What the user is told of it.
    pub open spec fn message_of(&self) -> Seq<char> {
        match self {
            DecodeError::Failed => "ffmpeg failed"@,
        }
    }

    /// What the user is told of it.
    pub fn message(&self) -> (res: String)
        ensures
            res@ == self.message_of(),
            res@ == "ffmpeg failed"@,
    {
        match self {
            DecodeError::Failed => "ffmpeg failed".to_owned(),
        }
    }
}

/// The samples of a run of the decoder that wrote `raw`. A run that failed gives none,
/// whatever it wrote.
pub fn decoded(succeeded: bool, raw: &[u8]) -> (res: Result<Vec<u32>, DecodeError>)
    ensures
        match res {
            Ok(samples) => succeeded && samples@ == samples_of(raw@),
            Err(DecodeError::Failed) => !succeeded,
        },
{
    if succeeded {
        Ok(decode(raw))
    } else {
        Err(DecodeError::Failed)
    }
}

/// The bytes of `words`, four to each, least first.
pub open spec fn bytes_of(words: Seq<u32>) -> Seq<u8> {
    Seq::new(
        4 * words.len(),
        |i: int|
            {
                let word = words[i / 4];
                if i % 4 == 0 {
                    (word % 0x100) as u8
                } else if i % 4 == 1 {
                    (word / 0x100 % 0x100) as u8
                } else if i % 4 == 2 {
                    (word / 0x1_0000 % 0x100) as u8
                } else {
                    (word / 0x100_0000) as u8
                }
            },
    )
}

/// Samples are read back as they were written, whatever follows that is no whole sample.
pub proof fn samples_read_back(words: Seq<u32>, rest: Seq<u8>)
    requires
        rest.len() < 4,
    ensures
        samples_of(bytes_of(words) + rest) == words,
{
    let raw = bytes_of(words) + rest;
    assert forall|i: int| 0 <= i < words.len() implies samples_of(raw)[i] == words[i] by {
        let word = words[i];
        assert(raw[4 * i] == (word % 0x100) as u8);
        assert(raw[4 * i + 1] == (word / 0x100 % 0x100) as u8);
        assert(raw[4 * i + 2] == (word / 0x1_0000 % 0x100) as u8);
        assert(raw[4 * i + 3] == (word / 0x100_0000) as u8);
        assert(word_at(raw, 4 * i) == word);
    }
    assert(samples_of(raw) =~= words);
}

/// `indices` as the probe writes them, one to a line.
pub open spec fn report_of(indices: Seq<usize>) -> Seq<char>
    decreases indices.len(),
{
    if indices.len() == 0 {
        seq![]
    } else {
        text::decimal_of(indices[0] as nat) + "\n"@ + report_of(indices.drop_first())
    }
}

/// The indices that the probe writes are read back, all of them and in order.
pub proof fn reports_read_back(indices: Seq<usize>)
    ensures
        streams_of(encode_utf8(report_of(indices))) == indices,
{
    let report = report_of(indices);
    lemma_report(indices);
    encode_utf8_valid_utf8(report);
    encode_utf8_decode_utf8(report);
    stitch::complete_bytes_pass_through(encode_utf8(report));
}

/// A number that fits, written in decimal, is a line that holds it.
proof fn lemma_decimal_is_index(n: usize)
    ensures
        is_number(text::decimal_of(n as nat)),
        index_of(text::decimal_of(n as nat)) == Some(n),
{
    let line = text::decimal_of(n as nat);
    text::decimal_reads_back(n as nat);
    assert(text::is_digit(line[0]));
    assert(text::is_digit(line.last()));
    assert(text::trim_of(line) == line);
    assert(unsigned_of(line) == line);
}

/// A line, its newline and what follows.
proof fn lemma_first_line(line: Seq<char>, rest: Seq<char>)
    requires
        is_number(line),
    ensures
        lines_of(line + "\n"@ + rest) == seq![line] + lines_of(rest),
{
    reveal_strlit("\n");
    let n = line.len() as int;
    let s = line + "\n"@ + rest;
    lemma_line_len(line, "\n"@ + rest);
    assert(s =~= line + ("\n"@ + rest));
    assert(s.take(n) =~= line);
    assert(s.skip(n + 1) =~= rest);
}

/// One more line, which holds an index.
proof fn lemma_first_index(line: Seq<char>, lines: Seq<Seq<char>>, n: usize)
    requires
        index_of(line) == Some(n),
    ensures
        indices_of(seq![line] + lines) == seq![n] + indices_of(lines),
{
    let all = seq![line] + lines;
    assert(all[0] == line);
    assert(all.drop_first() =~= lines);
}

proof fn lemma_report(indices: Seq<usize>)
    ensures
        indices_of(lines_of(report_of(indices))) == indices,
    decreases indices.len(),
{
    if indices.len() == 0 {
        let report = report_of(indices);
        let lines = lines_of(report);
        assert(lines =~= seq![report]);
        assert(index_of(report) is None);
        assert(lines.drop_first() =~= seq![]);
        assert(indices_of(lines.drop_first()) =~= indices);
    } else {
        let n = indices[0];
        let line = text::decimal_of(n as nat);
        let rest = report_of(indices.drop_first());
        lemma_report(indices.drop_first());
        lemma_decimal_is_index(n);
        lemma_first_line(line, rest);
        lemma_first_index(line, lines_of(rest), n);
        assert(indices =~= seq![n] + indices.drop_first());
    }
}

proof fn lemma_line_len(line: Seq<char>, rest: Seq<char>)
    requires
        is_number(line) || line.len() == 0,
        rest.len() == 0 || rest[0] == '\n',
    ensures
        line_len(line + rest) == line.len(),
    decreases line.len(),
{
    if line.len() > 0 {
        assert(text::is_digit(line[0]));
        assert((line + rest).drop_first() =~= line.drop_first() + rest);
        lemma_line_len(line.drop_first(), rest);
    }
}

/// A sample is the number that its four bytes spell, least first, wherever it stands; there
/// is one for every four bytes.
pub proof fn samples_are_little_endian(raw: Seq<u8>, i: int)
    requires
        0 <= i < raw.len() / 4,
    ensures
        samples_of(raw).len() == raw.len() / 4,
        samples_of(raw)[i] == raw[4 * i] + 256 * raw[4 * i + 1] + 65_536 * raw[4 * i + 2]
            + 16_777_216 * raw[4 * i + 3],
{
}

/// A newline ends a line and begins another; text without a newline is one line.
pub proof fn newlines_part_lines(a: Seq<char>, b: Seq<char>)
    ensures
        lines_of(a + seq!['\n'] + b) == lines_of(a) + lines_of(b),
        (forall|i: int| 0 <= i < a.len() ==> #[trigger] a[i] != '\n') ==> lines_of(a) == seq![a],
    decreases a.len(),
{
    let s = a + seq!['\n'] + b;
    let n = lemma_line_end(a);
    assert(line_len(s) == n) by {
        assert(s.take(a.len() as int) =~= a);
        lemma_line_len_is(s, n);
    }
    if n < a.len() {
        let rest = a.skip(n + 1);
        newlines_part_lines(rest, b);
        assert(s.take(n) =~= a.take(n));
        assert(s.skip(n + 1) =~= rest + seq!['\n'] + b);
        assert(lines_of(s) =~= lines_of(a) + lines_of(b));
    } else {
        assert(s.take(n) =~= a);
        assert(s.skip(n + 1) =~= b);
        assert(lines_of(s) =~= lines_of(a) + lines_of(b));
    }
}

proof fn lemma_line_end(s: Seq<char>) -> (n: int)
    ensures
        n == line_len(s),
        0 <= n <= s.len(),
        forall|i: int| 0 <= i < n ==> #[trigger] s[i] != '\n',
        n < s.len() ==> s[n] == '\n',
    decreases s.len(),
{
    if s.len() == 0 || s[0] == '\n' {
        0
    } else {
        let rest = s.drop_first();
        let n = lemma_line_end(rest);
        assert forall|i: int| 0 <= i < n + 1 implies #[trigger] s[i] != '\n' by {
            if i > 0 {
                assert(rest[i - 1] == s[i]);
            }
        }
        if n < rest.len() {
            assert(rest[n] == s[n + 1]);
        }
        n + 1
    }
}

proof fn lemma_line_len_is(s: Seq<char>, n: int)
    requires
        0 <= n < s.len(),
        forall|i: int| 0 <= i < n ==> #[trigger] s[i] != '\n',
        s[n] == '\n',
    ensures
        line_len(s) == n,
{
    let m = lemma_line_end(s);
    if m < n {
        assert(s[m] != '\n');
    }
    if n < m {
        assert(s[n] != '\n');
    }
}

/// A line holds the index that its digits spell, with a plus sign in front or not, whatever
/// whitespace stands around them, and every line that holds an index is such a line.
pub proof fn lines_hold_what_their_digits_spell(line: Seq<char>, digits: Seq<char>)
    requires
        digits.len() > 0,
        forall|i: int| 0 <= i < digits.len() ==> '0' <= #[trigger] digits[i] <= '9',
    ensures
        text::trim_of(line) == digits || text::trim_of(line) == seq!['+'] + digits ==> index_of(
            line,
        ) == if text::value_of(digits) <= usize::MAX {
            Some(text::value_of(digits) as usize)
        } else {
            None
        },
        index_of(line) matches Some(n) ==> exists|d: Seq<char>|
            {
                &&& d.len() > 0
                &&& forall|i: int| 0 <= i < d.len() ==> '0' <= #[trigger] d[i] <= '9'
                &&& text::trim_of(line) == d || text::trim_of(line) == seq!['+'] + d
                &&& #[trigger] text::value_of(d) == n
            },
{
    let trimmed = text::trim_of(line);
    assert(forall|i: int| 0 <= i < digits.len() ==> text::is_digit(#[trigger] digits[i]));
    if trimmed == digits {
        assert('0' <= trimmed[0]);
        assert(unsigned_of(trimmed) == digits);
    } else if trimmed == seq!['+'] + digits {
        assert(unsigned_of(trimmed) =~= digits);
    }
    if let Some(n) = index_of(line) {
        let d = unsigned_of(trimmed);
        assert(forall|i: int| 0 <= i < d.len() ==> text::is_digit(#[trigger] d[i]));
        if trimmed[0] == '+' {
            assert(trimmed =~= seq!['+'] + d);
        }
        assert(text::value_of(d) == n);
    }
}

/// Indices are read line by line, in order: a line that holds one gives it, and one that
/// holds none gives nothing.
pub proof fn indices_are_read_line_by_line(
    a: Seq<Seq<char>>,
    b: Seq<Seq<char>>,
    line: Seq<char>,
)
    ensures
        indices_of(a + b) == indices_of(a) + indices_of(b),
        indices_of(seq![line]) == match index_of(line) {
            Some(n) => seq![n],
            None => Seq::<usize>::empty(),
        },
    decreases a.len(),
{
    assert(seq![line].drop_first() =~= seq![]);
    assert(indices_of(seq![line]) =~= match index_of(line) {
        Some(n) => seq![n],
        None => Seq::<usize>::empty(),
    }) by {
        reveal_with_fuel(indices_of, 2);
    }
    if a.len() == 0 {
        assert(a + b =~= b);
        assert(indices_of(a) + indices_of(b) =~= indices_of(b));
    } else {
        indices_are_read_line_by_line(a.drop_first(), b, line);
        assert((a + b).drop_first() =~= a.drop_first() + b);
        assert(indices_of(a + b) =~= indices_of(a) + indices_of(b));
    }
}

/// The streams are the indices in the lines of the output, which is read as text with marks
/// for what is none.
pub proof fn streams_are_listed_by_line(stdout: Seq<u8>)
    ensures
        streams_of(stdout) == indices_of(lines_of(stitch::lossy_of(stdout))),
{
}

/// Lists join with a comma and a space between them; one number is listed as itself.
pub proof fn lists_join_with_commas(a: Seq<usize>, b: Seq<usize>, n: usize)
    requires
        a.len() > 0,
        b.len() > 0,
    ensures
        listed(a + b) == listed(a) + ", "@ + listed(b),
        listed(seq![n]) == text::decimal_of(n as nat),
    decreases b.len(),
{
    let all = a + b;
    let front = b.drop_last();
    let last = text::decimal_of(b.last() as nat);
    assert(all.last() == b.last());
    assert(all.drop_last() =~= a + front);
    if b.len() == 1 {
        assert(a + front =~= a);
        assert(listed(b) == last);
        assert(listed(all) =~= listed(a) + ", "@ + listed(b));
    } else {
        lists_join_with_commas(a, front, n);
        assert(listed(all) =~= listed(a) + ", "@ + listed(b));
    }
}

} // verus!
