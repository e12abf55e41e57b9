//! The transcript as text.

use crate::merge;
use crate::merge::{SpanView, Turn, TurnView};
use crate::segments::SegmentView;
use crate::speakers;
use crate::speakers::{Total, TotalView, MAX_SPEAKERS, MAX_TOTAL};
use crate::text;
use vstd::prelude::*;
use vstd::string::*;

verus! {

/// Samples in a second of decoded audio.
pub const SAMPLE_RATE: u32 = 16_000;

/// Nanoseconds in a second.
pub const NANOS_PER_SECOND: i128 = 1_000_000_000;

/// What every transcript says of itself.
pub const NOTES: &'static str =
    "\nnote: speaker labels come from voice clustering, not identity.\nnote: attribution is roughly 85% accurate by duration; errors concentrate in\n      short backchannels and rapid exchanges, not in long stretches of speech.\n\n";

/// `secs` whole seconds as minutes and seconds; none where there are less than none.
pub open spec fn mmss_of(secs: int) -> Seq<char> {
    let secs = if secs < 0 {
        0
    } else {
        secs
    };
    let minutes = if secs / 60 > u32::MAX {
        u32::MAX as int
    } else {
        secs / 60
    };
    text::padded(text::decimal_of(minutes as nat), 2, '0') + ":"@ + text::padded(
        text::decimal_of((secs % 60) as nat),
        2,
        '0',
    )
}

/// `num / den` rounded to the nearest integer, to the even one of two as near.
pub open spec fn rounded(num: int, den: int) -> int {
    let low = num / den;
    let rest = num % den;
    if 2 * rest < den || (2 * rest == den && low % 2 == 0) {
        low
    } else {
        low + 1
    }
}

/// The percentage that `nanos` of speech is of `samples` of audio, as text.
pub open spec fn share_of(nanos: int, samples: int) -> Seq<char> {
    if samples == 0 {
        if nanos == 0 {
            "NaN"@
        } else if nanos > 0 {
            "inf"@
        } else {
            "-inf"@
        }
    } else if nanos < 0 {
        "-"@ + text::decimal_of(
            rounded(-nanos * 100 * SAMPLE_RATE, samples * NANOS_PER_SECOND) as nat,
        )
    } else {
        text::decimal_of(rounded(nanos * 100 * SAMPLE_RATE, samples * NANOS_PER_SECOND) as nat)
    }
}

/// Whole seconds as minutes and seconds.
pub fn mmss(secs: i128) -> (res: String)
    ensures
        res@ == mmss_of(secs as int),
{
    let secs: i128 = if secs < 0 {
        0
    } else {
        secs
    };
    let mut minutes: u128 = secs as u128 / 60;
    if minutes > u32::MAX as u128 {
        minutes = u32::MAX as u128;
    }
    let mut res = String::new();
    text::push_padded(&mut res, minutes, 2, '0');
    res.append(":");
    text::push_padded(&mut res, secs as u128 % 60, 2, '0');
    assert(res@ =~= mmss_of(secs as int));
    res
}

/// The percentage that `nanos` of speech is of `samples` of audio.
pub fn share(nanos: i128, samples: usize) -> (res: String)
    requires
        -MAX_SPEAKERS * MAX_TOTAL <= nanos <= MAX_SPEAKERS * MAX_TOTAL,
    ensures
        res@ == share_of(nanos as int, samples as int),
{
    if samples == 0 {
        return if nanos == 0 {
            "NaN".to_owned()
        } else if nanos > 0 {
            "inf".to_owned()
        } else {
            "-inf".to_owned()
        };
    }
    let mut res = String::new();
    let mut size: i128 = nanos;
    if nanos < 0 {
        res.append("-");
        size = -nanos;
    }
    // Both sides of the fraction, over 100,000.
    let num: u128 = size as u128 * 16;
    let den: u128 = samples as u128 * 10_000;
    let low: u128 = num / den;
    let rest: u128 = num % den;
    let nearest: u128 = if 2 * rest < den || (2 * rest == den && low % 2 == 0) {
        low
    } else {
        low + 1
    };
    proof {
        lemma_reduce(num as int, den as int);
    }
    text::push_decimal(&mut res, nearest);
    assert(res@ =~= share_of(nanos as int, samples as int));
    res
}

proof fn lemma_reduce(num: int, den: int)
    requires
        num >= 0,
        den > 0,
    ensures
        rounded(num * 100_000, den * 100_000) == rounded(num, den),
{
    vstd::arithmetic::div_mod::lemma_fundamental_div_mod(num, den);
    let low = num / den;
    let rest = num % den;
    assert(0 <= rest < den);
    assert(num * 100_000 == (den * 100_000) * low + rest * 100_000) by (nonlinear_arith)
        requires
            num == den * low + rest,
    ;
    vstd::arithmetic::div_mod::lemma_fundamental_div_mod_converse(
        num * 100_000,
        den * 100_000,
        low,
        rest * 100_000,
    );
}

/// The entries of the first `n` speakers in the list of speakers.
pub open spec fn entries_of(totals: Seq<TotalView>, n: int) -> Seq<char>
    decreases n,
{
    if n <= 0 {
        seq![]
    } else {
        entries_of(totals, n - 1) + " "@.push(speakers::letter_of(totals, n - 1)) + "="@ + mmss_of(
            totals[n - 1].nanos as int / NANOS_PER_SECOND as int,
        )
    }
}

/// What comes before the turns.
pub open spec fn header_of(media: Seq<char>, samples: int, totals: Seq<TotalView>) -> Seq<char> {
    "source: "@ + media + "\nduration: "@ + mmss_of(samples / SAMPLE_RATE as int) + "\nspeech: "@
        + mmss_of(speakers::sum_of(totals) / NANOS_PER_SECOND as int) + " ("@ + share_of(
        speakers::sum_of(totals),
        samples,
    ) + "%)\nspeakers:"@ + entries_of(totals, totals.len() as int) + NOTES@
}

/// The line of one turn.
pub open spec fn line_of(totals: Seq<TotalView>, turn: TurnView) -> Seq<char> {
    "["@ + mmss_of(turn.t0 as int / 100) + "] "@.push(speakers::label_of(totals, turn.speaker))
        + ": "@ + turn.text + "\n"@
}

/// The lines of `turns`.
pub open spec fn lines_of(totals: Seq<TotalView>, turns: Seq<TurnView>) -> Seq<char>
    decreases turns.len(),
{
    if turns.len() == 0 {
        seq![]
    } else {
        lines_of(totals, turns.drop_last()) + line_of(totals, turns.last())
    }
}

/// The transcript of a recording.
pub open spec fn transcript_of(
    media: Seq<char>,
    samples: int,
    totals: Seq<TotalView>,
    turns: Seq<TurnView>,
) -> Seq<char> {
    header_of(media, samples, totals) + lines_of(totals, turns)
}

/// Nanoseconds as minutes and seconds.
fn push_nanos(out: &mut String, nanos: i128)
    ensures
        final(out)@ == old(out)@ + mmss_of(nanos as int / NANOS_PER_SECOND as int),
{
    let secs: i128 = if nanos < 0 {
        -1
    } else {
        nanos / NANOS_PER_SECOND
    };
    out.append(mmss(secs).as_str());
}

/// Renders the transcript of `samples` of audio from `media`.
#[verifier::spinoff_prover]
pub fn render(media: &str, samples: usize, totals: &[Total], turns: &[Turn]) -> (out: String)
    requires
        totals@.len() <= MAX_SPEAKERS,
        forall|k: int|
            0 <= k < totals@.len() ==> -MAX_TOTAL <= (#[trigger] totals@[k]).nanos <= MAX_TOTAL,
    ensures
        out@ == transcript_of(media@, samples as int, totals.deep_view(), turns.deep_view()),
{
    let ghost list = totals.deep_view();
    let ghost said = turns.deep_view();
    let mut speech: i128 = 0;
    let mut k: usize = 0;
    assert(list.take(0) =~= seq![]);
    while k < totals.len()
        invariant
            list == totals.deep_view(),
            k <= totals@.len() <= MAX_SPEAKERS,
            forall|k: int|
                0 <= k < totals@.len() ==> -MAX_TOTAL <= (#[trigger] totals@[k]).nanos
                    <= MAX_TOTAL,
            speech == speakers::sum_of(list.take(k as int)),
            -k * MAX_TOTAL <= speech <= k * MAX_TOTAL,
        decreases totals@.len() - k,
    {
        assert(list.take(k + 1).drop_last() =~= list.take(k as int));
        assert(list.take(k + 1).last() == totals@[k as int].deep_view());
        speech = speech + totals[k].nanos;
        k = k + 1;
    }
    assert(list.take(list.len() as int) =~= list);

    let mut out = "source: ".to_owned();
    out.append(media);
    out.append("\nduration: ");
    out.append(mmss((samples / SAMPLE_RATE as usize) as i128).as_str());
    out.append("\nspeech: ");
    push_nanos(&mut out, speech);
    out.append(" (");
    out.append(share(speech, samples).as_str());
    out.append("%)\nspeakers:");
    let ghost head = out@;
    let mut n: usize = 0;
    assert(out@ =~= head + entries_of(list, 0));
    while n < totals.len()
        invariant
            list == totals.deep_view(),
            n <= totals@.len() <= MAX_SPEAKERS,
            out@ == head + entries_of(list, n as int),
        decreases totals@.len() - n,
    {
        out.append(" ");
        out.push(speakers::letter(totals, n));
        out.append("=");
        push_nanos(&mut out, totals[n].nanos);
        n = n + 1;
        assert(out@ =~= head + entries_of(list, n as int));
    }
    out.append(NOTES);
    assert(out@ =~= header_of(media@, samples as int, list));
    let ghost header = out@;
    let mut i: usize = 0;
    assert(said.take(0) =~= seq![]);
    assert(out@ =~= header + lines_of(list, said.take(0)));
    while i < turns.len()
        invariant
            list == totals.deep_view(),
            said == turns.deep_view(),
            totals@.len() <= MAX_SPEAKERS,
            i <= turns@.len(),
            out@ == header + lines_of(list, said.take(i as int)),
        decreases turns@.len() - i,
    {
        let turn = &turns[i];
        assert(said.take(i + 1).drop_last() =~= said.take(i as int));
        assert(said.take(i + 1).last() == turn.deep_view());
        let secs: i128 = if turn.t0 < 0 {
            -1
        } else {
            turn.t0 as i128 / 100
        };
        out.append("[");
        out.append(mmss(secs).as_str());
        out.append("] ");
        out.push(speakers::label(totals, &turn.speaker));
        out.append(": ");
        out.append(turn.text.as_str());
        out.append("\n");
        i = i + 1;
        assert(out@ =~= header + lines_of(list, said.take(i as int)));
    }
    assert(said.take(said.len() as int) =~= said);
    out
}

/// Merged text is never shown under a question mark: whoever has a turn has a letter.
pub proof fn every_turn_is_labelled(
    texts: Seq<SegmentView>,
    diar: Seq<SpanView>,
    totals: Seq<TotalView>,
    i: int,
)
    requires
        speakers::is_totals(diar, totals),
        0 <= i < merge::turns_of(merge::pieces_of(texts, diar)).len(),
    ensures
        ({
            let speaker = merge::turns_of(merge::pieces_of(texts, diar))[i].speaker;
            exists|k: int|
                0 <= k < totals.len() && totals[k].speaker == speaker && speakers::label_of(
                    totals,
                    speaker,
                ) == #[trigger] speakers::letter_of(totals, k)
        }),
{
    let speaker = merge::turns_of(merge::pieces_of(texts, diar))[i].speaker;
    merge::speakers_were_heard(texts, diar);
    assert(speakers::is_heard(diar, speaker));
    assert(speakers::is_listed(totals, speaker));
    let k = choose|k: int| 0 <= k < totals.len() && (#[trigger] totals[k]).speaker == speaker;
    speakers::listed_speakers_have_letters(totals, k);
}

/// A number in two places, or more where it needs them.
proof fn lemma_two_places(n: nat)
    ensures
        ({
            let shown = text::padded(text::decimal_of(n), 2, '0');
            &&& shown.len() >= 2
            &&& forall|i: int| 0 <= i < shown.len() ==> '0' <= #[trigger] shown[i] <= '9'
            &&& text::value_of(shown) == n
            &&& shown.len() > 2 ==> shown[0] != '0'
            &&& n < 100 ==> shown.len() == 2
        }),
{
    let digits = text::decimal_of(n);
    let shown = text::padded(digits, 2, '0');
    text::decimal_reads_back(n);
    text::decimals_have_no_leading_zero(n);
    if digits.len() < 2 {
        let zero = seq!['0'];
        assert(text::repeated('0', 1) =~= zero);
        text::digits_count_by_their_place(zero, digits, '0');
        assert(0 * vstd::arithmetic::power::pow(10, digits.len()) == 0) by (nonlinear_arith);
        assert(shown =~= zero + digits);
    }
    if n < 100 {
        reveal_with_fuel(text::decimal_of, 3);
    }
}

/// A time reads back: the digits before the colon spell its whole minutes, as far as these
/// fit, and the two behind it the seconds left over. A time before the start shows as none.
pub proof fn times_read_back(secs: int) -> (shown: (Seq<char>, Seq<char>))
    ensures
        mmss_of(secs) == shown.0 + seq![':'] + shown.1,
        shown.0.len() >= 2,
        shown.0.len() > 2 ==> shown.0[0] != '0',
        shown.1.len() == 2,
        forall|i: int| 0 <= i < shown.0.len() ==> '0' <= #[trigger] shown.0[i] <= '9',
        forall|i: int| 0 <= i < shown.1.len() ==> '0' <= #[trigger] shown.1[i] <= '9',
        0 <= secs && secs / 60 <= u32::MAX ==> text::value_of(shown.0) * 60 + text::value_of(
            shown.1,
        ) == secs,
        0 <= secs ==> text::value_of(shown.1) == secs % 60,
        secs / 60 > u32::MAX ==> text::value_of(shown.0) == u32::MAX,
        secs < 0 ==> text::value_of(shown.0) == 0 && text::value_of(shown.1) == 0,
{
    reveal_strlit(":");
    let at = if secs < 0 {
        0
    } else {
        secs
    };
    let minutes = if at / 60 > u32::MAX {
        u32::MAX as int
    } else {
        at / 60
    };
    let m = text::padded(text::decimal_of(minutes as nat), 2, '0');
    let s = text::padded(text::decimal_of((at % 60) as nat), 2, '0');
    lemma_two_places(minutes as nat);
    lemma_two_places((at % 60) as nat);
    assert(mmss_of(secs) =~= m + seq![':'] + s);
    (m, s)
}

/// The line of a turn shows when it starts, who speaks and what they say: the minutes and
/// seconds in its brackets are those of its start, and the minutes go on past the hour.
pub proof fn lines_show_when_who_and_what(totals: Seq<TotalView>, turn: TurnView) -> (shown: (
    Seq<char>,
    Seq<char>,
))
    ensures
        line_of(totals, turn) == seq!['['] + shown.0 + seq![':'] + shown.1 + seq![
            ']',
            ' ',
            speakers::label_of(totals, turn.speaker),
            ':',
            ' ',
        ] + turn.text + seq!['\n'],
        shown.0.len() >= 2,
        shown.0.len() > 2 ==> shown.0[0] != '0',
        shown.1.len() == 2,
        forall|i: int| 0 <= i < shown.0.len() ==> '0' <= #[trigger] shown.0[i] <= '9',
        forall|i: int| 0 <= i < shown.1.len() ==> '0' <= #[trigger] shown.1[i] <= '9',
        0 <= turn.t0 && turn.t0 as int / 6000 <= u32::MAX ==> text::value_of(shown.0) * 60
            + text::value_of(shown.1) == turn.t0 as int / 100,
        0 <= turn.t0 ==> text::value_of(shown.1) == turn.t0 as int / 100 % 60,
        turn.t0 as int / 6000 > u32::MAX ==> text::value_of(shown.0) == u32::MAX,
        turn.t0 < 0 ==> text::value_of(shown.0) == 0 && text::value_of(shown.1) == 0,
{
    let shown = times_read_back(turn.t0 as int / 100);
    assert(turn.t0 as int / 100 / 60 == turn.t0 as int / 6000);
    reveal_strlit("[");
    reveal_strlit("] ");
    reveal_strlit(": ");
    reveal_strlit("\n");
    assert(line_of(totals, turn) =~= seq!['['] + shown.0 + seq![':'] + shown.1 + seq![
        ']',
        ' ',
        speakers::label_of(totals, turn.speaker),
        ':',
        ' ',
    ] + turn.text + seq!['\n']);
    shown
}

/// Of two turns, the one that starts later does not show the earlier time.
pub proof fn later_turns_show_later_times(
    totals: Seq<TotalView>,
    a: TurnView,
    b: TurnView,
) -> (shown: ((Seq<char>, Seq<char>), (Seq<char>, Seq<char>)))
    requires
        0 <= a.t0 <= b.t0,
        b.t0 as int / 6000 <= u32::MAX,
    ensures
        (seq!['['] + shown.0.0 + seq![':'] + shown.0.1 + seq![']']).is_prefix_of(
            line_of(totals, a),
        ),
        (seq!['['] + shown.1.0 + seq![':'] + shown.1.1 + seq![']']).is_prefix_of(
            line_of(totals, b),
        ),
        text::value_of(shown.0.0) * 60 + text::value_of(shown.0.1) <= text::value_of(shown.1.0) * 60
            + text::value_of(shown.1.1),
{
    let x = lines_show_when_who_and_what(totals, a);
    let y = lines_show_when_who_and_what(totals, b);
    (x, y)
}

/// The lines of turns follow one another, one line to a turn.
pub proof fn lines_follow_one_another(
    totals: Seq<TotalView>,
    a: Seq<TurnView>,
    b: Seq<TurnView>,
    one: TurnView,
)
    ensures
        lines_of(totals, a + b) == lines_of(totals, a) + lines_of(totals, b),
        lines_of(totals, seq![one]) == line_of(totals, one),
    decreases b.len(),
{
    assert(lines_of(totals, seq![one]) =~= line_of(totals, one)) by {
        reveal_with_fuel(lines_of, 2);
        assert(seq![one].drop_last() =~= seq![]);
    }
    if b.len() == 0 {
        assert(a + b =~= a);
        assert(lines_of(totals, a) + lines_of(totals, b) =~= lines_of(totals, a));
    } else {
        lines_follow_one_another(totals, a, b.drop_last(), one);
        assert((a + b).drop_last() =~= a + b.drop_last());
        assert((a + b).last() == b.last());
        assert(lines_of(totals, a + b) =~= lines_of(totals, a) + lines_of(totals, b));
    }
}

/// Each speaker's entry follows those before it, and shows their letter and how long they
/// talk.
pub proof fn entries_show_who_talks_how_long(totals: Seq<TotalView>, k: int) -> (shown: (
    Seq<char>,
    Seq<char>,
))
    requires
        0 <= k < totals.len(),
    ensures
        entries_of(totals, 0) == Seq::<char>::empty(),
        entries_of(totals, k + 1) == entries_of(totals, k) + seq![
            ' ',
            speakers::letter_of(totals, k),
            '=',
        ] + shown.0 + seq![':'] + shown.1,
        shown.0.len() >= 2,
        shown.0.len() > 2 ==> shown.0[0] != '0',
        shown.1.len() == 2,
        forall|i: int| 0 <= i < shown.0.len() ==> '0' <= #[trigger] shown.0[i] <= '9',
        forall|i: int| 0 <= i < shown.1.len() ==> '0' <= #[trigger] shown.1[i] <= '9',
        0 <= totals[k].nanos && totals[k].nanos as int / 60_000_000_000 <= u32::MAX
            ==> text::value_of(shown.0) * 60 + text::value_of(shown.1) == totals[k].nanos as int
            / 1_000_000_000,
        0 <= totals[k].nanos ==> text::value_of(shown.1) == totals[k].nanos as int / 1_000_000_000
            % 60,
        totals[k].nanos as int / 60_000_000_000 > u32::MAX ==> text::value_of(shown.0)
            == u32::MAX,
        totals[k].nanos < 0 ==> text::value_of(shown.0) == 0 && text::value_of(shown.1) == 0,
{
    let nanos = totals[k].nanos as int;
    let shown = times_read_back(nanos / 1_000_000_000);
    assert(nanos / 1_000_000_000 / 60 == nanos / 60_000_000_000);
    reveal_strlit(" ");
    reveal_strlit("=");
    assert(entries_of(totals, k + 1) =~= entries_of(totals, k) + seq![
        ' ',
        speakers::letter_of(totals, k),
        '=',
    ] + shown.0 + seq![':'] + shown.1);
    shown
}

/// A share is the nearest whole percentage, the even one of two as near; of less than no
/// speech it is that of as much speech, with a minus sign.
pub proof fn shares_are_nearest_percentages(nanos: int, samples: int) -> (percent: nat)
    requires
        0 <= nanos,
        0 < samples,
    ensures
        share_of(nanos, samples) == text::decimal_of(percent),
        nanos > 0 ==> share_of(-nanos, samples) == seq!['-'] + text::decimal_of(percent),
        ({
            let part = nanos * 100 * 16_000;
            let whole = samples * 1_000_000_000;
            let off = 2 * (percent * whole - part);
            &&& -whole <= off <= whole
            &&& off == whole || off == -whole ==> percent % 2 == 0
        }),
{
    reveal_strlit("-");
    let part = nanos * 100 * 16_000;
    let whole = samples * 1_000_000_000;
    let percent = rounded(part, whole);
    let low = part / whole;
    let rest = part % whole;
    vstd::arithmetic::div_mod::lemma_fundamental_div_mod(part, whole);
    vstd::arithmetic::div_mod::lemma_div_pos_is_pos(part, whole);
    assert(0 <= rest < whole);
    assert(whole * low == low * whole) by (nonlinear_arith);
    assert((low + 1) * whole == low * whole + whole) by (nonlinear_arith);
    assert(-(-nanos) == nanos);
    assert(share_of(nanos, samples) == text::decimal_of(percent as nat));
    percent as nat
}

/// Of no audio no share can be told.
pub proof fn shares_of_nothing_are_marked(nanos: int)
    ensures
        share_of(nanos, 0) == if nanos == 0 {
            "NaN"@
        } else if nanos > 0 {
            "inf"@
        } else {
            "-inf"@
        },
{
}

/// A transcript is its header and then the lines of its turns. The header names the source,
/// then says how long the recording and the speech in it are, what share the one is of the
/// other, and who talks how long; then it says what it is worth.
pub proof fn transcripts_open_with_a_header(
    media: Seq<char>,
    samples: int,
    totals: Seq<TotalView>,
    turns: Seq<TurnView>,
)
    ensures
        transcript_of(media, samples, totals, turns) == "source: "@ + media + "\nduration: "@
            + mmss_of(samples / 16_000) + "\nspeech: "@ + mmss_of(
            speakers::sum_of(totals) / 1_000_000_000,
        ) + " ("@ + share_of(speakers::sum_of(totals), samples) + "%)\nspeakers:"@ + entries_of(
            totals,
            totals.len() as int,
        )
            + "\nnote: speaker labels come from voice clustering, not identity.\nnote: attribution is roughly 85% accurate by duration; errors concentrate in\n      short backchannels and rapid exchanges, not in long stretches of speech.\n\n"@
            + lines_of(totals, turns),
{
}

/// Every turn has its line in the transcript, behind those of the turns before it.
pub proof fn transcripts_show_every_turn(
    media: Seq<char>,
    samples: int,
    totals: Seq<TotalView>,
    turns: Seq<TurnView>,
    i: int,
)
    requires
        0 <= i < turns.len(),
    ensures
        transcript_of(media, samples, totals, turns) == transcript_of(
            media,
            samples,
            totals,
            turns.take(i),
        ) + line_of(totals, turns[i]) + lines_of(totals, turns.skip(i + 1)),
{
    let head = turns.take(i);
    let tail = turns.skip(i + 1);
    let one = turns[i];
    lines_follow_one_another(totals, head, seq![one] + tail, one);
    lines_follow_one_another(totals, seq![one], tail, one);
    assert(head + (seq![one] + tail) =~= turns);
    assert(transcript_of(media, samples, totals, turns) =~= transcript_of(
        media,
        samples,
        totals,
        head,
    ) + line_of(totals, one) + lines_of(totals, tail));
}

} // verus!
