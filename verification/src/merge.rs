//! Attributing recognised text to speakers: each text goes to the speaker who overlaps it
//! most, all their stretches of speech taken together.
//!
//! Diarization doubles as the speech gate: recognition invents filler on long silences, and
//! reports a no-speech probability of zero while doing it, so a text segment that overlaps
//! no speaker at all is dropped rather than attributed.

use crate::segments::{SegmentView, TextSegment};
use crate::speakers;
use crate::text;
use vstd::prelude::*;
use vstd::string::*;

verus! {

/// Nanoseconds in a centisecond.
pub const NANOS_PER_CENTI: i128 = 10_000_000;

/// A stretch of speech of one speaker. Times are in nanoseconds.
#[derive(Debug)]
pub struct Span {
    pub start: i64,
    pub end: i64,
    pub speaker: String,
}

/// What one speaker says before another takes over. Times are in centiseconds.
#[derive(Debug)]
pub struct Turn {
    pub t0: i64,
    pub t1: i64,
    pub speaker: String,
    pub text: String,
}

/// What a [`Span`] holds.
pub struct SpanView {
    pub start: i64,
    pub end: i64,
    pub speaker: Seq<char>,
}

/// What a [`Turn`] holds.
pub struct TurnView {
    pub t0: i64,
    pub t1: i64,
    pub speaker: Seq<char>,
    pub text: Seq<char>,
}

impl DeepView for Span {
    type V = SpanView;

    open spec fn deep_view(&self) -> SpanView {
        SpanView { start: self.start, end: self.end, speaker: self.speaker@ }
    }
}

impl DeepView for Turn {
    type V = TurnView;

    open spec fn deep_view(&self) -> TurnView {
        TurnView { t0: self.t0, t1: self.t1, speaker: self.speaker@, text: self.text@ }
    }
}

/// How long `t` and `d` overlap, in nanoseconds; zero or less where they do not.
pub open spec fn overlap(t: SegmentView, d: SpanView) -> int {
    let end = if t.t1 * NANOS_PER_CENTI < d.end {
        t.t1 * NANOS_PER_CENTI
    } else {
        d.end as int
    };
    let start = if t.t0 * NANOS_PER_CENTI > d.start {
        t.t0 * NANOS_PER_CENTI
    } else {
        d.start as int
    };
    end - start
}

/// `t` overlaps some speech.
pub open spec fn is_speech(t: SegmentView, diar: Seq<SpanView>) -> bool {
    exists|i: int| 0 <= i < diar.len() && overlap(t, #[trigger] diar[i]) > 0
}

/// How long `speaker` speaks while `t` lasts, in nanoseconds: what `t` overlaps of all their
/// stretches of speech.
pub open spec fn shared_of(t: SegmentView, diar: Seq<SpanView>, speaker: Seq<char>) -> int
    decreases diar.len(),
{
    if diar.len() == 0 {
        0
    } else {
        let before = shared_of(t, diar.drop_last(), speaker);
        if diar.last().speaker == speaker && overlap(t, diar.last()) > 0 {
            before + overlap(t, diar.last())
        } else {
            before
        }
    }
}

/// No speaker overlaps `t` longer than that of `diar[i]`; of the stretches that overlap `t`,
/// it is the first by such a speaker.
pub open spec fn is_dominant(t: SegmentView, diar: Seq<SpanView>, i: int) -> bool {
    &&& 0 <= i < diar.len()
    &&& overlap(t, diar[i]) > 0
    &&& forall|j: int|
        0 <= j < diar.len() ==> shared_of(t, diar, (#[trigger] diar[j]).speaker) <= shared_of(
            t,
            diar,
            diar[i].speaker,
        )
    &&& forall|j: int|
        0 <= j < i && overlap(t, #[trigger] diar[j]) > 0 ==> shared_of(t, diar, diar[j].speaker)
            < shared_of(t, diar, diar[i].speaker)
}

/// Who says `t`.
pub open spec fn speaker_of(t: SegmentView, diar: Seq<SpanView>) -> Option<Seq<char>> {
    if is_speech(t, diar) {
        Some(diar[choose|i: int| is_dominant(t, diar, i)].speaker)
    } else {
        None
    }
}

/// `t` as a turn of its own, unless nobody says it or it says nothing.
pub open spec fn piece_of(t: SegmentView, diar: Seq<SpanView>) -> Option<TurnView> {
    match speaker_of(t, diar) {
        Some(speaker) if text::trim_of(t.text).len() > 0 => Some(
            TurnView { t0: t.t0, t1: t.t1, speaker, text: text::trim_of(t.text) },
        ),
        _ => None,
    }
}

/// The pieces of `texts`, in order.
pub open spec fn pieces_of(texts: Seq<SegmentView>, diar: Seq<SpanView>) -> Seq<TurnView>
    decreases texts.len(),
{
    if texts.len() == 0 {
        seq![]
    } else {
        let before = pieces_of(texts.drop_last(), diar);
        match piece_of(texts.last(), diar) {
            Some(piece) => before.push(piece),
            None => before,
        }
    }
}

/// How many of `texts` overlap no speech.
pub open spec fn dropped_of(texts: Seq<SegmentView>, diar: Seq<SpanView>) -> nat {
    texts.filter(|t: SegmentView| !is_speech(t, diar)).len()
}

/// `turns` with one more piece: it goes on with the last turn where the speaker is the
/// same, a space between the two, and is a turn of its own otherwise.
pub open spec fn with_piece(turns: Seq<TurnView>, piece: TurnView) -> Seq<TurnView> {
    if turns.len() > 0 && turns.last().speaker == piece.speaker {
        turns.drop_last().push(
            TurnView {
                t1: piece.t1,
                text: turns.last().text.push(' ') + piece.text,
                ..turns.last()
            },
        )
    } else {
        turns.push(piece)
    }
}

/// The turns that `pieces` make.
pub open spec fn turns_of(pieces: Seq<TurnView>) -> Seq<TurnView>
    decreases pieces.len(),
{
    if pieces.len() == 0 {
        seq![]
    } else {
        with_piece(turns_of(pieces.drop_last()), pieces.last())
    }
}

/// Of the first `n` stretches, those that overlap `t`, none is by a speaker who overlaps it
/// longer than that of `diar[i]`, and none before it by one who overlaps it as long.
spec fn leads(t: SegmentView, diar: Seq<SpanView>, i: int, n: int) -> bool {
    &&& 0 <= i < n
    &&& overlap(t, diar[i]) > 0
    &&& forall|j: int|
        0 <= j < n && overlap(t, #[trigger] diar[j]) > 0 ==> shared_of(t, diar, diar[j].speaker)
            <= shared_of(t, diar, diar[i].speaker)
    &&& forall|j: int|
        0 <= j < i && overlap(t, #[trigger] diar[j]) > 0 ==> shared_of(t, diar, diar[j].speaker)
            < shared_of(t, diar, diar[i].speaker)
}

/// Some of the first `n` stretches leads, unless none of them overlaps `t`.
proof fn lemma_one_leads(t: SegmentView, diar: Seq<SpanView>, n: int)
    requires
        0 <= n <= diar.len(),
    ensures
        (exists|i: int| leads(t, diar, i, n)) || (forall|j: int|
            0 <= j < n ==> overlap(t, #[trigger] diar[j]) <= 0),
    decreases n,
{
    if n > 0 {
        let m = n - 1;
        lemma_one_leads(t, diar, m);
        if exists|i: int| leads(t, diar, i, m) {
            let k = choose|i: int| leads(t, diar, i, m);
            if overlap(t, diar[m]) > 0 && shared_of(t, diar, diar[m].speaker) > shared_of(
                t,
                diar,
                diar[k].speaker,
            ) {
                assert(leads(t, diar, m, n));
            } else {
                assert(leads(t, diar, k, n));
            }
        } else if overlap(t, diar[m]) > 0 {
            assert(leads(t, diar, m, n));
        }
    }
}

/// A speaker shares time with `t` only through a stretch that overlaps it.
proof fn lemma_shared_comes_from_overlap(t: SegmentView, diar: Seq<SpanView>, speaker: Seq<char>)
    ensures
        shared_of(t, diar, speaker) >= 0,
        shared_of(t, diar, speaker) > 0 ==> exists|i: int|
            0 <= i < diar.len() && (#[trigger] diar[i]).speaker == speaker && overlap(t, diar[i])
                > 0,
    decreases diar.len(),
{
    if diar.len() > 0 {
        let before = diar.drop_last();
        let last = diar.len() - 1;
        lemma_shared_comes_from_overlap(t, before, speaker);
        if diar[last].speaker == speaker && overlap(t, diar[last]) > 0 {
            assert(shared_of(t, diar, speaker) > 0);
        } else if shared_of(t, before, speaker) > 0 {
            let i = choose|i: int|
                0 <= i < before.len() && (#[trigger] before[i]).speaker == speaker && overlap(
                    t,
                    before[i],
                ) > 0;
            assert(diar[i].speaker == speaker && overlap(t, diar[i]) > 0);
        }
    }
}

/// A speaker shares with `t` at least what any one of their stretches does.
proof fn lemma_overlap_is_shared(t: SegmentView, diar: Seq<SpanView>, i: int)
    requires
        0 <= i < diar.len(),
    ensures
        shared_of(t, diar, diar[i].speaker) >= overlap(t, diar[i]),
    decreases diar.len(),
{
    let before = diar.drop_last();
    lemma_shared_comes_from_overlap(t, before, diar[i].speaker);
    if i < before.len() {
        lemma_overlap_is_shared(t, before, i);
        assert(before[i] == diar[i]);
    }
}

/// Whoever leads among all stretches is dominant.
proof fn lemma_leader_is_dominant(t: SegmentView, diar: Seq<SpanView>, i: int)
    requires
        leads(t, diar, i, diar.len() as int),
    ensures
        is_dominant(t, diar, i),
{
    lemma_overlap_is_shared(t, diar, i);
    assert forall|j: int| 0 <= j < diar.len() implies shared_of(
        t,
        diar,
        (#[trigger] diar[j]).speaker,
    ) <= shared_of(t, diar, diar[i].speaker) by {
        let speaker = diar[j].speaker;
        lemma_shared_comes_from_overlap(t, diar, speaker);
        if shared_of(t, diar, speaker) > 0 {
            let k = choose|k: int|
                0 <= k < diar.len() && (#[trigger] diar[k]).speaker == speaker && overlap(
                    t,
                    diar[k],
                ) > 0;
            assert(shared_of(t, diar, diar[k].speaker) <= shared_of(t, diar, diar[i].speaker));
        }
    }
}

/// Some stretch of speech is dominant wherever there is one that overlaps, and no two are.
pub proof fn one_span_is_dominant(t: SegmentView, diar: Seq<SpanView>)
    ensures
        is_speech(t, diar) <==> exists|i: int| is_dominant(t, diar, i),
        forall|i: int, j: int|
            is_dominant(t, diar, i) && is_dominant(t, diar, j) ==> i == j,
{
    assert forall|i: int, j: int|
        is_dominant(t, diar, i) && is_dominant(t, diar, j) implies i == j by {
        assert(shared_of(t, diar, diar[i].speaker) <= shared_of(t, diar, diar[j].speaker));
        assert(shared_of(t, diar, diar[j].speaker) <= shared_of(t, diar, diar[i].speaker));
    }
    let n = diar.len() as int;
    lemma_one_leads(t, diar, n);
    if is_speech(t, diar) {
        let k = choose|i: int| leads(t, diar, i, n);
        assert(leads(t, diar, k, n));
        lemma_leader_is_dominant(t, diar, k);
    }
}

/// The speaker of `t` is that of the dominant stretch.
proof fn lemma_speaker_is_dominant(t: SegmentView, diar: Seq<SpanView>, i: int)
    requires
        is_dominant(t, diar, i),
    ensures
        speaker_of(t, diar) == Some(diar[i].speaker),
{
    one_span_is_dominant(t, diar);
    let k = choose|k: int| is_dominant(t, diar, k);
    assert(is_dominant(t, diar, k));
}

/// Text goes to whoever overlaps it most: they overlap it, and nobody overlaps it longer.
/// Where nobody overlaps it, it goes to nobody.
pub proof fn text_goes_to_whoever_overlaps_it_most(
    t: SegmentView,
    diar: Seq<SpanView>,
    other: Seq<char>,
)
    ensures
        match speaker_of(t, diar) {
            Some(speaker) => {
                &&& shared_of(t, diar, speaker) > 0
                &&& shared_of(t, diar, other) <= shared_of(t, diar, speaker)
            },
            None => shared_of(t, diar, other) == 0,
        },
{
    lemma_shared_comes_from_overlap(t, diar, other);
    if is_speech(t, diar) {
        one_span_is_dominant(t, diar);
        let i = choose|i: int| is_dominant(t, diar, i);
        assert(is_dominant(t, diar, i));
        lemma_overlap_is_shared(t, diar, i);
        if shared_of(t, diar, other) > 0 {
            let k = choose|k: int|
                0 <= k < diar.len() && (#[trigger] diar[k]).speaker == other && overlap(t, diar[k])
                    > 0;
            assert(shared_of(t, diar, diar[k].speaker) <= shared_of(t, diar, diar[i].speaker));
        }
    }
}

/// How long `t` and `d` overlap, in nanoseconds; zero or less where they do not.
fn measure(t: &TextSegment, d: &Span) -> (res: i128)
    ensures
        res == overlap(t.deep_view(), d.deep_view()),
{
    let t0: i128 = t.t0 as i128 * NANOS_PER_CENTI;
    let t1: i128 = t.t1 as i128 * NANOS_PER_CENTI;
    let start: i128 = d.start as i128;
    let end: i128 = d.end as i128;
    (if t1 < end {
        t1
    } else {
        end
    }) - (if t0 > start {
        t0
    } else {
        start
    })
}

/// How long `speaker` speaks while `t` lasts, in nanoseconds.
fn shared(t: &TextSegment, diar: &[Span], speaker: &String) -> (res: u128)
    ensures
        res == shared_of(t.deep_view(), diar.deep_view(), speaker@),
{
    let ghost seg = t.deep_view();
    let ghost spans = diar.deep_view();
    let mut sum: u128 = 0;
    let mut i: usize = 0;
    assert(spans.take(0) =~= seq![]);
    while i < diar.len()
        invariant
            i <= diar@.len(),
            seg == t.deep_view(),
            spans == diar.deep_view(),
            sum == shared_of(seg, spans.take(i as int), speaker@),
            sum <= i * 0xffff_ffff_ffff_ffff,
        decreases diar@.len() - i,
    {
        assert(spans.take(i + 1).drop_last() =~= spans.take(i as int));
        assert(spans.take(i + 1).last() == diar@[i as int].deep_view());
        let both: i128 = measure(t, &diar[i]);
        assert(both <= 0xffff_ffff_ffff_ffff);
        if diar[i].speaker == *speaker && both > 0 {
            sum = sum + both as u128;
        }
        i = i + 1;
    }
    assert(spans.take(spans.len() as int) =~= spans);
    sum
}

/// The first stretch of speech, of those that overlap `t`, by a speaker who overlaps it most.
fn dominant(t: &TextSegment, diar: &[Span]) -> (res: Option<usize>)
    ensures
        match res {
            Some(i) => is_dominant(t.deep_view(), diar.deep_view(), i as int),
            None => !is_speech(t.deep_view(), diar.deep_view()),
        },
{
    let ghost seg = t.deep_view();
    let ghost spans = diar.deep_view();
    let mut top: Option<usize> = None;
    let mut longest: u128 = 0;
    let mut i: usize = 0;
    while i < diar.len()
        invariant
            i <= diar@.len(),
            seg == t.deep_view(),
            spans == diar.deep_view(),
            match top {
                Some(k) => {
                    &&& leads(seg, spans, k as int, i as int)
                    &&& longest == shared_of(seg, spans, spans[k as int].speaker)
                },
                None => {
                    &&& longest == 0
                    &&& forall|j: int| 0 <= j < i ==> overlap(seg, #[trigger] spans[j]) <= 0
                },
            },
        decreases diar@.len() - i,
    {
        assert(spans[i as int] == diar@[i as int].deep_view());
        if measure(t, &diar[i]) > 0 {
            let time: u128 = shared(t, diar, &diar[i].speaker);
            proof {
                lemma_overlap_is_shared(seg, spans, i as int);
            }
            if time > longest {
                top = Some(i);
                longest = time;
            }
        }
        i = i + 1;
    }
    proof {
        if let Some(k) = top {
            lemma_leader_is_dominant(seg, spans, k as int);
        }
    }
    top
}

/// Merges recognised text with who spoke when: the turns, and how many text segments were
/// dropped because they overlap no speech.
pub fn merge(texts: &[TextSegment], diar: &[Span]) -> (res: (Vec<Turn>, usize))
    ensures
        res.0.deep_view() == turns_of(pieces_of(texts.deep_view(), diar.deep_view())),
        res.1 == dropped_of(texts.deep_view(), diar.deep_view()),
{
    let ghost all = texts.deep_view();
    let ghost spans = diar.deep_view();
    let mut turns: Vec<Turn> = Vec::new();
    let mut dropped: usize = 0;
    let mut i: usize = 0;
    assert(turns.deep_view() =~= turns_of(pieces_of(all.take(0), spans)));
    assert(dropped_of(all.take(0), spans) == 0) by {
        reveal(Seq::filter);
    }
    while i < texts.len()
        invariant
            i <= texts@.len(),
            dropped <= i,
            all == texts.deep_view(),
            spans == diar.deep_view(),
            turns.deep_view() == turns_of(pieces_of(all.take(i as int), spans)),
            dropped == dropped_of(all.take(i as int), spans),
        decreases texts@.len() - i,
    {
        let t = &texts[i];
        let ghost seen = all.take(i + 1);
        proof {
            assert(seen.drop_last() =~= all.take(i as int));
            assert(seen.last() == t.deep_view());
            one_span_is_dominant(t.deep_view(), spans);
            reveal(Seq::filter);
        }
        i = i + 1;
        match dominant(t, diar) {
            None => {
                dropped = dropped + 1;
            },
            Some(k) => {
                let said = text::trim(t.text.as_str());
                proof {
                    lemma_speaker_is_dominant(t.deep_view(), spans, k as int);
                }
                if !said.as_str().is_empty() {
                    let ghost before = turns.deep_view();
                    let ghost piece = piece_of(t.deep_view(), spans)->0;
                    let ghost pieces = pieces_of(seen, spans);
                    assert(pieces.drop_last() =~= pieces_of(seen.drop_last(), spans));
                    let speaker = diar[k].speaker.clone();
                    let same = turns.len() > 0 && turns[turns.len() - 1].speaker == speaker;
                    if same {
                        let mut last = turns.pop().unwrap();
                        // A space marks the segment boundary without inventing punctuation.
                        last.text.push(' ');
                        last.text.append(said.as_str());
                        last.t1 = t.t1;
                        turns.push(last);
                    } else {
                        turns.push(Turn { t0: t.t0, t1: t.t1, speaker, text: said });
                    }
                    assert(turns.deep_view() =~= with_piece(before, piece));
                }
            },
        }
    }
    assert(all.take(all.len() as int) =~= all);
    (turns, dropped)
}

/// The line that reports dropped text segments, where there are any.
pub fn dropped_notice(dropped: usize) -> (res: Option<String>)
    ensures
        match res {
            Some(line) => {
                &&& dropped > 0
                &&& line@ == "dropped "@ + text::decimal_of(dropped as nat)
                    + " text segments with no overlapping speech"@
            },
            None => dropped == 0,
        },
{
    if dropped == 0 {
        return None;
    }
    let mut line = "dropped ".to_owned();
    text::push_decimal(&mut line, dropped as u128);
    line.append(" text segments with no overlapping speech");
    Some(line)
}

/// Where in `pieces` a speaker takes over from another.
pub open spec fn starts_of(pieces: Seq<TurnView>) -> Seq<int>
    decreases pieces.len(),
{
    if pieces.len() == 0 {
        seq![]
    } else {
        let n = pieces.len() as int;
        let before = starts_of(pieces.drop_last());
        if n >= 2 && pieces[n - 2].speaker == pieces[n - 1].speaker {
            before
        } else {
            before.push(n - 1)
        }
    }
}

/// Where the `k`th run of `pieces` by one speaker ends.
pub open spec fn end_of(pieces: Seq<TurnView>, k: int) -> int {
    if k + 1 < starts_of(pieces).len() {
        starts_of(pieces)[k + 1]
    } else {
        pieces.len() as int
    }
}

/// The texts of `pieces`, a space between any two.
pub open spec fn spaced(pieces: Seq<TurnView>) -> Seq<char>
    decreases pieces.len(),
{
    if pieces.len() == 0 {
        seq![]
    } else if pieces.len() == 1 {
        pieces[0].text
    } else {
        spaced(pieces.drop_last()).push(' ') + pieces.last().text
    }
}

/// A run of pieces as one turn: from the start of the first to the end of the last.
pub open spec fn run_of(pieces: Seq<TurnView>) -> TurnView
    recommends
        pieces.len() > 0,
{
    TurnView {
        t0: pieces.first().t0,
        t1: pieces.last().t1,
        speaker: pieces.first().speaker,
        text: spaced(pieces),
    }
}

proof fn lemma_first_start(pieces: Seq<TurnView>)
    requires
        pieces.len() > 0,
    ensures
        starts_of(pieces).len() > 0,
        starts_of(pieces)[0] == 0,
    decreases pieces.len(),
{
    if pieces.len() > 1 {
        lemma_first_start(pieces.drop_last());
    } else {
        assert(starts_of(pieces.drop_last()) =~= seq![]);
    }
}

proof fn lemma_run_bounds(pieces: Seq<TurnView>, k: int)
    requires
        0 <= k < starts_of(pieces).len(),
    ensures
        0 <= starts_of(pieces)[k] < end_of(pieces, k) <= pieces.len(),
    decreases pieces.len(),
{
    let before = pieces.drop_last();
    if k < starts_of(before).len() {
        lemma_run_bounds(before, k);
    }
}

/// All pieces of a run are by the speaker who starts it.
proof fn lemma_run_speaker(pieces: Seq<TurnView>, k: int, i: int)
    requires
        0 <= k < starts_of(pieces).len(),
        starts_of(pieces)[k] <= i < end_of(pieces, k),
    ensures
        pieces[i].speaker == pieces[starts_of(pieces)[k]].speaker,
    decreases pieces.len(),
{
    let before = pieces.drop_last();
    let n = before.len() as int;
    lemma_run_bounds(pieces, k);
    if k < starts_of(before).len() {
        let start = starts_of(before)[k];
        lemma_run_bounds(before, k);
        assert(start == starts_of(pieces)[k]);
        assert(before[start] == pieces[start]);
        if i < n {
            lemma_run_speaker(before, k, i);
            assert(before[i] == pieces[i]);
        } else {
            lemma_run_speaker(before, k, n - 1);
            assert(before[n - 1] == pieces[n - 1]);
        }
    }
}

/// A run starts where another speaker ended.
proof fn lemma_run_is_news(pieces: Seq<TurnView>, k: int)
    requires
        0 < k < starts_of(pieces).len(),
    ensures
        0 < starts_of(pieces)[k] < pieces.len(),
        pieces[starts_of(pieces)[k]].speaker != pieces[starts_of(pieces)[k] - 1].speaker,
    decreases pieces.len(),
{
    let before = pieces.drop_last();
    lemma_run_bounds(pieces, k - 1);
    lemma_run_bounds(pieces, k);
    if k < starts_of(before).len() {
        let start = starts_of(before)[k];
        lemma_run_is_news(before, k);
        assert(start == starts_of(pieces)[k]);
        assert(before[start] == pieces[start]);
        assert(before[start - 1] == pieces[start - 1]);
    }
}

/// `starts_of` cuts `pieces` into runs of one speaker each, as long as they can be.
pub proof fn runs_are_maximal(pieces: Seq<TurnView>)
    ensures
        pieces.len() > 0 ==> starts_of(pieces).len() > 0 && starts_of(pieces)[0] == 0,
        forall|k: int|
            0 <= k < starts_of(pieces).len() ==> 0 <= #[trigger] starts_of(pieces)[k] < end_of(
                pieces,
                k,
            ) <= pieces.len(),
        forall|k: int, i: int|
            0 <= k < starts_of(pieces).len() && starts_of(pieces)[k] <= i < end_of(pieces, k)
                ==> (#[trigger] pieces[i]).speaker == pieces[#[trigger] starts_of(
                pieces,
            )[k]].speaker,
        forall|k: int|
            0 < k < starts_of(pieces).len() ==> pieces[#[trigger] starts_of(pieces)[k]].speaker
                != pieces[starts_of(pieces)[k] - 1].speaker,
{
    if pieces.len() > 0 {
        lemma_first_start(pieces);
    }
    assert forall|k: int| 0 <= k < starts_of(pieces).len() implies 0 <= #[trigger] starts_of(
        pieces,
    )[k] < end_of(pieces, k) <= pieces.len() by {
        lemma_run_bounds(pieces, k);
    }
    assert forall|k: int, i: int|
        0 <= k < starts_of(pieces).len() && starts_of(pieces)[k] <= i < end_of(
            pieces,
            k,
        ) implies (#[trigger] pieces[i]).speaker == pieces[#[trigger] starts_of(
        pieces,
    )[k]].speaker by {
        lemma_run_speaker(pieces, k, i);
    }
    assert forall|k: int| 0 < k < starts_of(pieces).len() implies pieces[#[trigger] starts_of(
        pieces,
    )[k]].speaker != pieces[starts_of(pieces)[k] - 1].speaker by {
        lemma_run_is_news(pieces, k);
    }
}

proof fn lemma_turn_count(pieces: Seq<TurnView>)
    ensures
        turns_of(pieces).len() == starts_of(pieces).len(),
        pieces.len() > 0 ==> {
            &&& turns_of(pieces).len() > 0
            &&& turns_of(pieces).last().speaker == pieces.last().speaker
        },
    decreases pieces.len(),
{
    if pieces.len() > 0 {
        lemma_turn_count(pieces.drop_last());
        if pieces.len() >= 2 {
            assert(pieces.drop_last().last() == pieces[pieces.len() - 2]);
        }
    }
}

proof fn lemma_turn_is_run(pieces: Seq<TurnView>, k: int)
    requires
        0 <= k < starts_of(pieces).len(),
    ensures
        k < turns_of(pieces).len(),
        turns_of(pieces)[k] == run_of(pieces.subrange(starts_of(pieces)[k], end_of(pieces, k))),
    decreases pieces.len(),
{
    let before = pieces.drop_last();
    let m = starts_of(before).len() as int;
    let now = pieces.subrange(starts_of(pieces)[k], end_of(pieces, k));
    lemma_turn_count(pieces);
    lemma_turn_count(before);
    lemma_run_bounds(pieces, k);
    if k < m {
        let was = before.subrange(starts_of(before)[k], end_of(before, k));
        lemma_run_bounds(before, k);
        lemma_turn_is_run(before, k);
        if k == m - 1 && starts_of(pieces).len() == m {
            assert(now.drop_last() =~= was);
            assert(now.first() == was.first());
        } else {
            assert(now =~= was);
        }
    } else {
        assert(now =~= seq![pieces.last()]);
    }
}

/// The turns are the maximal runs of pieces by one speaker, each run in one turn: it keeps
/// the speaker, runs from the start of its first piece to the end of its last, and says
/// what they say with a space between any two. Nothing else goes into a turn.
pub proof fn turns_are_runs(pieces: Seq<TurnView>)
    ensures
        turns_of(pieces).len() == starts_of(pieces).len(),
        forall|k: int|
            0 <= k < turns_of(pieces).len() ==> #[trigger] turns_of(pieces)[k] == run_of(
                pieces.subrange(starts_of(pieces)[k], end_of(pieces, k)),
            ),
{
    lemma_turn_count(pieces);
    assert forall|k: int| 0 <= k < turns_of(pieces).len() implies #[trigger] turns_of(pieces)[k]
        == run_of(pieces.subrange(starts_of(pieces)[k], end_of(pieces, k))) by {
        lemma_turn_is_run(pieces, k);
    }
}

/// No two turns in a row have the same speaker.
pub proof fn neighbours_differ(pieces: Seq<TurnView>)
    ensures
        forall|k: int|
            0 < k < turns_of(pieces).len() ==> (#[trigger] turns_of(pieces)[k]).speaker != turns_of(
                pieces,
            )[k - 1].speaker,
{
    let starts = starts_of(pieces);
    lemma_turn_count(pieces);
    assert forall|k: int| 0 < k < turns_of(pieces).len() implies (#[trigger] turns_of(
        pieces,
    )[k]).speaker != turns_of(pieces)[k - 1].speaker by {
        lemma_turn_is_run(pieces, k - 1);
        lemma_turn_is_run(pieces, k);
        lemma_run_bounds(pieces, k - 1);
        lemma_run_bounds(pieces, k);
        lemma_run_speaker(pieces, k - 1, starts[k] - 1);
        lemma_run_is_news(pieces, k);
        assert(turns_of(pieces)[k - 1].speaker == pieces[starts[k - 1]].speaker);
        assert(turns_of(pieces)[k].speaker == pieces[starts[k]].speaker);
    }
}

proof fn lemma_piece_is_attributed(texts: Seq<SegmentView>, diar: Seq<SpanView>, k: int)
    requires
        0 <= k < pieces_of(texts, diar).len(),
    ensures
        speakers::is_heard(diar, pieces_of(texts, diar)[k].speaker),
    decreases texts.len(),
{
    let before = texts.drop_last();
    if k < pieces_of(before, diar).len() {
        lemma_piece_is_attributed(before, diar, k);
        assert(pieces_of(texts, diar)[k] == pieces_of(before, diar)[k]);
    } else {
        let t = texts.last();
        one_span_is_dominant(t, diar);
        let i = choose|i: int| is_dominant(t, diar, i);
        assert(is_dominant(t, diar, i));
        lemma_speaker_is_dominant(t, diar, i);
        assert(pieces_of(texts, diar)[k].speaker == diar[i].speaker);
    }
}

/// Whoever has a turn was heard: each turn's speaker is that of some stretch of speech.
pub proof fn speakers_were_heard(texts: Seq<SegmentView>, diar: Seq<SpanView>)
    ensures
        forall|k: int|
            0 <= k < turns_of(pieces_of(texts, diar)).len() ==> speakers::is_heard(
                diar,
                (#[trigger] turns_of(pieces_of(texts, diar))[k]).speaker,
            ),
{
    let pieces = pieces_of(texts, diar);
    lemma_turn_count(pieces);
    assert forall|k: int| 0 <= k < turns_of(pieces).len() implies speakers::is_heard(
        diar,
        (#[trigger] turns_of(pieces)[k]).speaker,
    ) by {
        let start = starts_of(pieces)[k];
        lemma_run_bounds(pieces, k);
        lemma_turn_is_run(pieces, k);
        assert(turns_of(pieces)[k].speaker == pieces[start].speaker);
        lemma_piece_is_attributed(texts, diar, start);
    }
}

/// The texts of `turns`, one after the other.
pub open spec fn all_said(turns: Seq<TurnView>) -> Seq<char>
    decreases turns.len(),
{
    if turns.len() == 0 {
        seq![]
    } else {
        all_said(turns.drop_last()) + turns.last().text
    }
}

/// The texts of those of `texts` that overlap speech, one after the other.
pub open spec fn all_spoken(texts: Seq<SegmentView>, diar: Seq<SpanView>) -> Seq<char>
    decreases texts.len(),
{
    if texts.len() == 0 {
        seq![]
    } else if is_speech(texts.last(), diar) {
        all_spoken(texts.drop_last(), diar) + texts.last().text
    } else {
        all_spoken(texts.drop_last(), diar)
    }
}

proof fn lemma_visible_pieces(texts: Seq<SegmentView>, diar: Seq<SpanView>)
    ensures
        text::visible_of(all_said(pieces_of(texts, diar))) == text::visible_of(
            all_spoken(texts, diar),
        ),
    decreases texts.len(),
{
    if texts.len() > 0 {
        let t = texts.last();
        let before = texts.drop_last();
        lemma_visible_pieces(before, diar);
        if is_speech(t, diar) {
            text::trimming_keeps_what_is_visible(t.text);
            text::lemma_visible_add(all_spoken(before, diar), t.text);
            if text::trim_of(t.text).len() > 0 {
                text::lemma_visible_add(
                    all_said(pieces_of(before, diar)),
                    text::trim_of(t.text),
                );
                assert(pieces_of(texts, diar).drop_last() =~= pieces_of(before, diar));
            } else {
                reveal_with_fuel(Seq::filter, 1);
                assert(text::visible_of(t.text) =~= seq![]);
                assert(text::visible_of(all_spoken(texts, diar)) =~= text::visible_of(
                    all_spoken(before, diar),
                ));
            }
        }
    }
}

proof fn lemma_visible_turns(pieces: Seq<TurnView>)
    ensures
        text::visible_of(all_said(turns_of(pieces))) == text::visible_of(all_said(pieces)),
    decreases pieces.len(),
{
    if pieces.len() > 0 {
        let before = turns_of(pieces.drop_last());
        let piece = pieces.last();
        let turns = turns_of(pieces);
        lemma_visible_turns(pieces.drop_last());
        text::lemma_visible_add(all_said(pieces.drop_last()), piece.text);
        text::lemma_visible_add(all_said(turns.drop_last()), turns.last().text);
        if before.len() > 0 && before.last().speaker == piece.speaker {
            let said = before.last().text;
            assert(turns.drop_last() =~= before.drop_last());
            text::lemma_visible_add(all_said(before.drop_last()), said);
            text::lemma_visible_add(said, seq![' ']);
            text::lemma_visible_one(' ');
            text::lemma_visible_add(said + seq![' '], piece.text);
            assert(said.push(' ') =~= said + seq![' ']);
            assert(text::visible_of(said) + Seq::<char>::empty() =~= text::visible_of(said));
            assert(text::visible_of(all_said(turns)) =~= text::visible_of(
                all_said(before.drop_last()),
            ) + text::visible_of(said) + text::visible_of(piece.text));
        } else {
            assert(turns.drop_last() =~= before);
        }
    }
}

/// Merging invents no text and loses none that was spoken: but for whitespace, the turns
/// say what the segments that overlap speech say, in their order.
pub proof fn turns_say_what_was_spoken(texts: Seq<SegmentView>, diar: Seq<SpanView>)
    ensures
        text::visible_of(all_said(turns_of(pieces_of(texts, diar)))) == text::visible_of(
            all_spoken(texts, diar),
        ),
{
    lemma_visible_pieces(texts, diar);
    lemma_visible_turns(pieces_of(texts, diar));
}

proof fn lemma_pieces_keep_the_order(texts: Seq<SegmentView>, diar: Seq<SpanView>)
    requires
        forall|i: int, j: int|
            0 <= i <= j < texts.len() ==> (#[trigger] texts[i]).t0 <= (#[trigger] texts[j]).t0,
    ensures
        forall|i: int, j: int|
            0 <= i <= j < pieces_of(texts, diar).len() ==> (#[trigger] pieces_of(
                texts,
                diar,
            )[i]).t0 <= (#[trigger] pieces_of(texts, diar)[j]).t0,
        forall|i: int|
            0 <= i < pieces_of(texts, diar).len() ==> (#[trigger] pieces_of(texts, diar)[i]).t0
                <= texts.last().t0,
    decreases texts.len(),
{
    if texts.len() > 0 {
        let before = texts.drop_last();
        lemma_pieces_keep_the_order(before, diar);
        assert(forall|i: int|
            0 <= i < pieces_of(before, diar).len() ==> (#[trigger] pieces_of(texts, diar)[i])
                == pieces_of(before, diar)[i]);
        if before.len() > 0 {
            assert(texts[before.len() - 1].t0 <= texts[before.len() as int].t0);
        }
    }
}

/// Turns come in the order of their segments: where those come in the order of their
/// starts, so do the turns.
pub proof fn turns_keep_the_order(texts: Seq<SegmentView>, diar: Seq<SpanView>)
    requires
        forall|i: int, j: int|
            0 <= i <= j < texts.len() ==> (#[trigger] texts[i]).t0 <= (#[trigger] texts[j]).t0,
    ensures
        forall|i: int, j: int|
            0 <= i <= j < turns_of(pieces_of(texts, diar)).len() ==> (#[trigger] turns_of(
                pieces_of(texts, diar),
            )[i]).t0 <= (#[trigger] turns_of(pieces_of(texts, diar))[j]).t0,
{
    let pieces = pieces_of(texts, diar);
    let turns = turns_of(pieces);
    lemma_pieces_keep_the_order(texts, diar);
    lemma_turn_count(pieces);
    assert forall|i: int, j: int| 0 <= i <= j < turns.len() implies (#[trigger] turns[i]).t0 <= (
    #[trigger] turns[j]).t0 by {
        lemma_turn_is_run(pieces, i);
        lemma_turn_is_run(pieces, j);
        lemma_run_bounds(pieces, i);
        lemma_run_bounds(pieces, j);
        lemma_starts_ascend(pieces, i, j);
        assert(turns[i].t0 == pieces[starts_of(pieces)[i]].t0);
        assert(turns[j].t0 == pieces[starts_of(pieces)[j]].t0);
    }
}

proof fn lemma_starts_ascend(pieces: Seq<TurnView>, i: int, j: int)
    requires
        0 <= i <= j < starts_of(pieces).len(),
    ensures
        starts_of(pieces)[i] <= starts_of(pieces)[j],
    decreases j,
{
    if i < j {
        lemma_starts_ascend(pieces, i, j - 1);
        lemma_run_bounds(pieces, j - 1);
    }
}

/// Texts that are attributed alike, one by one, merge alike.
proof fn lemma_alike(
    a: Seq<SegmentView>,
    heard: Seq<SpanView>,
    b: Seq<SegmentView>,
    diar: Seq<SpanView>,
)
    requires
        a.len() == b.len(),
        forall|i: int| 0 <= i < a.len() ==> piece_of(#[trigger] a[i], heard) == piece_of(b[i], diar),
        forall|i: int|
            0 <= i < a.len() ==> is_speech(#[trigger] a[i], heard) == is_speech(b[i], diar),
    ensures
        pieces_of(a, heard) == pieces_of(b, diar),
        dropped_of(a, heard) == dropped_of(b, diar),
    decreases a.len(),
{
    reveal(Seq::filter);
    if a.len() > 0 {
        let last = a.len() - 1;
        assert(forall|i: int| 0 <= i < last ==> #[trigger] a.drop_last()[i] == a[i]);
        lemma_alike(a.drop_last(), heard, b.drop_last(), diar);
        assert(piece_of(a[last], heard) == piece_of(b[last], diar));
        assert(is_speech(a[last], heard) == is_speech(b[last], diar));
    }
}

/// What is shared depends on the times of a text alone.
proof fn lemma_shared_by_times(
    t: SegmentView,
    u: SegmentView,
    diar: Seq<SpanView>,
    speaker: Seq<char>,
)
    requires
        t.t0 == u.t0,
        t.t1 == u.t1,
    ensures
        shared_of(t, diar, speaker) == shared_of(u, diar, speaker),
    decreases diar.len(),
{
    if diar.len() > 0 {
        lemma_shared_by_times(t, u, diar.drop_last(), speaker);
    }
}

proof fn lemma_attributed_by_times(t: SegmentView, u: SegmentView, diar: Seq<SpanView>)
    requires
        t.t0 == u.t0,
        t.t1 == u.t1,
    ensures
        is_speech(t, diar) == is_speech(u, diar),
        speaker_of(t, diar) == speaker_of(u, diar),
{
    assert(forall|i: int|
        0 <= i < diar.len() ==> overlap(t, #[trigger] diar[i]) == overlap(u, diar[i]));
    if is_speech(t, diar) {
        one_span_is_dominant(t, diar);
        let i = choose|i: int| is_dominant(t, diar, i);
        assert(is_dominant(t, diar, i));
        assert forall|j: int| 0 <= j < diar.len() implies shared_of(
            t,
            diar,
            (#[trigger] diar[j]).speaker,
        ) == shared_of(u, diar, diar[j].speaker) by {
            lemma_shared_by_times(t, u, diar, diar[j].speaker);
        }
        assert(is_dominant(u, diar, i));
        lemma_speaker_is_dominant(t, diar, i);
        lemma_speaker_is_dominant(u, diar, i);
    }
}

/// The no-speech value that recognition reports has no say: texts that differ in it alone
/// merge into the same turns, and as many are dropped.
pub proof fn no_speech_has_no_say(a: Seq<SegmentView>, b: Seq<SegmentView>, diar: Seq<SpanView>)
    requires
        a.len() == b.len(),
        forall|i: int|
            0 <= i < a.len() ==> {
                &&& (#[trigger] a[i]).t0 == b[i].t0
                &&& a[i].t1 == b[i].t1
                &&& a[i].text == b[i].text
            },
    ensures
        turns_of(pieces_of(a, diar)) == turns_of(pieces_of(b, diar)),
        dropped_of(a, diar) == dropped_of(b, diar),
{
    assert forall|i: int| 0 <= i < a.len() implies {
        &&& piece_of(#[trigger] a[i], diar) == piece_of(b[i], diar)
        &&& is_speech(a[i], diar) == is_speech(b[i], diar)
    } by {
        lemma_attributed_by_times(a[i], b[i], diar);
    }
    lemma_alike(a, diar, b, diar);
}

proof fn lemma_shared_without(
    t: SegmentView,
    diar: Seq<SpanView>,
    k: int,
    d: SpanView,
    speaker: Seq<char>,
)
    requires
        0 <= k <= diar.len(),
        overlap(t, d) <= 0,
    ensures
        shared_of(t, diar.insert(k, d), speaker) == shared_of(t, diar, speaker),
    decreases diar.len(),
{
    let more = diar.insert(k, d);
    if k == diar.len() {
        assert(more.drop_last() =~= diar);
    } else {
        lemma_shared_without(t, diar.drop_last(), k, d, speaker);
        assert(more.drop_last() =~= diar.drop_last().insert(k, d));
        assert(more.last() == diar.last());
    }
}

proof fn lemma_attributed_without(t: SegmentView, diar: Seq<SpanView>, k: int, d: SpanView)
    requires
        0 <= k <= diar.len(),
        overlap(t, d) <= 0,
    ensures
        is_speech(t, diar.insert(k, d)) == is_speech(t, diar),
        speaker_of(t, diar.insert(k, d)) == speaker_of(t, diar),
{
    let more = diar.insert(k, d);
    assert(more[k] == d);
    if is_speech(t, more) {
        let j = choose|j: int| 0 <= j < more.len() && overlap(t, #[trigger] more[j]) > 0;
        if j < k {
            assert(diar[j] == more[j]);
        } else {
            assert(diar[j - 1] == more[j]);
        }
    }
    if is_speech(t, diar) {
        one_span_is_dominant(t, diar);
        let i = choose|i: int| is_dominant(t, diar, i);
        assert(is_dominant(t, diar, i));
        let at = if i < k {
            i
        } else {
            i + 1
        };
        let speaker = diar[i].speaker;
        assert(more[at] == diar[i]);
        lemma_shared_without(t, diar, k, d, speaker);
        assert forall|j: int| 0 <= j < more.len() implies shared_of(
            t,
            more,
            (#[trigger] more[j]).speaker,
        ) <= shared_of(t, more, speaker) by {
            lemma_shared_without(t, diar, k, d, more[j].speaker);
            lemma_speaker_is_dominant(t, diar, i);
            text_goes_to_whoever_overlaps_it_most(t, diar, more[j].speaker);
        }
        assert forall|j: int| 0 <= j < at && overlap(t, #[trigger] more[j]) > 0 implies shared_of(
            t,
            more,
            more[j].speaker,
        ) < shared_of(t, more, speaker) by {
            lemma_shared_without(t, diar, k, d, more[j].speaker);
            if j < k {
                assert(diar[j] == more[j]);
            } else {
                assert(diar[j - 1] == more[j]);
            }
        }
        assert(is_dominant(t, more, at));
        lemma_speaker_is_dominant(t, diar, i);
        lemma_speaker_is_dominant(t, more, at);
    }
}

/// A stretch of speech that overlaps no text changes nothing, wherever it stands and whoever
/// speaks in it: the turns are the same, and as many texts are dropped.
pub proof fn speech_without_text_changes_nothing(
    texts: Seq<SegmentView>,
    diar: Seq<SpanView>,
    k: int,
    d: SpanView,
)
    requires
        0 <= k <= diar.len(),
        forall|i: int| 0 <= i < texts.len() ==> overlap(#[trigger] texts[i], d) <= 0,
    ensures
        turns_of(pieces_of(texts, diar.insert(k, d))) == turns_of(pieces_of(texts, diar)),
        dropped_of(texts, diar.insert(k, d)) == dropped_of(texts, diar),
{
    let more = diar.insert(k, d);
    assert forall|i: int| 0 <= i < texts.len() implies {
        &&& piece_of(#[trigger] texts[i], more) == piece_of(texts[i], diar)
        &&& is_speech(texts[i], more) == is_speech(texts[i], diar)
    } by {
        lemma_attributed_without(texts[i], diar, k, d);
    }
    lemma_alike(texts, more, texts, diar);
}

/// What a text and a stretch of speech overlap is the time that they have in common: as many
/// nanoseconds as lie in both. So a stretch within the text overlaps it by all its length.
pub proof fn overlap_is_the_time_in_common(t: SegmentView, d: SpanView)
    ensures
        ({
            let common = Set::new(
                |n: int|
                    t.t0 * 10_000_000 <= n < t.t1 * 10_000_000 && d.start <= n < d.end,
            );
            &&& common.finite()
            &&& overlap(t, d) > 0 ==> common.len() == overlap(t, d)
            &&& overlap(t, d) <= 0 ==> common.len() == 0
        }),
        t.t0 * 10_000_000 <= d.start < d.end <= t.t1 * 10_000_000 ==> overlap(t, d) == d.end
            - d.start,
{
    let common = Set::new(
        |n: int| t.t0 * 10_000_000 <= n < t.t1 * 10_000_000 && d.start <= n < d.end,
    );
    let low = if t.t0 * 10_000_000 > d.start {
        t.t0 * 10_000_000
    } else {
        d.start as int
    };
    if overlap(t, d) > 0 {
        vstd::set_lib::lemma_int_range(low, low + overlap(t, d));
        assert(common =~= vstd::set_lib::set_int_range(low, low + overlap(t, d)));
    } else {
        assert(common =~= Set::empty());
    }
}

/// A stretch that goes on longer while the text lasts overlaps it by just as much more.
pub proof fn longer_stretches_overlap_longer(t: SegmentView, a: SpanView, b: SpanView)
    requires
        a.start == b.start,
        a.end <= b.end,
        b.end <= t.t1 * 10_000_000,
        overlap(t, a) > 0,
    ensures
        overlap(t, b) == overlap(t, a) + (b.end - a.end),
{
}

/// Shared time adds up: over two lists of stretches it is the sum of both, and one stretch
/// counts what it overlaps, for its speaker and for nobody else.
pub proof fn shared_time_adds_up(
    t: SegmentView,
    a: Seq<SpanView>,
    b: Seq<SpanView>,
    one: SpanView,
    speaker: Seq<char>,
)
    ensures
        shared_of(t, a + b, speaker) == shared_of(t, a, speaker) + shared_of(t, b, speaker),
        shared_of(t, seq![one], speaker) == if one.speaker == speaker && overlap(t, one) > 0 {
            overlap(t, one)
        } else {
            0
        },
    decreases b.len(),
{
    reveal_with_fuel(shared_of, 2);
    assert(seq![one].drop_last() =~= seq![]);
    if b.len() == 0 {
        assert(a + b =~= a);
    } else {
        shared_time_adds_up(t, a, b.drop_last(), one, speaker);
        assert((a + b).drop_last() =~= a + b.drop_last());
        assert((a + b).last() == b.last());
    }
}

/// Of speakers who share the most time with a text, it goes to the first to overlap it.
pub proof fn ties_go_to_the_first_to_overlap(t: SegmentView, diar: Seq<SpanView>, i: int)
    requires
        0 <= i < diar.len(),
        overlap(t, diar[i]) > 0,
        forall|j: int|
            0 <= j < diar.len() ==> shared_of(t, diar, (#[trigger] diar[j]).speaker) <= shared_of(
                t,
                diar,
                diar[i].speaker,
            ),
        forall|j: int|
            0 <= j < i && overlap(t, #[trigger] diar[j]) > 0 ==> shared_of(
                t,
                diar,
                diar[j].speaker,
            ) < shared_of(t, diar, diar[i].speaker),
    ensures
        speaker_of(t, diar) == Some(diar[i].speaker),
{
    assert(is_dominant(t, diar, i));
    lemma_speaker_is_dominant(t, diar, i);
}

/// Text is speech where some stretch overlaps it, and only then has it a speaker.
pub proof fn speech_has_a_speaker(t: SegmentView, diar: Seq<SpanView>)
    ensures
        is_speech(t, diar) <==> exists|i: int|
            0 <= i < diar.len() && overlap(t, #[trigger] diar[i]) > 0,
        speaker_of(t, diar) is Some <==> is_speech(t, diar),
{
}

/// As many texts are dropped as have no speaker.
pub proof fn dropped_texts_are_counted(texts: Seq<SegmentView>, diar: Seq<SpanView>)
    ensures
        ({
            let lost = Set::new(
                |i: int| 0 <= i < texts.len() && speaker_of(texts[i], diar) is None,
            );
            lost.finite() && lost.len() == dropped_of(texts, diar)
        }),
    decreases texts.len(),
{
    reveal(Seq::filter);
    let lost = Set::new(|i: int| 0 <= i < texts.len() && speaker_of(texts[i], diar) is None);
    if texts.len() == 0 {
        assert(lost =~= Set::empty());
    } else {
        let before = texts.drop_last();
        let last = texts.len() - 1;
        let earlier = Set::new(
            |i: int| 0 <= i < before.len() && speaker_of(before[i], diar) is None,
        );
        dropped_texts_are_counted(before, diar);
        if speaker_of(texts.last(), diar) is None {
            assert(lost =~= earlier.insert(last));
        } else {
            assert(lost =~= earlier);
        }
    }
}

/// Every piece comes from a text of its own, in the order of the texts. It keeps the times,
/// goes to the text's speaker, and says what the text says without whitespace around it. A
/// text that no piece comes from has no speaker or says nothing.
pub proof fn pieces_keep_what_was_said(texts: Seq<SegmentView>, diar: Seq<SpanView>) -> (from: Seq<
    int,
>)
    ensures
        from.len() == pieces_of(texts, diar).len(),
        forall|j: int, k: int|
            0 <= j < k < from.len() ==> (#[trigger] from[j]) < (#[trigger] from[k]),
        forall|k: int|
            0 <= k < from.len() ==> {
                let piece = pieces_of(texts, diar)[k];
                let i = #[trigger] from[k];
                &&& 0 <= i < texts.len()
                &&& piece.t0 == texts[i].t0
                &&& piece.t1 == texts[i].t1
                &&& speaker_of(texts[i], diar) == Some(piece.speaker)
                &&& piece.text == text::trim_of(texts[i].text)
                &&& piece.text.len() > 0
            },
        forall|i: int|
            0 <= i < texts.len() && !from.contains(i) ==> speaker_of(#[trigger] texts[i], diar)
                is None || text::trim_of(texts[i].text).len() == 0,
    decreases texts.len(),
{
    if texts.len() == 0 {
        seq![]
    } else {
        let before = texts.drop_last();
        let last = texts.len() - 1;
        let earlier = pieces_keep_what_was_said(before, diar);
        let kept = piece_of(texts.last(), diar) is Some;
        let from = if kept {
            earlier.push(last)
        } else {
            earlier
        };
        assert forall|k: int| 0 <= k < from.len() implies {
            let piece = pieces_of(texts, diar)[k];
            let i = #[trigger] from[k];
            &&& 0 <= i < texts.len()
            &&& piece.t0 == texts[i].t0
            &&& piece.t1 == texts[i].t1
            &&& speaker_of(texts[i], diar) == Some(piece.speaker)
            &&& piece.text == text::trim_of(texts[i].text)
            &&& piece.text.len() > 0
        } by {
            if k < earlier.len() {
                let i = earlier[k];
                assert(from[k] == i);
                assert(texts[i] == before[i]);
                assert(pieces_of(texts, diar)[k] == pieces_of(before, diar)[k]);
            }
        }
        assert forall|i: int| 0 <= i < texts.len() && !from.contains(i) implies speaker_of(
            #[trigger] texts[i],
            diar,
        ) is None || text::trim_of(texts[i].text).len() == 0 by {
            if i < last {
                if earlier.contains(i) {
                    let k = choose|k: int| 0 <= k < earlier.len() && earlier[k] == i;
                    assert(from[k] == i);
                }
                assert(before[i] == texts[i]);
            } else if kept {
                assert(from[earlier.len() as int] == last);
            }
        }
        from
    }
}

proof fn lemma_spaced(run: Seq<TurnView>)
    requires
        run.len() > 0,
    ensures
        spaced(run) == run[0].text + run.drop_first().map_values(
            |p: TurnView| seq![' '] + p.text,
        ).flatten(),
    decreases run.len(),
{
    let parts = run.drop_first().map_values(|p: TurnView| seq![' '] + p.text);
    if run.len() == 1 {
        assert(parts =~= seq![]);
        assert(spaced(run) =~= run[0].text + parts.flatten());
    } else {
        let front = run.drop_last();
        let fewer = front.drop_first().map_values(|p: TurnView| seq![' '] + p.text);
        let last = seq![' '] + run.last().text;
        lemma_spaced(front);
        assert(parts =~= fewer.push(last));
        fewer.lemma_flatten_push(last);
        assert(spaced(run) =~= run[0].text + parts.flatten());
    }
}

/// Turns join what one speaker says. Each has its run of pieces, and the runs follow one
/// another from the first piece to the last, none left out. A turn starts with the first
/// piece of its run and ends with the last; all are by its speaker, and it says what they
/// say with one space before each but the first. The piece before the run and the one behind
/// it are by others.
pub proof fn turns_join_what_one_speaker_says(pieces: Seq<TurnView>, k: int)
    requires
        0 <= k < turns_of(pieces).len(),
    ensures
        turns_of(pieces).len() == starts_of(pieces).len(),
        starts_of(pieces)[0] == 0,
        end_of(pieces, k) == if k + 1 < turns_of(pieces).len() {
            starts_of(pieces)[k + 1]
        } else {
            pieces.len() as int
        },
        ({
            let turn = turns_of(pieces)[k];
            let first = starts_of(pieces)[k];
            let next = end_of(pieces, k);
            &&& 0 <= first < next <= pieces.len()
            &&& turn.t0 == pieces[first].t0
            &&& turn.t1 == pieces[next - 1].t1
            &&& forall|i: int| first <= i < next ==> (#[trigger] pieces[i]).speaker == turn.speaker
            &&& turn.text == pieces[first].text + pieces.subrange(first + 1, next).map_values(
                |p: TurnView| seq![' '] + p.text,
            ).flatten()
            &&& 0 < first ==> pieces[first - 1].speaker != turn.speaker
            &&& next < pieces.len() ==> pieces[next].speaker != turn.speaker
        }),
{
    let first = starts_of(pieces)[k];
    let next = end_of(pieces, k);
    let run = pieces.subrange(first, next);
    let turn = turns_of(pieces)[k];
    lemma_turn_count(pieces);
    lemma_first_start(pieces);
    lemma_turn_is_run(pieces, k);
    lemma_run_bounds(pieces, k);
    assert forall|i: int| first <= i < next implies (#[trigger] pieces[i]).speaker
        == turn.speaker by {
        lemma_run_speaker(pieces, k, i);
    }
    lemma_spaced(run);
    assert(run.drop_first() =~= pieces.subrange(first + 1, next));
    if k > 0 {
        lemma_run_is_news(pieces, k);
    }
    if k + 1 < starts_of(pieces).len() {
        lemma_run_is_news(pieces, k + 1);
        assert(pieces[next - 1].speaker == turn.speaker);
    }
}

} // verus!
