//! From the segments that speech recognition reports to timed text.

use crate::stitch;
use crate::text;
use vstd::prelude::*;
use vstd::string::*;

verus! {

/// A segment as speech recognition reports it. Times are in centiseconds; the text is raw
/// bytes, which need not end at a character boundary.
pub struct RawSegment {
    pub start: i64,
    pub end: i64,
    pub bytes: Vec<u8>,
    /// The bit pattern of the reported single-precision no-speech probability.
    pub no_speech: u32,
}

/// A stretch of recognised text. Times are in centiseconds.
#[derive(Debug, Clone)]
pub struct TextSegment {
    pub t0: i64,
    pub t1: i64,
    pub text: String,
    /// The bit pattern of the reported single-precision no-speech probability.
    pub no_speech: u32,
}

/// What a [`RawSegment`] holds.
pub struct RawView {
    pub start: i64,
    pub end: i64,
    pub bytes: Seq<u8>,
    pub no_speech: u32,
}

/// What a [`TextSegment`] holds.
pub struct SegmentView {
    pub t0: i64,
    pub t1: i64,
    pub text: Seq<char>,
    pub no_speech: u32,
}

impl DeepView for RawSegment {
    type V = RawView;

    open spec fn deep_view(&self) -> RawView {
        RawView {
            start: self.start,
            end: self.end,
            bytes: self.bytes@,
            no_speech: self.no_speech,
        }
    }
}

impl DeepView for TextSegment {
    type V = SegmentView;

    open spec fn deep_view(&self) -> SegmentView {
        SegmentView { t0: self.t0, t1: self.t1, text: self.text@, no_speech: self.no_speech }
    }
}

/// The bytes still held back once `raw` has been decoded.
pub open spec fn carry_after(raw: Seq<Option<RawView>>) -> Seq<u8>
    decreases raw.len(),
{
    if raw.len() == 0 {
        seq![]
    } else {
        match raw.last() {
            Some(r) => stitch::held_of(carry_after(raw.drop_last()) + r.bytes),
            None => carry_after(raw.drop_last()),
        }
    }
}

/// The text that the last segment of `raw` adds.
pub open spec fn last_text(raw: Seq<Option<RawView>>) -> Seq<char>
    recommends
        raw.len() > 0,
{
    match raw.last() {
        Some(r) => stitch::text_of(carry_after(raw.drop_last()) + r.bytes),
        None => seq![],
    }
}

/// The timed text of `raw`: each segment that was reported, with its bytes decoded behind
/// what the segments before it left over, unless that is nothing but whitespace.
pub open spec fn transcribed(raw: Seq<Option<RawView>>) -> Seq<SegmentView>
    decreases raw.len(),
{
    if raw.len() == 0 {
        seq![]
    } else {
        let before = transcribed(raw.drop_last());
        match raw.last() {
            Some(r) if text::trim_of(last_text(raw)).len() > 0 => before.push(
                SegmentView {
                    t0: r.start,
                    t1: r.end,
                    text: last_text(raw),
                    no_speech: r.no_speech,
                },
            ),
            _ => before,
        }
    }
}

/// Turns reported segments into timed text, and counts the trailing bytes that form no
/// character. `None` stands for a segment that could not be read.
pub fn transcribe(raw: &[Option<RawSegment>]) -> (res: (Vec<TextSegment>, usize))
    ensures
        res.0.deep_view() == transcribed(raw.deep_view()),
        res.1 == carry_after(raw.deep_view()).len(),
{
    let ghost all = raw.deep_view();
    let mut carry: Vec<u8> = Vec::new();
    let mut out: Vec<TextSegment> = Vec::new();
    let mut i: usize = 0;
    assert(out.deep_view() =~= transcribed(all.take(0)));
    while i < raw.len()
        invariant
            all == raw.deep_view(),
            i <= raw@.len(),
            carry@ == carry_after(all.take(i as int)),
            out.deep_view() == transcribed(all.take(i as int)),
        decreases raw@.len() - i,
    {
        let ghost seen = all.take(i + 1);
        assert(seen.drop_last() =~= all.take(i as int));
        assert(seen.last() == raw@[i as int].deep_view());
        if let Some(seg) = &raw[i] {
            let text = stitch::stitch(&mut carry, seg.bytes.as_slice());
            let trimmed = text::trim(text.as_str());
            if !trimmed.as_str().is_empty() {
                let ghost before = out.deep_view();
                out.push(
                    TextSegment { t0: seg.start, t1: seg.end, text, no_speech: seg.no_speech },
                );
                assert(out.deep_view() =~= before.push(out@.last().deep_view()));
            }
        }
        i = i + 1;
    }
    assert(all.take(all.len() as int) =~= all);
    (out, carry.len())
}

/// The line that reports trailing bytes, where there are any.
pub fn trailing_notice(trailing: usize) -> (res: Option<String>)
    ensures
        match res {
            Some(line) => {
                &&& trailing > 0
                &&& line@ == "discarded "@ + text::decimal_of(trailing as nat)
                    + " trailing bytes that form no character"@
            },
            None => trailing == 0,
        },
{
    if trailing == 0 {
        return None;
    }
    let mut line = "discarded ".to_owned();
    text::push_decimal(&mut line, trailing as u128);
    line.append(" trailing bytes that form no character");
    Some(line)
}

/// How many threads recognition runs on, given how many the machine offers, where that is
/// known.
pub fn num_threads(available: Option<usize>) -> (threads: i32)
    ensures
        threads == match available {
            Some(n) => if (n as i32) < 8 {
                n as i32
            } else {
                8
            },
            None => 4,
        },
{
    let threads: i32 = match available {
        Some(n) => n as i32,
        None => 4,
    };
    if threads < 8 {
        threads
    } else {
        8
    }
}

/// All bytes that `raw` reports, in order.
pub open spec fn all_bytes(raw: Seq<Option<RawView>>) -> Seq<u8>
    decreases raw.len(),
{
    if raw.len() == 0 {
        seq![]
    } else {
        match raw.last() {
            Some(r) => all_bytes(raw.drop_last()) + r.bytes,
            None => all_bytes(raw.drop_last()),
        }
    }
}

/// All text that `raw` decodes to, segment by segment.
pub open spec fn all_text(raw: Seq<Option<RawView>>) -> Seq<char>
    decreases raw.len(),
{
    if raw.len() == 0 {
        seq![]
    } else {
        all_text(raw.drop_last()) + last_text(raw)
    }
}

/// The texts of `segments`, one after the other.
pub open spec fn joined(segments: Seq<SegmentView>) -> Seq<char>
    decreases segments.len(),
{
    if segments.len() == 0 {
        seq![]
    } else {
        joined(segments.drop_last()) + segments.last().text
    }
}

/// Decoding segment by segment gives the text of all bytes in one piece, wherever the
/// segment boundaries fall, and holds back the same bytes at the end.
pub proof fn boundaries_do_not_matter(raw: Seq<Option<RawView>>)
    ensures
        all_text(raw) == stitch::text_of(all_bytes(raw)),
        carry_after(raw) == stitch::held_of(all_bytes(raw)),
    decreases raw.len(),
{
    if raw.len() > 0 {
        let before = raw.drop_last();
        boundaries_do_not_matter(before);
        match raw.last() {
            Some(r) => {
                let none = Seq::<u8>::empty();
                stitch::cuts_do_not_matter(none, all_bytes(before), r.bytes);
                assert(none + (all_bytes(before) + r.bytes) =~= all_bytes(raw));
                assert(none + all_bytes(before) =~= all_bytes(before));
            },
            None => {
                assert(all_text(before) + last_text(raw) =~= all_text(before));
            },
        }
    }
}

/// Only whitespace is left out: every other character of the decoded bytes is in the text
/// of some segment, in order.
pub proof fn nothing_visible_is_left_out(raw: Seq<Option<RawView>>)
    ensures
        text::visible_of(joined(transcribed(raw))) == text::visible_of(
            stitch::text_of(all_bytes(raw)),
        ),
    decreases raw.len(),
{
    boundaries_do_not_matter(raw);
    if raw.len() > 0 {
        let before = raw.drop_last();
        boundaries_do_not_matter(before);
        nothing_visible_is_left_out(before);
        text::lemma_visible_add(all_text(before), last_text(raw));
        text::trimming_keeps_what_is_visible(last_text(raw));
        if raw.last() is Some && text::trim_of(last_text(raw)).len() > 0 {
            text::lemma_visible_add(joined(transcribed(before)), last_text(raw));
            assert(transcribed(raw).drop_last() =~= transcribed(before));
        } else {
            reveal_with_fuel(Seq::filter, 1);
            assert(text::visible_of(last_text(raw)) =~= seq![]);
            assert(text::visible_of(all_text(raw)) =~= text::visible_of(all_text(before)));
        }
    }
}

/// No segment is blank.
pub proof fn no_segment_is_blank(raw: Seq<Option<RawView>>)
    ensures
        forall|i: int|
            0 <= i < transcribed(raw).len() ==> text::trim_of(
                (#[trigger] transcribed(raw)[i]).text,
            ).len() > 0,
        transcribed(raw).len() <= raw.len(),
    decreases raw.len(),
{
    if raw.len() > 0 {
        no_segment_is_blank(raw.drop_last());
    }
}

/// At most three bytes trail.
pub proof fn few_bytes_trail(raw: Seq<Option<RawView>>)
    ensures
        carry_after(raw).len() <= 3,
{
    boundaries_do_not_matter(raw);
    stitch::held_bytes_begin_a_character(all_bytes(raw));
}

/// The bytes of two lists of segments follow one another; a segment that was read brings its
/// own, and one that was not brings none.
pub proof fn bytes_follow_one_another(
    a: Seq<Option<RawView>>,
    b: Seq<Option<RawView>>,
    one: RawView,
)
    ensures
        all_bytes(a + b) == all_bytes(a) + all_bytes(b),
        all_bytes(seq![Some(one)]) == one.bytes,
        all_bytes(seq![None]) == Seq::<u8>::empty(),
    decreases b.len(),
{
    reveal_with_fuel(all_bytes, 2);
    assert(seq![Some(one)].drop_last() =~= seq![]);
    assert(seq![None::<RawView>].drop_last() =~= seq![]);
    assert(all_bytes(seq![Some(one)]) =~= one.bytes);
    if b.len() == 0 {
        assert(a + b =~= a);
        assert(all_bytes(a) + all_bytes(b) =~= all_bytes(a));
    } else {
        bytes_follow_one_another(a, b.drop_last(), one);
        assert((a + b).drop_last() =~= a + b.drop_last());
        assert((a + b).last() == b.last());
        assert(all_bytes(a + b) =~= all_bytes(a) + all_bytes(b));
    }
}

/// Every text comes from a reported segment of its own, in the order of the segments, and
/// keeps its start, its end and its no-speech value. It is what the bytes up to and with
/// that segment say more than the bytes before it. Of a segment that no text comes from, the
/// bytes say no more than whitespace.
pub proof fn texts_keep_what_was_reported(raw: Seq<Option<RawView>>) -> (from: Seq<int>)
    ensures
        from.len() == transcribed(raw).len(),
        forall|j: int, k: int|
            0 <= j < k < from.len() ==> (#[trigger] from[j]) < (#[trigger] from[k]),
        forall|k: int|
            0 <= k < from.len() ==> {
                let t = transcribed(raw)[k];
                let i = #[trigger] from[k];
                &&& 0 <= i < raw.len()
                &&& raw[i] matches Some(r) && t.t0 == r.start && t.t1 == r.end && t.no_speech
                    == r.no_speech
                &&& stitch::text_of(all_bytes(raw.take(i + 1))) == stitch::text_of(
                    all_bytes(raw.take(i)),
                ) + t.text
            },
        forall|i: int|
            0 <= i < raw.len() && !from.contains(i) ==> {
                let before = stitch::text_of(all_bytes(raw.take(i)));
                let after = stitch::text_of(all_bytes(#[trigger] raw.take(i + 1)));
                &&& before.is_prefix_of(after)
                &&& forall|k: int|
                    before.len() <= k < after.len() ==> text::is_blank(#[trigger] after[k])
            },
    decreases raw.len(),
{
    if raw.len() == 0 {
        seq![]
    } else {
        let last = raw.len() - 1;
        let before = raw.drop_last();
        let earlier = texts_keep_what_was_reported(before);
        let said = last_text(raw);
        boundaries_do_not_matter(before);
        boundaries_do_not_matter(raw);
        assert(raw.take(last) =~= before);
        assert(raw.take(last + 1) =~= raw);
        assert(forall|i: int| 0 <= i <= last ==> #[trigger] raw.take(i) =~= before.take(i));
        assert(all_text(raw) == all_text(before) + said);
        let kept = raw.last() is Some && text::trim_of(said).len() > 0;
        let from = if kept {
            earlier.push(last)
        } else {
            earlier
        };
        assert forall|k: int| 0 <= k < from.len() implies {
            let t = transcribed(raw)[k];
            let i = #[trigger] from[k];
            &&& 0 <= i < raw.len()
            &&& raw[i] matches Some(r) && t.t0 == r.start && t.t1 == r.end && t.no_speech
                == r.no_speech
            &&& stitch::text_of(all_bytes(raw.take(i + 1))) == stitch::text_of(
                all_bytes(raw.take(i)),
            ) + t.text
        } by {
            if k < earlier.len() {
                let i = earlier[k];
                assert(from[k] == i);
                assert(raw[i] == before[i]);
                assert(transcribed(raw)[k] == transcribed(before)[k]);
                assert(raw.take(i) == before.take(i));
                assert(raw.take(i + 1) == before.take(i + 1));
            }
        }
        assert forall|i: int| 0 <= i < raw.len() && !from.contains(i) implies {
            let before = stitch::text_of(all_bytes(raw.take(i)));
            let after = stitch::text_of(all_bytes(#[trigger] raw.take(i + 1)));
            &&& before.is_prefix_of(after)
            &&& forall|k: int|
                before.len() <= k < after.len() ==> text::is_blank(#[trigger] after[k])
        } by {
            if i < last {
                if earlier.contains(i) {
                    let k = choose|k: int| 0 <= k < earlier.len() && earlier[k] == i;
                    assert(from[k] == i);
                }
                assert(raw.take(i) == before.take(i));
                assert(raw.take(i + 1) == before.take(i + 1));
            } else {
                if kept {
                    assert(from[earlier.len() as int] == last);
                }
                text::lemma_blank_if_trimmed_away(said);
                let whole = all_text(before) + said;
                assert(all_text(before).is_prefix_of(whole));
                assert forall|k: int| all_text(before).len() <= k < whole.len() implies
                    text::is_blank(#[trigger] whole[k]) by {
                    assert(whole[k] == said[k - all_text(before).len()]);
                }
            }
        }
        from
    }
}

} // verus!
