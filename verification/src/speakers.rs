//! Who speaks how long, and under which letter.

use crate::merge::{Span, SpanView};
use vstd::prelude::*;
use vstd::string::*;
use vstd::utf8::*;

verus! {

/// More stretches of speech than any address space holds.
pub const MAX_SPANS: u64 = 1_125_899_906_842_624;

/// A bound on the total of that many stretches: 2^114 nanoseconds.
pub const MAX_TOTAL: i128 = 20_769_187_434_139_310_514_121_985_316_880_384;

/// How many speakers there are letters for: `A` and the 190 characters after it.
pub const MAX_SPEAKERS: usize = 191;

/// How long one speaker speaks, in nanoseconds.
#[derive(Debug)]
pub struct Total {
    pub speaker: String,
    pub nanos: i128,
}

/// What a [`Total`] holds.
pub struct TotalView {
    pub speaker: Seq<char>,
    pub nanos: i128,
}

impl DeepView for Total {
    type V = TotalView;

    open spec fn deep_view(&self) -> TotalView {
        TotalView { speaker: self.speaker@, nanos: self.nanos }
    }
}

/// `a` is less than `b` in the order of a dictionary.
pub open spec fn lex_less(a: Seq<u8>, b: Seq<u8>) -> bool
    decreases a.len(),
{
    if b.len() == 0 {
        false
    } else if a.len() == 0 {
        true
    } else {
        a[0] < b[0] || (a[0] == b[0] && lex_less(a.drop_first(), b.drop_first()))
    }
}

/// The name `a` stands before the name `b`: their encodings, compared byte by byte.
pub open spec fn name_less(a: Seq<char>, b: Seq<char>) -> bool {
    lex_less(encode_utf8(a), encode_utf8(b))
}

/// How long `speaker` speaks in `diar`, in nanoseconds.
pub open spec fn talk_time(diar: Seq<SpanView>, speaker: Seq<char>) -> int
    decreases diar.len(),
{
    if diar.len() == 0 {
        0
    } else {
        let before = talk_time(diar.drop_last(), speaker);
        if diar.last().speaker == speaker {
            before + (diar.last().end - diar.last().start)
        } else {
            before
        }
    }
}

/// How long there is speech in `diar`, in nanoseconds.
pub open spec fn speech_time(diar: Seq<SpanView>) -> int
    decreases diar.len(),
{
    if diar.len() == 0 {
        0
    } else {
        speech_time(diar.drop_last()) + (diar.last().end - diar.last().start)
    }
}

/// The sum of `totals`.
pub open spec fn sum_of(totals: Seq<TotalView>) -> int
    decreases totals.len(),
{
    if totals.len() == 0 {
        0
    } else {
        sum_of(totals.drop_last()) + totals.last().nanos
    }
}

/// `speaker` has an entry in `totals`.
pub open spec fn is_listed(totals: Seq<TotalView>, speaker: Seq<char>) -> bool {
    exists|k: int| 0 <= k < totals.len() && (#[trigger] totals[k]).speaker == speaker
}

/// `speaker` speaks in `diar`.
pub open spec fn is_heard(diar: Seq<SpanView>, speaker: Seq<char>) -> bool {
    exists|i: int| 0 <= i < diar.len() && (#[trigger] diar[i]).speaker == speaker
}

/// The names in `totals` ascend, so that none occurs twice.
pub open spec fn is_sorted(totals: Seq<TotalView>) -> bool {
    forall|j: int, k: int|
        0 <= j < k < totals.len() ==> name_less(
            (#[trigger] totals[j]).speaker,
            (#[trigger] totals[k]).speaker,
        )
}

/// `totals` says of everyone who speaks in `diar`, and of nobody else, how long they speak.
pub open spec fn is_totals(diar: Seq<SpanView>, totals: Seq<TotalView>) -> bool {
    &&& is_sorted(totals)
    &&& forall|speaker: Seq<char>|
        is_listed(totals, speaker) <==> #[trigger] is_heard(diar, speaker)
    &&& forall|k: int|
        0 <= k < totals.len() ==> (#[trigger] totals[k]).nanos == talk_time(
            diar,
            totals[k].speaker,
        )
}

proof fn lemma_lex_irreflexive(a: Seq<u8>)
    ensures
        !lex_less(a, a),
    decreases a.len(),
{
    if a.len() > 0 {
        lemma_lex_irreflexive(a.drop_first());
    }
}

proof fn lemma_lex_transitive(a: Seq<u8>, b: Seq<u8>, c: Seq<u8>)
    requires
        lex_less(a, b),
        lex_less(b, c),
    ensures
        lex_less(a, c),
    decreases a.len(),
{
    if a.len() > 0 && a[0] == b[0] && b[0] == c[0] {
        lemma_lex_transitive(a.drop_first(), b.drop_first(), c.drop_first());
    }
}

/// Names are totally ordered: of two, one stands before the other unless they are the
/// same.
pub proof fn names_are_ordered(a: Seq<char>, b: Seq<char>, c: Seq<char>)
    ensures
        !name_less(a, a),
        name_less(a, b) && name_less(b, c) ==> name_less(a, c),
        a == b || name_less(a, b) || name_less(b, a),
{
    lemma_lex_irreflexive(encode_utf8(a));
    if name_less(a, b) && name_less(b, c) {
        lemma_lex_transitive(encode_utf8(a), encode_utf8(b), encode_utf8(c));
    }
    lemma_lex_total(encode_utf8(a), encode_utf8(b));
    encode_utf8_decode_utf8(a);
    encode_utf8_decode_utf8(b);
}

proof fn lemma_lex_total(a: Seq<u8>, b: Seq<u8>)
    ensures
        a == b || lex_less(a, b) || lex_less(b, a),
    decreases a.len(),
{
    if a.len() > 0 && b.len() > 0 && a[0] == b[0] {
        lemma_lex_total(a.drop_first(), b.drop_first());
        if a.drop_first() == b.drop_first() {
            assert(a =~= seq![a[0]] + a.drop_first());
            assert(b =~= seq![b[0]] + b.drop_first());
        }
    } else if a.len() == 0 && b.len() == 0 {
        assert(a =~= b);
    }
}

/// How two names stand to each other.
enum Place {
    Before,
    Same,
    After,
}

/// Whether the name `a` stands before `b`, after it, or is the same.
fn place(a: &str, b: &str) -> (res: Place)
    ensures
        match res {
            Place::Before => name_less(a@, b@),
            Place::Same => a@ == b@,
            Place::After => name_less(b@, a@),
        },
{
    let x = a.as_bytes();
    let y = b.as_bytes();
    let mut i: usize = 0;
    assert(x@.skip(0) =~= x@);
    assert(y@.skip(0) =~= y@);
    while i < x.len() && i < y.len()
        invariant
            i <= x@.len(),
            i <= y@.len(),
            lex_less(x@, y@) == lex_less(x@.skip(i as int), y@.skip(i as int)),
            lex_less(y@, x@) == lex_less(y@.skip(i as int), x@.skip(i as int)),
            forall|j: int| 0 <= j < i ==> x@[j] == y@[j],
            x@ == encode_utf8(a@),
            y@ == encode_utf8(b@),
        decreases x@.len() - i,
    {
        if x[i] < y[i] {
            return Place::Before;
        }
        if y[i] < x[i] {
            return Place::After;
        }
        assert(x@.skip(i as int).drop_first() =~= x@.skip(i + 1));
        assert(y@.skip(i as int).drop_first() =~= y@.skip(i + 1));
        i = i + 1;
    }
    if i < y.len() {
        Place::Before
    } else if i < x.len() {
        Place::After
    } else {
        proof {
            assert(x@ =~= y@);
            encode_utf8_decode_utf8(a@);
            encode_utf8_decode_utf8(b@);
        }
        Place::Same
    }
}

proof fn lemma_unheard(diar: Seq<SpanView>, speaker: Seq<char>)
    requires
        !is_heard(diar, speaker),
    ensures
        talk_time(diar, speaker) == 0,
    decreases diar.len(),
{
    if diar.len() > 0 {
        let before = diar.drop_last();
        assert(diar[diar.len() - 1].speaker != speaker);
        if is_heard(before, speaker) {
            let i = choose|i: int| 0 <= i < before.len() && (#[trigger] before[i]).speaker
                == speaker;
            assert(diar[i].speaker == speaker);
        }
        lemma_unheard(before, speaker);
    }
}

proof fn lemma_sum_insert(totals: Seq<TotalView>, k: int, one: TotalView)
    requires
        0 <= k <= totals.len(),
    ensures
        sum_of(totals.insert(k, one)) == sum_of(totals) + one.nanos,
    decreases totals.len(),
{
    let after = totals.insert(k, one);
    if k == totals.len() {
        assert(after.drop_last() =~= totals);
    } else {
        lemma_sum_insert(totals.drop_last(), k, one);
        assert(after.drop_last() =~= totals.drop_last().insert(k, one));
    }
}

proof fn lemma_sum_update(totals: Seq<TotalView>, k: int, one: TotalView)
    requires
        0 <= k < totals.len(),
    ensures
        sum_of(totals.update(k, one)) == sum_of(totals) - totals[k].nanos + one.nanos,
    decreases totals.len(),
{
    let after = totals.update(k, one);
    if k == totals.len() - 1 {
        assert(after.drop_last() =~= totals.drop_last());
    } else {
        lemma_sum_update(totals.drop_last(), k, one);
        assert(after.drop_last() =~= totals.drop_last().update(k, one));
    }
}

/// One more stretch of speech, by a speaker who is listed at `k`.
proof fn lemma_totals_update(diar: Seq<SpanView>, totals: Seq<TotalView>, k: int, one: TotalView)
    requires
        diar.len() > 0,
        is_totals(diar.drop_last(), totals),
        0 <= k < totals.len(),
        totals[k].speaker == diar.last().speaker,
        one.speaker == diar.last().speaker,
        one.nanos == totals[k].nanos + (diar.last().end - diar.last().start),
    ensures
        is_totals(diar, totals.update(k, one)),
{
    let after = totals.update(k, one);
    let before = diar.drop_last();
    assert(forall|j: int| 0 <= j < totals.len() ==> (#[trigger] after[j]).speaker
        == totals[j].speaker);
    assert forall|speaker: Seq<char>|
        is_listed(after, speaker) <==> #[trigger] is_heard(diar, speaker) by {
        lemma_heard_step(diar, speaker);
        if is_listed(after, speaker) {
            let j = choose|j: int| 0 <= j < after.len() && (#[trigger] after[j]).speaker == speaker;
            assert(totals[j].speaker == speaker);
            assert(is_heard(before, speaker));
        }
        if is_heard(before, speaker) {
            let j = choose|j: int| 0 <= j < totals.len() && (#[trigger] totals[j]).speaker
                == speaker;
            assert(after[j].speaker == speaker);
        }
        if speaker == diar.last().speaker {
            assert(after[k].speaker == speaker);
        }
    }
    assert forall|j: int| 0 <= j < after.len() implies (#[trigger] after[j]).nanos == talk_time(
        diar,
        after[j].speaker,
    ) by {
        assert(totals[j].nanos == talk_time(before, totals[j].speaker));
        if j != k {
            names_are_ordered(totals[j].speaker, totals[k].speaker, totals[k].speaker);
        }
    }
}

/// One more stretch of speech, by a speaker whose place is `k` and who is not listed.
proof fn lemma_totals_insert(diar: Seq<SpanView>, totals: Seq<TotalView>, k: int, one: TotalView)
    requires
        diar.len() > 0,
        is_totals(diar.drop_last(), totals),
        0 <= k <= totals.len(),
        forall|j: int| 0 <= j < k ==> name_less((#[trigger] totals[j]).speaker, one.speaker),
        k < totals.len() ==> name_less(one.speaker, totals[k].speaker),
        one.speaker == diar.last().speaker,
        one.nanos == diar.last().end - diar.last().start,
    ensures
        is_totals(diar, totals.insert(k, one)),
{
    let after = totals.insert(k, one);
    let before = diar.drop_last();
    assert forall|j: int| k <= j < totals.len() implies name_less(
        one.speaker,
        (#[trigger] totals[j]).speaker,
    ) by {
        names_are_ordered(one.speaker, totals[k].speaker, totals[j].speaker);
    }
    assert forall|i: int, j: int| 0 <= i < j < after.len() implies name_less(
        (#[trigger] after[i]).speaker,
        (#[trigger] after[j]).speaker,
    ) by {
        let i0 = if i < k {
            i
        } else {
            i - 1
        };
        let j0 = if j < k {
            j
        } else {
            j - 1
        };
        if i != k {
            assert(after[i] == totals[i0]);
        }
        if j != k {
            assert(after[j] == totals[j0]);
        }
    }
    if is_heard(before, one.speaker) {
        assert(is_listed(totals, one.speaker));
        let j = choose|j: int| 0 <= j < totals.len() && (#[trigger] totals[j]).speaker
            == one.speaker;
        names_are_ordered(one.speaker, one.speaker, one.speaker);
    }
    lemma_unheard(before, one.speaker);
    assert forall|speaker: Seq<char>|
        is_listed(after, speaker) <==> #[trigger] is_heard(diar, speaker) by {
        lemma_heard_step(diar, speaker);
        if is_listed(after, speaker) {
            let j = choose|j: int| 0 <= j < after.len() && (#[trigger] after[j]).speaker == speaker;
            if j < k {
                assert(totals[j].speaker == speaker);
                assert(is_heard(before, speaker));
            } else if j > k {
                assert(totals[j - 1].speaker == speaker);
                assert(is_heard(before, speaker));
            }
        }
        if is_heard(before, speaker) {
            let j = choose|j: int| 0 <= j < totals.len() && (#[trigger] totals[j]).speaker
                == speaker;
            if j < k {
                assert(after[j].speaker == speaker);
            } else {
                assert(after[j + 1].speaker == speaker);
            }
        }
        if speaker == diar.last().speaker {
            assert(after[k].speaker == speaker);
        }
    }
    assert forall|j: int| 0 <= j < after.len() implies (#[trigger] after[j]).nanos == talk_time(
        diar,
        after[j].speaker,
    ) by {
        if j != k {
            let j0 = if j < k {
                j
            } else {
                j - 1
            };
            assert(after[j] == totals[j0]);
            names_are_ordered(one.speaker, one.speaker, one.speaker);
            assert(totals[j0].nanos == talk_time(before, totals[j0].speaker));
        }
    }
}

proof fn lemma_heard_step(diar: Seq<SpanView>, speaker: Seq<char>)
    requires
        diar.len() > 0,
    ensures
        is_heard(diar, speaker) <==> is_heard(diar.drop_last(), speaker) || diar.last().speaker
            == speaker,
{
    let before = diar.drop_last();
    if is_heard(diar, speaker) && diar.last().speaker != speaker {
        let i = choose|i: int| 0 <= i < diar.len() && (#[trigger] diar[i]).speaker == speaker;
        assert(before[i].speaker == speaker);
    }
    if is_heard(before, speaker) {
        let i = choose|i: int| 0 <= i < before.len() && (#[trigger] before[i]).speaker == speaker;
        assert(diar[i].speaker == speaker);
    }
    if diar.last().speaker == speaker {
        assert(diar[diar.len() - 1].speaker == speaker);
    }
}

/// How long each speaker speaks, in the order of their names.
pub fn totals(diar: &[Span]) -> (res: Vec<Total>)
    requires
        diar@.len() <= MAX_SPANS,
    ensures
        is_totals(diar.deep_view(), res.deep_view()),
        sum_of(res.deep_view()) == speech_time(diar.deep_view()),
        forall|k: int|
            0 <= k < res@.len() ==> -MAX_TOTAL <= (#[trigger] res@[k]).nanos <= MAX_TOTAL,
{
    let ghost all = diar.deep_view();
    let mut res: Vec<Total> = Vec::new();
    let mut i: usize = 0;
    assert(is_totals(all.take(0), res.deep_view()));
    while i < diar.len()
        invariant
            i <= diar@.len() <= MAX_SPANS,
            all == diar.deep_view(),
            is_totals(all.take(i as int), res.deep_view()),
            sum_of(res.deep_view()) == speech_time(all.take(i as int)),
            forall|k: int|
                0 <= k < res@.len() ==> -(i * 0x1_0000_0000_0000_0000) <= (
                #[trigger] res@[k]).nanos <= i * 0x1_0000_0000_0000_0000,
        decreases diar@.len() - i,
    {
        let ghost seen = all.take(i + 1);
        let ghost before = res.deep_view();
        let span = &diar[i];
        let spoken: i128 = span.end as i128 - span.start as i128;
        assert(seen.drop_last() =~= all.take(i as int));
        assert(seen.last() == span.deep_view());
        let mut k: usize = 0;
        let mut listed = false;
        while k < res.len()
            invariant_except_break
                !listed,
            invariant
                k <= res@.len(),
                before == res.deep_view(),
                forall|j: int|
                    0 <= j < k ==> name_less((#[trigger] before[j]).speaker, span.speaker@),
            ensures
                k <= res@.len(),
                forall|j: int|
                    0 <= j < k ==> name_less((#[trigger] before[j]).speaker, span.speaker@),
                listed ==> k < res@.len() && before[k as int].speaker == span.speaker@,
                !listed && k < res@.len() ==> name_less(span.speaker@, before[k as int].speaker),
            decreases res@.len() - k,
        {
            match place(res[k].speaker.as_str(), span.speaker.as_str()) {
                Place::Before => {
                    k = k + 1;
                },
                Place::Same => {
                    listed = true;
                    break ;
                },
                Place::After => {
                    break ;
                },
            }
        }
        let mut nanos: i128 = spoken;
        if listed {
            nanos = nanos + res[k].nanos;
        }
        let one = Total { speaker: span.speaker.clone(), nanos };
        let ghost view = one.deep_view();
        if listed {
            res.set(k, one);
            assert(res.deep_view() =~= before.update(k as int, view));
            proof {
                lemma_totals_update(seen, before, k as int, view);
                lemma_sum_update(before, k as int, view);
            }
        } else {
            res.insert(k, one);
            assert(res.deep_view() =~= before.insert(k as int, view));
            proof {
                lemma_totals_insert(seen, before, k as int, view);
                lemma_sum_insert(before, k as int, view);
            }
        }
        i = i + 1;
    }
    assert(all.take(all.len() as int) =~= all);
    res
}

/// Only one list of totals is right for `diar`.
pub proof fn totals_are_unique(diar: Seq<SpanView>, a: Seq<TotalView>, b: Seq<TotalView>)
    requires
        is_totals(diar, a),
        is_totals(diar, b),
    ensures
        a == b,
{
    lemma_same_names(diar, a, b, a.len() as int);
    lemma_same_names(diar, b, a, b.len() as int);
    assert forall|k: int| 0 <= k < a.len() implies a[k] == b[k] by {
        lemma_same_names(diar, a, b, k + 1);
    }
    assert(a =~= b);
}

/// The first `n` names of `a` are those of `b`.
proof fn lemma_same_names(diar: Seq<SpanView>, a: Seq<TotalView>, b: Seq<TotalView>, n: int)
    requires
        is_totals(diar, a),
        is_totals(diar, b),
        0 <= n <= a.len(),
    ensures
        n <= b.len(),
        forall|k: int| 0 <= k < n ==> (#[trigger] a[k]).speaker == b[k].speaker,
    decreases n,
{
    if n > 0 {
        let k = n - 1;
        lemma_same_names(diar, a, b, k);
        let name = a[k].speaker;
        assert(is_listed(a, name));
        assert(is_heard(diar, name));
        assert(is_listed(b, name));
        let j = choose|j: int| 0 <= j < b.len() && (#[trigger] b[j]).speaker == name;
        if j < k {
            assert(a[j].speaker == name);
            names_are_ordered(name, name, name);
        }
        let other = b[k].speaker;
        assert(is_listed(b, other));
        assert(is_heard(diar, other));
        assert(is_listed(a, other));
        let i = choose|i: int| 0 <= i < a.len() && (#[trigger] a[i]).speaker == other;
        if i < k {
            assert(b[i].speaker == other);
            names_are_ordered(other, other, other);
        }
        if j > k {
            // Then `other` is before `name`, and yet not before it.
            assert(name_less(other, name));
            names_are_ordered(name, other, name);
            names_are_ordered(name, name, name);
        }
    }
}

/// The speaker at `j` comes before the one at `k`: by speaking longer, or as long with the
/// smaller name.
pub open spec fn is_ahead(totals: Seq<TotalView>, j: int, k: int) -> bool {
    totals[j].nanos > totals[k].nanos || (totals[j].nanos == totals[k].nanos && j < k)
}

/// How many of the first `n` speakers come before the one at `k`.
pub open spec fn ahead_of(totals: Seq<TotalView>, k: int, n: int) -> int
    decreases n,
{
    if n <= 0 {
        0
    } else {
        ahead_of(totals, k, n - 1) + if is_ahead(totals, n - 1, k) {
            1int
        } else {
            0int
        }
    }
}

/// The rank of the speaker at `k`, the one who speaks longest being first.
pub open spec fn rank_of(totals: Seq<TotalView>, k: int) -> int {
    ahead_of(totals, k, totals.len() as int)
}

/// The letter of the speaker at `k`: `A` for the first in rank, and on from there.
pub open spec fn letter_of(totals: Seq<TotalView>, k: int) -> char {
    (65 + rank_of(totals, k)) as char
}

proof fn lemma_ahead_bounds(totals: Seq<TotalView>, k: int, n: int)
    requires
        0 <= k < totals.len(),
        0 <= n <= totals.len(),
    ensures
        0 <= ahead_of(totals, k, n) <= n,
        n > k ==> ahead_of(totals, k, n) < n,
    decreases n,
{
    if n > 0 {
        lemma_ahead_bounds(totals, k, n - 1);
    }
}

proof fn lemma_ahead_monotone(totals: Seq<TotalView>, j: int, k: int, n: int)
    requires
        0 <= j < totals.len(),
        0 <= k < totals.len(),
        is_ahead(totals, j, k),
        0 <= n <= totals.len(),
    ensures
        ahead_of(totals, j, n) <= ahead_of(totals, k, n),
        n > j ==> ahead_of(totals, j, n) < ahead_of(totals, k, n),
    decreases n,
{
    if n > 0 {
        lemma_ahead_monotone(totals, j, k, n - 1);
    }
}

/// Ranks follow who speaks longer: whoever is ahead has the smaller one.
pub proof fn ranks_follow_talk_time(totals: Seq<TotalView>, j: int, k: int)
    requires
        0 <= j < totals.len(),
        0 <= k < totals.len(),
    ensures
        0 <= rank_of(totals, k) < totals.len(),
        is_ahead(totals, j, k) <==> rank_of(totals, j) < rank_of(totals, k),
        rank_of(totals, j) == rank_of(totals, k) <==> j == k,
{
    lemma_ahead_bounds(totals, k, totals.len() as int);
    if is_ahead(totals, j, k) {
        lemma_ahead_monotone(totals, j, k, totals.len() as int);
    }
    if is_ahead(totals, k, j) {
        lemma_ahead_monotone(totals, k, j, totals.len() as int);
    }
}

/// No rank is left out: as many letters are given, from `A` on, as there are speakers.
pub proof fn every_rank_is_given(totals: Seq<TotalView>, rank: int)
    requires
        0 <= rank < totals.len(),
    ensures
        exists|k: int| 0 <= k < totals.len() && #[trigger] rank_of(totals, k) == rank,
{
    let n = totals.len() as int;
    let ranks = Seq::new(totals.len(), |k: int| rank_of(totals, k));
    assert(ranks.no_duplicates()) by {
        assert forall|i: int, j: int| 0 <= i < n && 0 <= j < n && i != j implies ranks[i]
            != ranks[j] by {
            ranks_follow_talk_time(totals, i, j);
        }
    }
    ranks.unique_seq_to_set();
    vstd::set_lib::lemma_int_range(0, n);
    assert(ranks.to_set().subset_of(vstd::set_lib::set_int_range(0, n))) by {
        assert forall|r: int| ranks.to_set().contains(r) implies 0 <= r < n by {
            let k = choose|k: int| 0 <= k < n && ranks[k] == r;
            ranks_follow_talk_time(totals, k, k);
        }
    }
    vstd::set_lib::lemma_subset_equality(ranks.to_set(), vstd::set_lib::set_int_range(0, n));
    assert(ranks.to_set().contains(rank));
    let k = choose|k: int| 0 <= k < n && ranks[k] == rank;
    assert(rank_of(totals, k) == rank);
}

/// Letters tell speakers apart.
pub proof fn letters_differ(totals: Seq<TotalView>, j: int, k: int)
    requires
        totals.len() <= MAX_SPEAKERS,
        0 <= j < totals.len(),
        0 <= k < totals.len(),
        j != k,
    ensures
        letter_of(totals, j) != letter_of(totals, k),
{
    ranks_follow_talk_time(totals, j, k);
    ranks_follow_talk_time(totals, k, j);
}

/// `k` is the first entry of `speaker` in `totals`.
pub open spec fn is_entry(totals: Seq<TotalView>, speaker: Seq<char>, k: int) -> bool {
    &&& 0 <= k < totals.len()
    &&& totals[k].speaker == speaker
    &&& forall|j: int| 0 <= j < k ==> (#[trigger] totals[j]).speaker != speaker
}

/// What stands for `speaker` in the transcript: their letter, or a question mark where they
/// have none.
pub open spec fn label_of(totals: Seq<TotalView>, speaker: Seq<char>) -> char {
    if is_listed(totals, speaker) {
        letter_of(totals, choose|k: int| is_entry(totals, speaker, k))
    } else {
        '?'
    }
}

/// What stands for `speaker` in the transcript.
pub fn label(totals: &[Total], speaker: &String) -> (res: char)
    requires
        totals@.len() <= MAX_SPEAKERS,
    ensures
        res == label_of(totals.deep_view(), speaker@),
{
    let ghost all = totals.deep_view();
    let mut k: usize = 0;
    while k < totals.len()
        invariant
            all == totals.deep_view(),
            k <= totals@.len() <= MAX_SPEAKERS,
            forall|j: int| 0 <= j < k ==> (#[trigger] all[j]).speaker != speaker@,
        decreases totals@.len() - k,
    {
        if totals[k].speaker == *speaker {
            assert(all[k as int].speaker == speaker@);
            assert(is_entry(all, speaker@, k as int));
            let ghost e = choose|e: int| is_entry(all, speaker@, e);
            assert(is_entry(all, speaker@, e));
            assert(e == k);
            return letter(totals, k);
        }
        k = k + 1;
    }
    '?'
}

/// A listed speaker is shown under the letter of their entry.
pub proof fn listed_speakers_have_letters(totals: Seq<TotalView>, k: int)
    requires
        is_sorted(totals),
        0 <= k < totals.len(),
    ensures
        label_of(totals, totals[k].speaker) == letter_of(totals, k),
{
    let speaker = totals[k].speaker;
    assert forall|j: int| 0 <= j < k implies (#[trigger] totals[j]).speaker != speaker by {
        names_are_ordered(speaker, speaker, speaker);
    }
    assert(is_entry(totals, speaker, k));
    let e = choose|e: int| is_entry(totals, speaker, e);
    assert(is_entry(totals, speaker, e));
    assert(e == k);
}

/// The letter of the speaker at `k`.
pub fn letter(totals: &[Total], k: usize) -> (res: char)
    requires
        totals@.len() <= MAX_SPEAKERS,
        k < totals@.len(),
    ensures
        res == letter_of(totals.deep_view(), k as int),
{
    let ghost all = totals.deep_view();
    let mut rank: usize = 0;
    let mut j: usize = 0;
    while j < totals.len()
        invariant
            all == totals.deep_view(),
            j <= totals@.len() <= MAX_SPEAKERS,
            k < totals@.len(),
            rank == ahead_of(all, k as int, j as int),
            rank <= j,
        decreases totals@.len() - j,
    {
        if totals[j].nanos > totals[k].nanos || (totals[j].nanos == totals[k].nanos && j < k) {
            rank = rank + 1;
        }
        j = j + 1;
    }
    proof {
        lemma_ahead_bounds(all, k as int, all.len() as int);
    }
    (65 + rank as u8) as char
}

proof fn lemma_lex_at(a: Seq<u8>, b: Seq<u8>)
    ensures
        lex_less(a, b) <==> exists|n: int|
            {
                &&& 0 <= n <= a.len()
                &&& n < b.len()
                &&& #[trigger] a.take(n) == b.take(n)
                &&& n == a.len() || a[n] < b[n]
            },
    decreases a.len(),
{
    if a.len() > 0 && b.len() > 0 {
        let x = a.drop_first();
        let y = b.drop_first();
        lemma_lex_at(x, y);
        if a[0] < b[0] {
            assert(a.take(0) =~= b.take(0));
        } else if lex_less(a, b) {
            let n = choose|n: int|
                {
                    &&& 0 <= n <= x.len()
                    &&& n < y.len()
                    &&& #[trigger] x.take(n) == y.take(n)
                    &&& n == x.len() || x[n] < y[n]
                };
            assert(a.take(n + 1) =~= seq![a[0]] + x.take(n));
            assert(b.take(n + 1) =~= seq![b[0]] + y.take(n));
            assert(a.take(n + 1) == b.take(n + 1));
        }
        assert forall|n: int|
            {
                &&& 0 <= n <= a.len()
                &&& n < b.len()
                &&& #[trigger] a.take(n) == b.take(n)
                &&& n == a.len() || a[n] < b[n]
            } implies lex_less(a, b) by {
            if n > 0 {
                assert(a.take(n)[0] == b.take(n)[0]);
                assert(x.take(n - 1) =~= a.take(n).drop_first());
                assert(y.take(n - 1) =~= b.take(n).drop_first());
                assert(x.take(n - 1) == y.take(n - 1));
            }
        }
    } else if b.len() > 0 {
        assert(a.take(0) =~= b.take(0));
    }
}

/// A name stands before another where, at the first byte in which their encodings differ,
/// it has the smaller one or has ended.
pub proof fn names_compare_at_the_first_difference(a: Seq<char>, b: Seq<char>)
    ensures
        name_less(a, b) <==> exists|n: int|
            {
                &&& 0 <= n <= encode_utf8(a).len()
                &&& n < encode_utf8(b).len()
                &&& #[trigger] encode_utf8(a).take(n) == encode_utf8(b).take(n)
                &&& n == encode_utf8(a).len() || encode_utf8(a)[n] < encode_utf8(b)[n]
            },
{
    lemma_lex_at(encode_utf8(a), encode_utf8(b));
}

/// Talk time adds up: over two lists of stretches it is the sum of both, and a stretch
/// counts from its start to its end for its speaker and for nobody else. So does the time
/// of all speech, whoever speaks.
pub proof fn talk_time_adds_up(
    a: Seq<SpanView>,
    b: Seq<SpanView>,
    one: SpanView,
    speaker: Seq<char>,
)
    ensures
        talk_time(a + b, speaker) == talk_time(a, speaker) + talk_time(b, speaker),
        talk_time(seq![one], speaker) == if one.speaker == speaker {
            one.end - one.start
        } else {
            0
        },
        speech_time(a + b) == speech_time(a) + speech_time(b),
        speech_time(seq![one]) == one.end - one.start,
    decreases b.len(),
{
    assert(seq![one].drop_last() =~= seq![]);
    reveal_with_fuel(talk_time, 2);
    reveal_with_fuel(speech_time, 2);
    if b.len() == 0 {
        assert(a + b =~= a);
    } else {
        talk_time_adds_up(a, b.drop_last(), one, speaker);
        assert((a + b).drop_last() =~= a + b.drop_last());
        assert((a + b).last() == b.last());
    }
}

/// Totals add up: over two lists the sum is that of both, and one total counts as it is.
pub proof fn totals_add_up(a: Seq<TotalView>, b: Seq<TotalView>, one: TotalView)
    ensures
        sum_of(a + b) == sum_of(a) + sum_of(b),
        sum_of(seq![one]) == one.nanos,
    decreases b.len(),
{
    assert(seq![one].drop_last() =~= seq![]);
    reveal_with_fuel(sum_of, 2);
    if b.len() == 0 {
        assert(a + b =~= a);
    } else {
        totals_add_up(a, b.drop_last(), one);
        assert((a + b).drop_last() =~= a + b.drop_last());
        assert((a + b).last() == b.last());
    }
}

/// The totals list everyone who speaks and nobody else, each once and in the order of their
/// names, with the time they talk.
pub proof fn totals_list_everyone(
    diar: Seq<SpanView>,
    totals: Seq<TotalView>,
    speaker: Seq<char>,
)
    requires
        is_totals(diar, totals),
    ensures
        (exists|k: int| 0 <= k < totals.len() && (#[trigger] totals[k]).speaker == speaker) <==> (
        exists|i: int| 0 <= i < diar.len() && (#[trigger] diar[i]).speaker == speaker),
        forall|k: int|
            0 <= k < totals.len() && (#[trigger] totals[k]).speaker == speaker ==> totals[k].nanos
                == talk_time(diar, speaker),
        forall|j: int, k: int|
            0 <= j < k < totals.len() ==> name_less(
                (#[trigger] totals[j]).speaker,
                (#[trigger] totals[k]).speaker,
            ),
{
    assert(is_listed(totals, speaker) <==> is_heard(diar, speaker));
}

proof fn lemma_ahead_is_counted(totals: Seq<TotalView>, k: int, n: int)
    requires
        0 <= k < totals.len(),
        0 <= n <= totals.len(),
    ensures
        Set::new(
            |j: int|
                0 <= j < n && (totals[j].nanos > totals[k].nanos || (totals[j].nanos
                    == totals[k].nanos && j < k)),
        ).finite(),
        Set::new(
            |j: int|
                0 <= j < n && (totals[j].nanos > totals[k].nanos || (totals[j].nanos
                    == totals[k].nanos && j < k)),
        ).len() == ahead_of(totals, k, n),
    decreases n,
{
    let now = Set::new(
        |j: int|
            0 <= j < n && (totals[j].nanos > totals[k].nanos || (totals[j].nanos
                == totals[k].nanos && j < k)),
    );
    if n == 0 {
        assert(now =~= Set::empty());
    } else {
        let m = n - 1;
        let before = Set::new(
            |j: int|
                0 <= j < m && (totals[j].nanos > totals[k].nanos || (totals[j].nanos
                    == totals[k].nanos && j < k)),
        );
        lemma_ahead_is_counted(totals, k, m);
        if totals[m].nanos > totals[k].nanos || (totals[m].nanos == totals[k].nanos && m < k) {
            assert(now =~= before.insert(m));
        } else {
            assert(now =~= before);
        }
    }
}

/// A speaker's letter counts who speaks longer: it is as far behind `A` as there are speakers
/// with more time, or with as much and an earlier name.
pub proof fn letters_count_who_speaks_longer(totals: Seq<TotalView>, k: int)
    requires
        totals.len() <= 191,
        0 <= k < totals.len(),
    ensures
        letter_of(totals, k) as int == 'A' as int + Set::new(
            |j: int|
                0 <= j < totals.len() && (totals[j].nanos > totals[k].nanos || (totals[j].nanos
                    == totals[k].nanos && j < k)),
        ).len(),
        Set::new(
            |j: int|
                0 <= j < totals.len() && (totals[j].nanos > totals[k].nanos || (totals[j].nanos
                    == totals[k].nanos && j < k)),
        ).finite(),
{
    let n = totals.len() as int;
    lemma_ahead_is_counted(totals, k, n);
    lemma_ahead_bounds(totals, k, n);
    assert(Set::new(
        |j: int|
            0 <= j < n && (totals[j].nanos > totals[k].nanos || (totals[j].nanos
                == totals[k].nanos && j < k)),
    ) =~= Set::new(
        |j: int|
            0 <= j < totals.len() && (totals[j].nanos > totals[k].nanos || (totals[j].nanos
                == totals[k].nanos && j < k)),
    ));
}

/// Whoever has more time has the earlier letter; of two with as much, the one listed first.
pub proof fn more_time_has_the_earlier_letter(totals: Seq<TotalView>, j: int, k: int)
    requires
        totals.len() <= 191,
        0 <= j < totals.len(),
        0 <= k < totals.len(),
    ensures
        totals[j].nanos > totals[k].nanos ==> letter_of(totals, j) < letter_of(totals, k),
        totals[j].nanos == totals[k].nanos && j < k ==> letter_of(totals, j) < letter_of(
            totals,
            k,
        ),
        'A' <= letter_of(totals, k),
        (letter_of(totals, k) as int) < 'A' as int + totals.len(),
{
    ranks_follow_talk_time(totals, j, k);
    ranks_follow_talk_time(totals, k, j);
}

/// Whoever talks longer in the recording is shown under the earlier letter.
pub proof fn longer_talk_has_the_earlier_letter(
    diar: Seq<SpanView>,
    totals: Seq<TotalView>,
    i: int,
    j: int,
)
    requires
        is_totals(diar, totals),
        totals.len() <= 191,
        0 <= i < diar.len(),
        0 <= j < diar.len(),
        talk_time(diar, diar[i].speaker) > talk_time(diar, diar[j].speaker),
    ensures
        label_of(totals, diar[i].speaker) < label_of(totals, diar[j].speaker),
{
    let a = diar[i].speaker;
    let b = diar[j].speaker;
    assert(is_heard(diar, a) && is_heard(diar, b));
    assert(is_listed(totals, a) && is_listed(totals, b));
    let x = choose|k: int| 0 <= k < totals.len() && (#[trigger] totals[k]).speaker == a;
    let y = choose|k: int| 0 <= k < totals.len() && (#[trigger] totals[k]).speaker == b;
    listed_speakers_have_letters(totals, x);
    listed_speakers_have_letters(totals, y);
    more_time_has_the_earlier_letter(totals, x, y);
}

/// A speaker is shown under the letter of the first entry with their name, and under a
/// question mark where no entry has it.
pub proof fn labels_are_found_by_name(totals: Seq<TotalView>, speaker: Seq<char>, k: int)
    ensures
        0 <= k < totals.len() && totals[k].speaker == speaker && (forall|j: int|
            0 <= j < k ==> (#[trigger] totals[j]).speaker != speaker) ==> label_of(totals, speaker)
            == letter_of(totals, k),
        (forall|j: int| 0 <= j < totals.len() ==> (#[trigger] totals[j]).speaker != speaker)
            ==> label_of(totals, speaker) == '?',
{
    if 0 <= k < totals.len() && totals[k].speaker == speaker && (forall|j: int|
        0 <= j < k ==> (#[trigger] totals[j]).speaker != speaker) {
        assert(is_entry(totals, speaker, k));
        let e = choose|e: int| is_entry(totals, speaker, e);
        assert(is_entry(totals, speaker, e));
        assert(e == k);
    }
}

} // verus!
