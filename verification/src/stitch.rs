//! Incremental UTF-8 decoding of segment bytes.
//!
//! Segments are cut at token boundaries, so a multi-byte character can straddle two of
//! them. [`stitch`] decodes one segment after another and carries an incomplete trailing
//! sequence over to the next; [`lossy`] decodes a complete output in one go.

use vstd::prelude::*;
use vstd::utf8::*;

verus! {

/// `char::from_u32`: `Some` exactly on the Unicode scalar values, and then the character
/// with that code point.
pub assume_specification[ char::from_u32 ](i: u32) -> (res: Option<char>)
    ensures
        res is Some <==> is_scalar(i),
        res matches Some(c) ==> c as u32 == i,
;

/// What stands for bytes that can never complete a character.
pub const REPLACEMENT: char = '\u{FFFD}';

/// The encoding of some character begins with `p`.
pub open spec fn begins_scalar(p: Seq<u8>) -> bool {
    exists|c: char| #[trigger] p.is_prefix_of(encode_scalar(c as u32))
}

/// How many bytes at the front of `bytes` one replacement character stands for, where no
/// character begins with these bytes: the longest run that does begin one, or else a
/// single byte.
pub open spec fn broken_len(bytes: Seq<u8>) -> int {
    if bytes.len() >= 3 && begins_scalar(bytes.take(3)) {
        3
    } else if bytes.len() >= 2 && begins_scalar(bytes.take(2)) {
        2
    } else {
        1
    }
}

/// The text of `bytes`: each well-formed character, one replacement character for each
/// run of bytes that can never complete, and nothing for a trailing sequence that still
/// can.
pub open spec fn text_of(bytes: Seq<u8>) -> Seq<char>
    decreases bytes.len(),
{
    if bytes.len() == 0 {
        seq![]
    } else if valid_first_scalar(bytes) {
        seq![decode_first_scalar(bytes) as char] + text_of(pop_first_scalar(bytes))
    } else if begins_scalar(bytes) {
        seq![]
    } else {
        seq![REPLACEMENT] + text_of(bytes.skip(broken_len(bytes)))
    }
}

/// The trailing bytes of `bytes` that are the beginning of a character not yet complete.
pub open spec fn held_of(bytes: Seq<u8>) -> Seq<u8>
    decreases bytes.len(),
{
    if bytes.len() == 0 {
        seq![]
    } else if valid_first_scalar(bytes) {
        held_of(pop_first_scalar(bytes))
    } else if begins_scalar(bytes) {
        bytes
    } else {
        held_of(bytes.skip(broken_len(bytes)))
    }
}

/// How many bytes the encoding that opens with `lead` has; 0 where none does.
spec fn width(lead: u8) -> int {
    if lead <= 0x7f {
        1
    } else if 0xc2 <= lead <= 0xdf {
        2
    } else if 0xe0 <= lead <= 0xef {
        3
    } else if 0xf0 <= lead <= 0xf4 {
        4
    } else {
        0
    }
}

/// `second` can follow `lead`, which opens an encoding of two bytes or more.
spec fn follows(lead: u8, second: u8) -> bool {
    &&& is_continuation_byte(second)
    &&& lead == 0xe0 ==> 0xa0 <= second
    &&& lead == 0xed ==> second <= 0x9f
    &&& lead == 0xf0 ==> 0x90 <= second
    &&& lead == 0xf4 ==> second <= 0x8f
}

/// [`begins_scalar`] by byte ranges.
spec fn begins_by_range(p: Seq<u8>) -> bool {
    p.len() > 0 ==> {
        &&& p.len() <= width(p[0])
        &&& p.len() >= 2 ==> follows(p[0], p[1])
        &&& p.len() >= 3 ==> is_continuation_byte(p[2])
        &&& p.len() >= 4 ==> is_continuation_byte(p[3])
    }
}

proof fn lemma_width_2(b1: u8, b2: u8)
    by (bit_vector)
    requires
        0xc0 <= b1 <= 0xdf,
        0x80 <= b2 <= 0xbf,
    ensures
        codepoint_width_2(b1, b2) <= 0x7ff,
        0x80 <= codepoint_width_2(b1, b2) <==> 0xc2 <= b1,
{
}

proof fn lemma_width_3(b1: u8, b2: u8, b3: u8)
    by (bit_vector)
    requires
        0xe0 <= b1 <= 0xef,
        0x80 <= b2 <= 0xbf,
        0x80 <= b3 <= 0xbf,
    ensures
        codepoint_width_3(b1, b2, b3) <= 0xffff,
        0x800 <= codepoint_width_3(b1, b2, b3) <==> (b1 == 0xe0 ==> 0xa0 <= b2),
        0xd800 <= codepoint_width_3(b1, b2, b3) <= 0xdfff <==> (b1 == 0xed && 0x9f < b2),
{
}

proof fn lemma_width_4(b1: u8, b2: u8, b3: u8, b4: u8)
    by (bit_vector)
    requires
        0xf0 <= b1 <= 0xf7,
        0x80 <= b2 <= 0xbf,
        0x80 <= b3 <= 0xbf,
        0x80 <= b4 <= 0xbf,
    ensures
        0x10000 <= codepoint_width_4(b1, b2, b3, b4) <==> (b1 == 0xf0 ==> 0x90 <= b2),
        codepoint_width_4(b1, b2, b3, b4) <= 0x10ffff <==> (b1 <= 0xf4 && (b1 == 0xf4 ==> b2
            <= 0x8f)),
{
}

/// Well-formedness of the first character by byte ranges, and what it decodes to.
proof fn lemma_first_scalar(bytes: Seq<u8>)
    requires
        bytes.len() > 0,
    ensures
        valid_first_scalar(bytes) <==> 0 < width(bytes[0]) <= bytes.len() && begins_by_range(
            bytes.take(width(bytes[0])),
        ),
        valid_first_scalar(bytes) ==> {
            &&& length_of_first_scalar(bytes) == width(bytes[0])
            &&& is_scalar(decode_first_scalar(bytes))
        },
{
    let b1 = bytes[0];
    if b1 <= 0x7f {
        assert((b1 & 0x7f) as u32 <= 0x7f) by (bit_vector);
    }
    if bytes.len() >= 2 && is_leading_byte_width_2(b1) && is_continuation_byte(bytes[1]) {
        lemma_width_2(b1, bytes[1]);
    }
    if bytes.len() >= 3 && is_leading_byte_width_3(b1) && is_continuation_byte(bytes[1])
        && is_continuation_byte(bytes[2]) {
        lemma_width_3(b1, bytes[1], bytes[2]);
    }
    if bytes.len() >= 4 && is_leading_byte_width_4(b1) && is_continuation_byte(bytes[1])
        && is_continuation_byte(bytes[2]) && is_continuation_byte(bytes[3]) {
        lemma_width_4(b1, bytes[1], bytes[2], bytes[3]);
    }
}

/// The encoding of a character is its own first character.
proof fn lemma_encode_scalar(c: char)
    ensures
        encode_scalar(c as u32).len() > 0,
        valid_first_scalar(encode_scalar(c as u32)),
        length_of_first_scalar(encode_scalar(c as u32)) == encode_scalar(c as u32).len(),
{
    encode_utf8_first_scalar(seq![c]);
    assert(seq![c].drop_first() =~= seq![]);
    assert(encode_utf8(seq![c]) =~= encode_scalar(c as u32)) by {
        reveal_with_fuel(encode_utf8, 2);
    }
}

proof fn lemma_begins(p: Seq<u8>)
    ensures
        begins_scalar(p) <==> begins_by_range(p),
{
    if begins_scalar(p) {
        let c = choose|c: char| #[trigger] p.is_prefix_of(encode_scalar(c as u32));
        let e = encode_scalar(c as u32);
        lemma_encode_scalar(c);
        lemma_first_scalar(e);
        assert(e.take(e.len() as int) =~= e);
        if p.len() > 0 {
            assert(forall|i: int| 0 <= i < p.len() ==> p[i] == e[i]);
        }
    }
    if begins_by_range(p) {
        if p.len() == 0 {
            assert(p.is_prefix_of(encode_scalar('a' as u32)));
        } else {
            // Complete the sequence with the least bytes that can follow.
            let second: u8 = if p[0] == 0xe0 {
                0xa0
            } else if p[0] == 0xf0 {
                0x90
            } else {
                0x80
            };
            let rest = seq![p[0], second, 0x80u8, 0x80u8];
            let q = (p + rest.skip(p.len() as int)).take(width(p[0]));
            assert(q.take(width(q[0])) =~= q);
            lemma_first_scalar(q);
            assert(pop_first_scalar(q).len() == 0);
            assert(valid_utf8(q)) by {
                reveal_with_fuel(valid_utf8, 2);
            }
            decode_utf8_first_scalar(q);
            let c = decode_first_scalar(q) as char;
            assert(take_first_scalar(q) =~= q);
            assert(p.is_prefix_of(encode_scalar(c as u32)));
        }
    }
}

/// What stands at the front of some bytes.
enum Front {
    /// A character, in this many bytes.
    Scalar(char, usize),
    /// The beginning of a character that the bytes end before completing.
    Truncated,
    /// Bytes, this many, that can never complete.
    Broken(usize),
}

spec fn front_of(bytes: Seq<u8>) -> Front {
    if valid_first_scalar(bytes) {
        Front::Scalar(decode_first_scalar(bytes) as char, length_of_first_scalar(bytes) as usize)
    } else if begins_scalar(bytes) {
        Front::Truncated
    } else {
        Front::Broken(broken_len(bytes) as usize)
    }
}

/// Decodes what stands at `at`.
fn front(bytes: &[u8], at: usize) -> (front: Front)
    requires
        at < bytes@.len(),
    ensures
        front == front_of(bytes@.skip(at as int)),
{
    let ghost rest = bytes@.skip(at as int);
    proof {
        lemma_first_scalar(rest);
        lemma_begins(rest);
        if rest.len() >= 2 {
            lemma_begins(rest.take(2));
        }
        if rest.len() >= 3 {
            lemma_begins(rest.take(3));
        }
    }
    let left: usize = bytes.len() - at;
    let b1 = bytes[at];
    if b1 <= 0x7f {
        return scalar((b1 & 0x7f) as u32, 1);
    }
    if b1 < 0xc2 || 0xf4 < b1 {
        return Front::Broken(1);
    }
    if left < 2 {
        return Front::Truncated;
    }
    let b2 = bytes[at + 1];
    let low: u8 = if b1 == 0xe0 {
        0xa0
    } else if b1 == 0xf0 {
        0x90
    } else {
        0x80
    };
    let high: u8 = if b1 == 0xed {
        0x9f
    } else if b1 == 0xf4 {
        0x8f
    } else {
        0xbf
    };
    if b2 < low || high < b2 {
        return Front::Broken(1);
    }
    if b1 < 0xe0 {
        return scalar((((b1 & 0x1f) as u32) << 6) | ((b2 & 0x3f) as u32), 2);
    }
    if left < 3 {
        return Front::Truncated;
    }
    let b3 = bytes[at + 2];
    if b3 < 0x80 || 0xbf < b3 {
        return Front::Broken(2);
    }
    if b1 < 0xf0 {
        return scalar(
            (((b1 & 0x0f) as u32) << 12) | (((b2 & 0x3f) as u32) << 6) | ((b3 & 0x3f) as u32),
            3,
        );
    }
    if left < 4 {
        return Front::Truncated;
    }
    let b4 = bytes[at + 3];
    if b4 < 0x80 || 0xbf < b4 {
        return Front::Broken(3);
    }
    scalar(
        (((b1 & 0x07) as u32) << 18) | (((b2 & 0x3f) as u32) << 12) | (((b3 & 0x3f) as u32) << 6)
            | ((b4 & 0x3f) as u32),
        4,
    )
}

fn scalar(code: u32, len: usize) -> (front: Front)
    requires
        is_scalar(code),
    ensures
        front == Front::Scalar(code as char, len),
{
    let c = char::from_u32(code).unwrap();
    proof {
        char_u32_cast(c, code);
    }
    Front::Scalar(c, len)
}

/// Decodes segment bytes, carrying an incomplete trailing sequence into the next segment.
///
/// Bytes that can never complete are marked with a replacement character, and decoding
/// carries on behind them.
pub fn stitch(carry: &mut Vec<u8>, bytes: &[u8]) -> (out: String)
    ensures
        out@ == text_of(old(carry)@ + bytes@),
        final(carry)@ == held_of(old(carry)@ + bytes@),
{
    carry.extend_from_slice(bytes);
    let ghost all = carry@;
    assert(all =~= old(carry)@ + bytes@);
    let mut out = String::new();
    let mut at: usize = 0;
    assert(all.skip(0) =~= all);
    while at < carry.len()
        invariant
            carry@ == all,
            at <= all.len(),
            text_of(all) == out@ + text_of(all.skip(at as int)),
            held_of(all) == held_of(all.skip(at as int)),
        ensures
            at == all.len() || front_of(all.skip(at as int)) is Truncated,
        decreases all.len() - at,
    {
        let ghost rest = all.skip(at as int);
        match front(carry.as_slice(), at) {
            Front::Scalar(c, len) => {
                assert(pop_first_scalar(rest) =~= all.skip(at + len));
                out.push(c);
                at = at + len;
            },
            Front::Truncated => {
                break ;
            },
            Front::Broken(len) => {
                assert(rest.skip(len as int) =~= all.skip(at + len));
                out.push(REPLACEMENT);
                at = at + len;
            },
        }
    }
    let tail = carry.split_off(at);
    *carry = tail;
    out
}

/// The text of `bytes` as a whole: what [`text_of`] gives, and one more replacement
/// character where they end inside a character.
pub open spec fn lossy_of(bytes: Seq<u8>) -> Seq<char> {
    if held_of(bytes).len() == 0 {
        text_of(bytes)
    } else {
        text_of(bytes).push(REPLACEMENT)
    }
}

/// Decodes a complete output, marking what is no UTF-8 with replacement characters.
pub fn lossy(bytes: &[u8]) -> (out: String)
    ensures
        out@ == lossy_of(bytes@),
{
    let mut carry: Vec<u8> = Vec::new();
    let mut out = stitch(&mut carry, bytes);
    assert(Seq::<u8>::empty() + bytes@ =~= bytes@);
    if carry.len() > 0 {
        out.push(REPLACEMENT);
    }
    out
}

proof fn lemma_begins_closed(p: Seq<u8>, q: Seq<u8>)
    requires
        p.is_prefix_of(q),
        begins_scalar(q),
    ensures
        begins_scalar(p),
{
    let c = choose|c: char| #[trigger] q.is_prefix_of(encode_scalar(c as u32));
    assert(p.is_prefix_of(encode_scalar(c as u32)));
}

/// More bytes change nothing about the front of `a`, unless `a` ends inside a character.
proof fn lemma_front_extends(a: Seq<u8>, b: Seq<u8>)
    requires
        a.len() > 0,
        valid_first_scalar(a) || !begins_scalar(a),
    ensures
        front_of(a + b) == front_of(a),
        valid_first_scalar(a) ==> pop_first_scalar(a + b) == pop_first_scalar(a) + b,
        !valid_first_scalar(a) ==> (a + b).skip(broken_len(a)) == a.skip(broken_len(a)) + b,
{
    lemma_first_scalar(a);
    lemma_first_scalar(a + b);
    if valid_first_scalar(a) {
        assert((a + b).take(width(a[0])) =~= a.take(width(a[0])));
        assert(pop_first_scalar(a + b) =~= pop_first_scalar(a) + b);
    } else {
        let w = width(a[0]);
        if valid_first_scalar(a + b) {
            if a.len() >= w {
                assert((a + b).take(w) =~= a.take(w));
            } else {
                lemma_begins((a + b).take(w));
                lemma_begins_closed(a, (a + b).take(w));
            }
        }
        if begins_scalar(a + b) {
            lemma_begins_closed(a, a + b);
        }
        if a.len() >= 3 {
            assert((a + b).take(3) =~= a.take(3));
            assert((a + b).take(2) =~= a.take(2));
        } else if a.len() == 2 {
            assert((a + b).take(2) =~= a);
            assert(a.take(2) =~= a);
            if b.len() >= 1 && begins_scalar((a + b).take(3)) {
                lemma_begins_closed(a, (a + b).take(3));
            }
        } else {
            if b.len() >= 1 && begins_scalar((a + b).take(2)) {
                lemma_begins_closed(a, (a + b).take(2));
            }
            if b.len() >= 2 && begins_scalar((a + b).take(3)) {
                lemma_begins_closed(a, (a + b).take(3));
            }
        }
        assert((a + b).skip(broken_len(a)) =~= a.skip(broken_len(a)) + b);
    }
}

proof fn lemma_cut(a: Seq<u8>, b: Seq<u8>)
    ensures
        text_of(a + b) == text_of(a) + text_of(held_of(a) + b),
        held_of(a + b) == held_of(held_of(a) + b),
    decreases a.len(),
{
    if a.len() == 0 {
        assert(a + b =~= b);
        assert(held_of(a) + b =~= b);
        assert(text_of(a) + text_of(b) =~= text_of(b));
    } else if valid_first_scalar(a) {
        lemma_front_extends(a, b);
        lemma_cut(pop_first_scalar(a), b);
        assert(text_of(a + b) =~= text_of(a) + text_of(held_of(a) + b));
    } else if begins_scalar(a) {
        assert(text_of(a) + text_of(a + b) =~= text_of(a + b));
    } else {
        lemma_front_extends(a, b);
        lemma_cut(a.skip(broken_len(a)), b);
        assert(text_of(a + b) =~= text_of(a) + text_of(held_of(a) + b));
    }
}

/// Where the bytes are cut does not matter: stitching `a` and then `b` gives the text, and
/// leaves the carry, of stitching the two in one piece.
pub proof fn cuts_do_not_matter(carry: Seq<u8>, a: Seq<u8>, b: Seq<u8>)
    ensures
        text_of(carry + (a + b)) == text_of(carry + a) + text_of(held_of(carry + a) + b),
        held_of(carry + (a + b)) == held_of(held_of(carry + a) + b),
{
    lemma_cut(carry + a, b);
    assert(carry + (a + b) =~= (carry + a) + b);
}

/// Well-formed bytes come through whole: they decode to their text, and nothing is held
/// back.
pub proof fn complete_bytes_pass_through(bytes: Seq<u8>)
    requires
        valid_utf8(bytes),
    ensures
        text_of(bytes) == decode_utf8(bytes),
        held_of(bytes) == Seq::<u8>::empty(),
        lossy_of(bytes) == decode_utf8(bytes),
    decreases bytes.len(),
{
    if bytes.len() > 0 {
        complete_bytes_pass_through(pop_first_scalar(bytes));
    }
}

/// Text cut at any byte, inside a character or not, is rejoined.
pub proof fn split_text_is_rejoined(text: Seq<char>, cut: int)
    requires
        0 <= cut <= encode_utf8(text).len(),
    ensures
        ({
            let head = encode_utf8(text).take(cut);
            let tail = encode_utf8(text).skip(cut);
            &&& text_of(head) + text_of(held_of(head) + tail) == text
            &&& held_of(held_of(head) + tail) == Seq::<u8>::empty()
        }),
{
    let bytes = encode_utf8(text);
    assert(bytes.take(cut) + bytes.skip(cut) =~= bytes);
    lemma_cut(bytes.take(cut), bytes.skip(cut));
    encode_utf8_valid_utf8(text);
    encode_utf8_decode_utf8(text);
    complete_bytes_pass_through(bytes);
}

/// What is held back is the end of the input, at most three bytes, and the beginning of a
/// character that they do not complete.
pub proof fn held_bytes_begin_a_character(bytes: Seq<u8>)
    ensures
        held_of(bytes).len() <= 3,
        held_of(bytes).is_suffix_of(bytes),
        begins_scalar(held_of(bytes)),
        !valid_first_scalar(held_of(bytes)),
    decreases bytes.len(),
{
    if bytes.len() == 0 {
        lemma_begins(held_of(bytes));
    } else if valid_first_scalar(bytes) {
        held_bytes_begin_a_character(pop_first_scalar(bytes));
    } else if begins_scalar(bytes) {
        lemma_begins(bytes);
        lemma_first_scalar(bytes);
        if bytes.len() == width(bytes[0]) {
            assert(bytes.take(width(bytes[0])) =~= bytes);
        }
    } else {
        held_bytes_begin_a_character(bytes.skip(broken_len(bytes)));
    }
}

/// What is held back stays as it is until more bytes come.
pub proof fn held_bytes_wait(bytes: Seq<u8>)
    ensures
        text_of(held_of(bytes)) == Seq::<char>::empty(),
        held_of(held_of(bytes)) == held_of(bytes),
{
    held_bytes_begin_a_character(bytes);
}

/// No byte vanishes: each that is not held back is part of a character of the text, and
/// each character stands for one to four bytes.
pub proof fn every_byte_is_accounted_for(bytes: Seq<u8>)
    ensures
        text_of(bytes).len() + held_of(bytes).len() <= bytes.len(),
        bytes.len() <= 4 * text_of(bytes).len() + held_of(bytes).len(),
    decreases bytes.len(),
{
    if bytes.len() == 0 {
    } else if valid_first_scalar(bytes) {
        every_byte_is_accounted_for(pop_first_scalar(bytes));
    } else if begins_scalar(bytes) {
    } else {
        every_byte_is_accounted_for(bytes.skip(broken_len(bytes)));
    }
}

/// The bytes of a well-formed first character are its encoding.
proof fn lemma_first_is_encoded(bytes: Seq<u8>)
    requires
        bytes.len() > 0,
        valid_first_scalar(bytes),
    ensures
        take_first_scalar(bytes) == encode_scalar(decode_first_scalar(bytes) as char as u32),
{
    lemma_first_scalar(bytes);
    let q = take_first_scalar(bytes);
    assert(q =~= bytes.take(width(bytes[0])));
    assert(q.take(width(q[0])) =~= q);
    lemma_first_scalar(q);
    assert(decode_first_scalar(q) == decode_first_scalar(bytes));
    assert(pop_first_scalar(q).len() == 0);
    assert(valid_utf8(q)) by {
        reveal_with_fuel(valid_utf8, 2);
    }
    decode_utf8_first_scalar(q);
    assert(take_first_scalar(q) =~= q);
}

/// Bytes that open with an encoding open with a well-formed character.
proof fn lemma_encoded_is_first(bytes: Seq<u8>, c: char)
    requires
        encode_scalar(c as u32).is_prefix_of(bytes),
    ensures
        bytes.len() > 0,
        valid_first_scalar(bytes),
{
    let e = encode_scalar(c as u32);
    lemma_encode_scalar(c);
    lemma_first_scalar(e);
    assert(e[0] == bytes[0]);
    assert(e.take(e.len() as int) =~= e);
    assert(bytes.take(width(bytes[0])) =~= e);
    lemma_first_scalar(bytes);
}

/// Of bytes that neither open with a character nor begin one, the first [`broken_len`] are
/// the longest run that does begin one, or a single byte.
proof fn lemma_broken(bytes: Seq<u8>)
    requires
        bytes.len() > 0,
        !valid_first_scalar(bytes),
        !begins_scalar(bytes),
    ensures
        1 <= broken_len(bytes) <= bytes.len(),
        forall|c: char| !(#[trigger] encode_scalar(c as u32)).is_prefix_of(bytes),
        forall|c: char| !bytes.is_prefix_of(#[trigger] encode_scalar(c as u32)),
        broken_len(bytes) == 1 || begins_scalar(bytes.take(broken_len(bytes))),
        forall|n: int, c: char|
            broken_len(bytes) < n <= bytes.len() ==> !(#[trigger] bytes.take(n)).is_prefix_of(
                #[trigger] encode_scalar(c as u32),
            ),
{
    assert forall|c: char| !(#[trigger] encode_scalar(c as u32)).is_prefix_of(bytes) by {
        if encode_scalar(c as u32).is_prefix_of(bytes) {
            lemma_encoded_is_first(bytes, c);
        }
    }
    assert forall|n: int, c: char|
        broken_len(bytes) < n <= bytes.len() implies !(#[trigger] bytes.take(n)).is_prefix_of(
        #[trigger] encode_scalar(c as u32),
    ) by {
        let head = bytes.take(n);
        if head.is_prefix_of(encode_scalar(c as u32)) {
            assert(begins_scalar(head));
            lemma_begins(head);
            if n >= 4 {
                lemma_first_scalar(bytes);
                assert(bytes.take(width(bytes[0])) =~= head);
            }
        }
    }
}

/// The text is read off the bytes piece by piece. Each character stands for one piece, and
/// the pieces with what is held back are the bytes, in order. A piece is the encoding of its
/// character. Or its character is the replacement character: then no character opens there,
/// nor will one however the bytes go on, and the piece is as long as a run that begins some
/// character can be, or a single byte. What is held back begins a character and is not all
/// of it.
pub proof fn text_is_read_off_in_pieces(bytes: Seq<u8>) -> (pieces: Seq<Seq<u8>>)
    ensures
        pieces.len() == text_of(bytes).len(),
        pieces.flatten() + held_of(bytes) == bytes,
        exists|c: char|
            held_of(bytes).is_prefix_of(#[trigger] encode_scalar(c as u32)) && held_of(bytes).len()
                < encode_scalar(c as u32).len(),
        forall|i: int|
            0 <= i < pieces.len() ==> {
                let rest = pieces.skip(i).flatten() + held_of(bytes);
                ||| #[trigger] pieces[i] == encode_scalar(text_of(bytes)[i] as u32)
                ||| {
                    &&& text_of(bytes)[i] == '\u{FFFD}'
                    &&& 1 <= pieces[i].len() <= rest.len()
                    &&& forall|c: char| !(#[trigger] encode_scalar(c as u32)).is_prefix_of(rest)
                    &&& forall|c: char| !rest.is_prefix_of(#[trigger] encode_scalar(c as u32))
                    &&& pieces[i].len() == 1 || exists|c: char|
                        pieces[i].is_prefix_of(#[trigger] encode_scalar(c as u32))
                    &&& forall|n: int, c: char|
                        pieces[i].len() < n <= rest.len() ==> !(#[trigger] rest.take(
                            n,
                        )).is_prefix_of(#[trigger] encode_scalar(c as u32))
                }
            },
    decreases bytes.len(),
{
    held_bytes_begin_a_character(bytes);
    let held = held_of(bytes);
    let e = choose|c: char| held.is_prefix_of(#[trigger] encode_scalar(c as u32));
    lemma_encode_scalar(e);
    if held.len() == encode_scalar(e as u32).len() {
        assert(held =~= encode_scalar(e as u32));
    }
    if bytes.len() == 0 || (!valid_first_scalar(bytes) && begins_scalar(bytes)) {
        let pieces = Seq::<Seq<u8>>::empty();
        assert(pieces.flatten() + held =~= bytes);
        pieces
    } else {
        let n = if valid_first_scalar(bytes) {
            length_of_first_scalar(bytes)
        } else {
            broken_len(bytes)
        };
        lemma_first_scalar(bytes);
        let rest = bytes.skip(n);
        if valid_first_scalar(bytes) {
            lemma_first_is_encoded(bytes);
            assert(pop_first_scalar(bytes) =~= rest);
            assert(take_first_scalar(bytes) =~= bytes.take(n));
        } else {
            lemma_broken(bytes);
        }
        let behind = text_is_read_off_in_pieces(rest);
        let piece = bytes.take(n);
        let pieces = seq![piece] + behind;
        assert(pieces.drop_first() =~= behind);
        assert(pieces.flatten() =~= piece + behind.flatten());
        assert(held_of(rest) == held);
        assert(pieces.flatten() + held =~= piece + (behind.flatten() + held));
        assert(piece + rest =~= bytes);
        assert(text_of(bytes)[0] == text_of(bytes).first());
        assert forall|i: int| 0 <= i < pieces.len() implies {
            let rest = pieces.skip(i).flatten() + held;
            ||| #[trigger] pieces[i] == encode_scalar(text_of(bytes)[i] as u32)
            ||| {
                &&& text_of(bytes)[i] == '\u{FFFD}'
                &&& 1 <= pieces[i].len() <= rest.len()
                &&& forall|c: char| !(#[trigger] encode_scalar(c as u32)).is_prefix_of(rest)
                &&& forall|c: char| !rest.is_prefix_of(#[trigger] encode_scalar(c as u32))
                &&& pieces[i].len() == 1 || exists|c: char|
                    pieces[i].is_prefix_of(#[trigger] encode_scalar(c as u32))
                &&& forall|n: int, c: char|
                    pieces[i].len() < n <= rest.len() ==> !(#[trigger] rest.take(n)).is_prefix_of(
                        #[trigger] encode_scalar(c as u32),
                    )
            }
        } by {
            if i == 0 {
                assert(pieces.skip(0) =~= pieces);
            } else {
                assert(pieces.skip(i) =~= behind.skip(i - 1));
                assert(pieces[i] == behind[i - 1]);
                assert(text_of(bytes)[i] == text_of(rest)[i - 1]);
            }
        }
        pieces
    }
}

/// A complete output reads as its bytes do one by one, and where it ends inside a character
/// one more replacement character stands for the rest.
pub proof fn unfinished_outputs_are_marked(bytes: Seq<u8>)
    ensures
        lossy_of(bytes) == text_of(bytes) + if held_of(bytes).len() == 0 {
            Seq::<char>::empty()
        } else {
            seq!['\u{FFFD}']
        },
{
    assert(text_of(bytes) + Seq::<char>::empty() =~= text_of(bytes));
    assert(text_of(bytes) + seq!['\u{FFFD}'] =~= text_of(bytes).push('\u{FFFD}'));
}

} // verus!
