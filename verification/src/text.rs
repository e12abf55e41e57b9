//! Working with strings as sequences of characters.

use vstd::arithmetic::power::*;
use vstd::prelude::*;
use vstd::string::*;

verus! {

/// `String::push`: appends the character to the end of the string.
pub assume_specification[ String::push ](s: &mut String, ch: char)
    ensures
        final(s)@ == old(s)@.push(ch),
;

/// Unicode `White_Space`.
pub open spec fn is_blank(c: char) -> bool {
    ||| '\u{9}' <= c <= '\u{d}'
    ||| c == ' '
    ||| c == '\u{85}'
    ||| c == '\u{a0}'
    ||| c == '\u{1680}'
    ||| '\u{2000}' <= c <= '\u{200a}'
    ||| c == '\u{2028}'
    ||| c == '\u{2029}'
    ||| c == '\u{202f}'
    ||| c == '\u{205f}'
    ||| c == '\u{3000}'
}

/// `s` without its leading whitespace.
pub open spec fn trim_start_of(s: Seq<char>) -> Seq<char>
    decreases s.len(),
{
    if s.len() > 0 && is_blank(s[0]) {
        trim_start_of(s.drop_first())
    } else {
        s
    }
}

/// `s` without its trailing whitespace.
pub open spec fn trim_end_of(s: Seq<char>) -> Seq<char>
    decreases s.len(),
{
    if s.len() > 0 && is_blank(s.last()) {
        trim_end_of(s.drop_last())
    } else {
        s
    }
}

/// `s` without whitespace at either end.
pub open spec fn trim_of(s: Seq<char>) -> Seq<char> {
    trim_end_of(trim_start_of(s))
}

/// Whether `c` is whitespace.
pub fn is_whitespace(c: char) -> (res: bool)
    ensures
        res == is_blank(c),
{
    ('\u{9}' <= c && c <= '\u{d}') || c == ' ' || c == '\u{85}' || c == '\u{a0}' || c
        == '\u{1680}' || ('\u{2000}' <= c && c <= '\u{200a}') || c == '\u{2028}' || c
        == '\u{2029}' || c == '\u{202f}' || c == '\u{205f}' || c == '\u{3000}'
}

/// The characters of `s`.
pub fn chars_of(s: &str) -> (chars: Vec<char>)
    ensures
        chars@ == s@,
{
    let mut chars: Vec<char> = Vec::new();
    for c in iter: s.chars()
        invariant
            iter.seq() == s@,
            chars@ == s@.take(iter.index()),
    {
        chars.push(c);
        assert(chars@ =~= s@.take(iter.index() + 1));
    }
    assert(s@.take(s@.len() as int) =~= s@);
    chars
}

/// The string that `chars[from..to]` spell.
pub fn string_of(chars: &[char], from: usize, to: usize) -> (s: String)
    requires
        from <= to <= chars@.len(),
    ensures
        s@ == chars@.subrange(from as int, to as int),
{
    let mut s = String::new();
    let mut i: usize = from;
    assert(s@ =~= chars@.subrange(from as int, from as int));
    while i < to
        invariant
            from <= i <= to <= chars@.len(),
            s@ == chars@.subrange(from as int, i as int),
        decreases to - i,
    {
        s.push(chars[i]);
        i = i + 1;
        assert(s@ =~= chars@.subrange(from as int, i as int));
    }
    s
}

/// `s` without whitespace at either end.
pub fn trim(s: &str) -> (res: String)
    ensures
        res@ == trim_of(s@),
{
    let chars = chars_of(s);
    let mut from: usize = 0;
    assert(s@.skip(0) =~= s@);
    while from < chars.len() && is_whitespace(chars[from])
        invariant
            chars@ == s@,
            from <= chars.len(),
            trim_start_of(s@) == trim_start_of(s@.skip(from as int)),
        decreases chars.len() - from,
    {
        assert(s@.skip(from as int).drop_first() =~= s@.skip(from + 1));
        from = from + 1;
    }
    let to = blank_tail(chars.as_slice(), from);
    assert(s@.skip(from as int) =~= s@.subrange(from as int, s@.len() as int));
    string_of(chars.as_slice(), from, to)
}

/// `s` without trailing whitespace.
pub fn trim_end(s: &str) -> (res: String)
    ensures
        res@ == trim_end_of(s@),
{
    let chars = chars_of(s);
    let to = blank_tail(chars.as_slice(), 0);
    assert(s@.subrange(0, s@.len() as int) =~= s@);
    string_of(chars.as_slice(), 0, to)
}

/// Where the trailing whitespace of `chars[from..]` begins.
pub fn blank_tail(chars: &[char], from: usize) -> (to: usize)
    requires
        from <= chars@.len(),
    ensures
        from <= to <= chars@.len(),
        chars@.subrange(from as int, to as int) == trim_end_of(
            chars@.subrange(from as int, chars@.len() as int),
        ),
{
    let mut to: usize = chars.len();
    let ghost all = chars@.subrange(from as int, chars@.len() as int);
    while from < to && is_whitespace(chars[to - 1])
        invariant
            from <= to <= chars@.len(),
            trim_end_of(all) == trim_end_of(chars@.subrange(from as int, to as int)),
        decreases to,
    {
        assert(chars@.subrange(from as int, to as int).drop_last() =~= chars@.subrange(
            from as int,
            to - 1,
        ));
        to = to - 1;
    }
    to
}

/// The characters of `s` that are not whitespace.
pub open spec fn visible_of(s: Seq<char>) -> Seq<char> {
    s.filter(|c: char| !is_blank(c))
}

pub proof fn lemma_visible_add(a: Seq<char>, b: Seq<char>)
    ensures
        visible_of(a + b) == visible_of(a) + visible_of(b),
{
    Seq::filter_distributes_over_add(a, b, |c: char| !is_blank(c));
}

pub proof fn lemma_visible_one(c: char)
    ensures
        visible_of(seq![c]) == if is_blank(c) {
            Seq::empty()
        } else {
            seq![c]
        },
{
    let one = seq![c];
    reveal_with_fuel(Seq::filter, 2);
    assert(one.drop_last() =~= seq![]);
    assert(seq![].push(c) =~= one);
}

proof fn lemma_visible_trim_start(s: Seq<char>)
    ensures
        visible_of(trim_start_of(s)) == visible_of(s),
    decreases s.len(),
{
    if s.len() > 0 && is_blank(s[0]) {
        lemma_visible_trim_start(s.drop_first());
        lemma_visible_add(seq![s[0]], s.drop_first());
        lemma_visible_one(s[0]);
        assert(seq![s[0]] + s.drop_first() =~= s);
        assert(Seq::<char>::empty() + visible_of(s.drop_first()) =~= visible_of(s.drop_first()));
    }
}

proof fn lemma_visible_trim_end(s: Seq<char>)
    ensures
        visible_of(trim_end_of(s)) == visible_of(s),
    decreases s.len(),
{
    if s.len() > 0 && is_blank(s.last()) {
        lemma_visible_trim_end(s.drop_last());
        lemma_visible_add(s.drop_last(), seq![s.last()]);
        lemma_visible_one(s.last());
        assert(s.drop_last() + seq![s.last()] =~= s);
        assert(visible_of(s.drop_last()) + Seq::<char>::empty() =~= visible_of(s.drop_last()));
    }
}

/// Trimming takes away whitespace and nothing else.
pub proof fn trimming_keeps_what_is_visible(s: Seq<char>)
    ensures
        visible_of(trim_of(s)) == visible_of(s),
{
    lemma_visible_trim_start(s);
    lemma_visible_trim_end(trim_start_of(s));
}

/// `pattern` stands in `s` at `i`.
pub open spec fn occurs_at(s: Seq<char>, pattern: Seq<char>, i: int) -> bool {
    &&& 0 <= i
    &&& i + pattern.len() <= s.len()
    &&& s.subrange(i, i + pattern.len()) == pattern
}

fn is_at(chars: &[char], pattern: &[char], at: usize) -> (res: bool)
    requires
        at <= chars@.len(),
    ensures
        res == occurs_at(chars@, pattern@, at as int),
{
    let len: usize = chars.len();
    if len - at < pattern.len() {
        return false;
    }
    let mut i: usize = 0;
    while i < pattern.len()
        invariant
            i <= pattern@.len(),
            at + pattern@.len() <= len == chars@.len(),
            forall|j: int| 0 <= j < i ==> chars@[at + j] == pattern@[j],
        decreases pattern@.len() - i,
    {
        if chars[at + i] != pattern[i] {
            assert(chars@.subrange(at as int, at + pattern@.len())[i as int] != pattern@[i as int]);
            return false;
        }
        i = i + 1;
    }
    assert(chars@.subrange(at as int, at + pattern@.len()) =~= pattern@);
    true
}

/// Where `pattern` first stands in `chars`.
pub fn find(chars: &[char], pattern: &[char]) -> (res: Option<usize>)
    ensures
        match res {
            Some(i) => {
                &&& occurs_at(chars@, pattern@, i as int)
                &&& forall|j: int| j < i ==> !occurs_at(chars@, pattern@, j)
            },
            None => forall|j: int| !occurs_at(chars@, pattern@, j),
        },
{
    let mut i: usize = 0;
    loop
        invariant
            i <= chars@.len(),
            forall|j: int| j < i ==> !occurs_at(chars@, pattern@, j),
        decreases chars@.len() - i,
    {
        if is_at(chars, pattern, i) {
            return Some(i);
        }
        if i == chars.len() {
            return None;
        }
        i = i + 1;
    }
}

/// Where `pattern` last stands in `chars`, at `from` or later.
pub fn rfind(chars: &[char], pattern: &[char], from: usize) -> (res: Option<usize>)
    requires
        from <= chars@.len(),
    ensures
        match res {
            Some(i) => {
                &&& from <= i
                &&& occurs_at(chars@, pattern@, i as int)
                &&& forall|j: int| i < j ==> !occurs_at(chars@, pattern@, j)
            },
            None => forall|j: int| from <= j ==> !occurs_at(chars@, pattern@, j),
        },
{
    let mut i: usize = chars.len();
    loop
        invariant
            from <= i <= chars@.len(),
            forall|j: int| i < j ==> !occurs_at(chars@, pattern@, j),
        decreases i,
    {
        if is_at(chars, pattern, i) {
            return Some(i);
        }
        if i == from {
            return None;
        }
        i = i - 1;
    }
}

/// `c`, `n` times.
pub open spec fn repeated(c: char, n: int) -> Seq<char> {
    Seq::new(n as nat, |i: int| c)
}

/// Appends `c`, `n` times.
pub fn push_repeated(out: &mut String, c: char, n: usize)
    ensures
        final(out)@ == old(out)@ + repeated(c, n as int),
{
    let mut i: usize = 0;
    assert(out@ =~= old(out)@ + repeated(c, 0));
    while i < n
        invariant
            i <= n,
            out@ == old(out)@ + repeated(c, i as int),
        decreases n - i,
    {
        out.push(c);
        i = i + 1;
        assert(out@ =~= old(out)@ + repeated(c, i as int));
    }
}

/// The decimal digit `d`.
pub open spec fn digit(d: nat) -> char {
    (48 + d) as char
}

/// `n` in decimal.
pub open spec fn decimal_of(n: nat) -> Seq<char>
    decreases n,
{
    if n < 10 {
        seq![digit(n)]
    } else {
        decimal_of(n / 10).push(digit(n % 10))
    }
}

/// `s`, with `fill` in front of it up to `width` characters.
pub open spec fn padded(s: Seq<char>, width: int, fill: char) -> Seq<char> {
    if s.len() < width {
        repeated(fill, width - s.len()) + s
    } else {
        s
    }
}

/// Appends `n` in decimal.
pub fn push_decimal(out: &mut String, n: u128)
    ensures
        final(out)@ == old(out)@ + decimal_of(n as nat),
    decreases n,
{
    if n >= 10 {
        push_decimal(out, n / 10);
    }
    let d: u8 = (n % 10) as u8;
    out.push((48 + d) as char);
    assert(out@ =~= old(out)@ + decimal_of(n as nat));
}

/// Appends `n` in decimal, with `fill` in front of it up to `width` characters.
pub fn push_padded(out: &mut String, n: u128, width: usize, fill: char)
    ensures
        final(out)@ == old(out)@ + padded(decimal_of(n as nat), width as int, fill),
{
    let mut number = String::new();
    push_decimal(&mut number, n);
    assert(number@ =~= decimal_of(n as nat));
    let len: usize = number.as_str().unicode_len();
    if len < width {
        push_repeated(out, fill, width - len);
    }
    out.append(number.as_str());
    assert(out@ =~= old(out)@ + padded(decimal_of(n as nat), width as int, fill));
}

/// `c` is a decimal digit.
pub open spec fn is_digit(c: char) -> bool {
    '0' <= c <= '9'
}

/// The number that decimal digits spell.
pub open spec fn value_of(digits: Seq<char>) -> nat
    decreases digits.len(),
{
    if digits.len() == 0 {
        0
    } else {
        (value_of(digits.drop_last()) * 10 + (digits.last() as int - 48)) as nat
    }
}

/// A number is read back as it was written.
pub proof fn decimal_reads_back(n: nat)
    ensures
        decimal_of(n).len() > 0,
        forall|i: int| 0 <= i < decimal_of(n).len() ==> is_digit(#[trigger] decimal_of(n)[i]),
        value_of(decimal_of(n)) == n,
    decreases n,
{
    if n < 10 {
        assert(decimal_of(n).drop_last() =~= seq![]);
        reveal_with_fuel(value_of, 2);
    } else {
        decimal_reads_back(n / 10);
        assert(decimal_of(n).drop_last() =~= decimal_of(n / 10));
    }
}

/// A number is written without leading zeros, in digits alone.
pub proof fn decimals_have_no_leading_zero(n: nat)
    ensures
        decimal_of(n).len() > 0,
        forall|i: int| 0 <= i < decimal_of(n).len() ==> '0' <= #[trigger] decimal_of(n)[i] <= '9',
        decimal_of(n)[0] == '0' <==> n == 0,
        n == 0 ==> decimal_of(n).len() == 1,
    decreases n,
{
    if n >= 10 {
        decimals_have_no_leading_zero(n / 10);
        assert(decimal_of(n)[0] == decimal_of(n / 10)[0]);
    }
}

/// Digits count by their place: those of `a` in front of those of `b` count ten times more
/// for each digit of `b`, and a digit on its own counts what it shows.
pub proof fn digits_count_by_their_place(a: Seq<char>, b: Seq<char>, c: char)
    requires
        forall|i: int| 0 <= i < a.len() ==> '0' <= #[trigger] a[i] <= '9',
        forall|i: int| 0 <= i < b.len() ==> '0' <= #[trigger] b[i] <= '9',
        '0' <= c <= '9',
    ensures
        value_of(a + b) == value_of(a) * pow(10, b.len()) + value_of(b),
        value_of(seq![c]) == c as int - '0' as int,
    decreases b.len(),
{
    assert(value_of(seq![c]) == c as int - '0' as int) by {
        reveal_with_fuel(value_of, 2);
        assert(seq![c].drop_last() =~= seq![]);
    }
    if b.len() == 0 {
        assert(a + b =~= a);
        lemma_pow0(10);
        assert(value_of(a) * 1 == value_of(a)) by (nonlinear_arith);
    } else {
        let front = b.drop_last();
        assert(forall|i: int| 0 <= i < front.len() ==> #[trigger] front[i] == b[i]);
        digits_count_by_their_place(a, front, c);
        assert((a + b).drop_last() =~= a + front);
        assert((a + b).last() == b.last());
        assert('0' <= b[b.len() - 1] <= '9');
        let v = value_of(a) as int;
        let p = pow(10, front.len());
        lemma_pow_adds(10, front.len(), 1);
        lemma_pow1(10);
        assert(pow(10, b.len()) == p * 10);
        assert((v * p) * 10 == v * (p * 10)) by (nonlinear_arith);
    }
}

/// Trimming stops at what is visible: what is left is a part of `s`, all around it is
/// whitespace, and it neither begins nor ends with any.
pub proof fn trimming_stops_at_what_is_visible(s: Seq<char>)
    ensures
        exists|i: int, j: int|
            {
                &&& 0 <= i <= j <= s.len()
                &&& trim_of(s) == #[trigger] s.subrange(i, j)
                &&& forall|k: int| 0 <= k < i || j <= k < s.len() ==> is_blank(#[trigger] s[k])
                &&& i < j ==> !is_blank(s[i]) && !is_blank(s[j - 1])
            },
{
    let front = lemma_trim_start_at(s);
    let rest = s.skip(front);
    let len = lemma_trim_end_at(rest);
    assert(forall|k: int| 0 <= k < rest.len() ==> #[trigger] rest[k] == s[front + k]);
    assert forall|k: int| 0 <= k < front || front + len <= k < s.len() implies is_blank(
        #[trigger] s[k],
    ) by {
        if front + len <= k {
            assert(is_blank(rest[k - front]));
        }
    }
    assert(trim_of(s) =~= s.subrange(front, front + len));
    if len > 0 {
        assert(rest[0] == s[front]);
        assert(rest[len - 1] == s[front + len - 1]);
    }
}

/// Nothing of whitespace is visible.
pub proof fn lemma_blank_is_invisible(s: Seq<char>)
    requires
        forall|k: int| 0 <= k < s.len() ==> is_blank(#[trigger] s[k]),
    ensures
        visible_of(s) == Seq::<char>::empty(),
    decreases s.len(),
{
    reveal(Seq::filter);
    if s.len() > 0 {
        let front = s.drop_last();
        assert(forall|k: int| 0 <= k < front.len() ==> #[trigger] front[k] == s[k]);
        lemma_blank_is_invisible(front);
        assert(is_blank(s[s.len() - 1]));
    }
}

/// Text that is trimmed away is whitespace throughout.
pub proof fn lemma_blank_if_trimmed_away(s: Seq<char>)
    ensures
        trim_of(s).len() == 0 ==> forall|k: int| 0 <= k < s.len() ==> is_blank(#[trigger] s[k]),
{
    trimming_stops_at_what_is_visible(s);
}

/// Trimming the end stops at what is visible: what is left is the front of `s`, all behind
/// it is whitespace, and it does not end with any.
pub proof fn trimming_the_end_stops_at_what_is_visible(s: Seq<char>)
    ensures
        exists|j: int|
            {
                &&& 0 <= j <= s.len()
                &&& trim_end_of(s) == #[trigger] s.take(j)
                &&& forall|k: int| j <= k < s.len() ==> is_blank(#[trigger] s[k])
                &&& j > 0 ==> !is_blank(s[j - 1])
            },
{
    let j = lemma_trim_end_at(s);
    assert(trim_end_of(s) == s.take(j));
}

proof fn lemma_trim_start_at(s: Seq<char>) -> (i: int)
    ensures
        0 <= i <= s.len(),
        trim_start_of(s) == s.skip(i),
        forall|k: int| 0 <= k < i ==> is_blank(#[trigger] s[k]),
        i < s.len() ==> !is_blank(s[i]),
    decreases s.len(),
{
    if s.len() > 0 && is_blank(s[0]) {
        let rest = s.drop_first();
        let i = lemma_trim_start_at(rest);
        assert forall|k: int| 0 <= k < i + 1 implies is_blank(#[trigger] s[k]) by {
            if k > 0 {
                assert(rest[k - 1] == s[k]);
            }
        }
        assert(rest.skip(i) =~= s.skip(i + 1));
        i + 1
    } else {
        assert(s.skip(0) =~= s);
        0
    }
}

proof fn lemma_trim_end_at(s: Seq<char>) -> (j: int)
    ensures
        0 <= j <= s.len(),
        trim_end_of(s) == s.take(j),
        forall|k: int| j <= k < s.len() ==> is_blank(#[trigger] s[k]),
        j > 0 ==> !is_blank(s[j - 1]),
    decreases s.len(),
{
    if s.len() > 0 && is_blank(s.last()) {
        let front = s.drop_last();
        let j = lemma_trim_end_at(front);
        assert forall|k: int| j <= k < s.len() implies is_blank(#[trigger] s[k]) by {
            if k < front.len() {
                assert(front[k] == s[k]);
            }
        }
        assert(front.take(j) =~= s.take(j));
        j
    } else {
        assert(s.take(s.len() as int) =~= s);
        s.len() as int
    }
}

/// What is visible is every character that is not whitespace, in order.
pub proof fn visible_characters_are_the_others(s: Seq<char>)
    ensures
        visible_of(s) == s.filter(|c: char| !is_blank(c)),
{
}

/// A pattern stands where its characters do, one by one.
pub proof fn patterns_match_character_by_character(s: Seq<char>, pattern: Seq<char>, i: int)
    ensures
        occurs_at(s, pattern, i) <==> {
            &&& 0 <= i
            &&& i + pattern.len() <= s.len()
            &&& forall|k: int| 0 <= k < pattern.len() ==> s[i + k] == #[trigger] pattern[k]
        },
{
    if 0 <= i && i + pattern.len() <= s.len() {
        let part = s.subrange(i, i + pattern.len());
        if occurs_at(s, pattern, i) {
            assert forall|k: int| 0 <= k < pattern.len() implies s[i + k] == #[trigger] pattern[k]
                by {
                assert(part[k] == s[i + k]);
            }
        }
        if forall|k: int| 0 <= k < pattern.len() ==> s[i + k] == #[trigger] pattern[k] {
            assert(part =~= pattern);
        }
    }
}

/// Padding fills up in front, with the one character, to the width and no further.
pub proof fn padding_fills_up_in_front(s: Seq<char>, width: int, fill: char)
    ensures
        ({
            let res = padded(s, width, fill);
            let front = res.len() - s.len();
            &&& res.len() == if s.len() < width {
                width
            } else {
                s.len() as int
            }
            &&& res.skip(front) == s
            &&& forall|i: int| 0 <= i < front ==> #[trigger] res[i] == fill
        }),
{
    let res = padded(s, width, fill);
    assert(res.skip(res.len() - s.len()) =~= s);
}

/// A character repeated is that often there, and nothing else is.
pub proof fn repeating_repeats(c: char, n: int)
    requires
        0 <= n,
    ensures
        repeated(c, n).len() == n,
        forall|i: int| 0 <= i < n ==> #[trigger] repeated(c, n)[i] == c,
{
}

} // verus!
