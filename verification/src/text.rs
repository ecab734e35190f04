//! Text as sequences of characters: searching, trimming, and whole numbers in decimal.
use vstd::prelude::*;
use vstd::string::*;
use vstd::utf8::*;

verus! {

/// The error of [`String::from_utf8`], carried as it comes.
#[verifier::external_type_specification]
#[verifier::external_body]
pub struct ExFromUtf8Error(std::string::FromUtf8Error);

/// `std::string::String::from_utf8` gives a string exactly when the bytes are well-formed
/// UTF-8, and the string then holds the characters that the bytes encode.
pub assume_specification[ String::from_utf8 ](vec: Vec<u8>) -> (r: Result<
    String,
    std::string::FromUtf8Error,
>)
    ensures
        r is Ok <==> valid_utf8(vec@),
        r matches Ok(s) ==> s@ == decode_utf8(vec@),
;

/// The text that `bytes` encode, if they are well-formed UTF-8.
pub open spec fn utf8_text(bytes: Seq<u8>) -> Option<Seq<char>> {
    if valid_utf8(bytes) {
        Some(decode_utf8(bytes))
    } else {
        None
    }
}

/// A text is read back from its encoding, and from no other bytes.
pub proof fn law_text_read_back(text: Seq<char>, bytes: Seq<u8>)
    ensures
        utf8_text(encode_utf8(text)) == Some(text),
        utf8_text(bytes) == Some(text) ==> bytes == encode_utf8(text),
        utf8_text(bytes) is Some <==> exists|t: Seq<char>| bytes == #[trigger] encode_utf8(t),
{
    encode_utf8_valid_utf8(text);
    encode_utf8_decode_utf8(text);
    if utf8_text(bytes) is Some {
        decode_utf8_encode_utf8(bytes);
        assert(bytes == encode_utf8(decode_utf8(bytes)));
    }
    if exists|t: Seq<char>| bytes == #[trigger] encode_utf8(t) {
        let t = choose|t: Seq<char>| bytes == #[trigger] encode_utf8(t);
        encode_utf8_valid_utf8(t);
    }
}

/// Decodes UTF-8.
pub fn decode(bytes: Vec<u8>) -> (r: Option<String>)
    ensures
        r is Some <==> utf8_text(bytes@) is Some,
        r matches Some(s) ==> Some(s@) == utf8_text(bytes@),
{
    match String::from_utf8(bytes) {
        Ok(s) => Some(s),
        Err(_) => None,
    }
}

/// The characters of `s`, one by one.
pub fn chars_of(s: &str) -> (v: Vec<char>)
    ensures
        v@ == s@,
{
    let mut v: Vec<char> = Vec::new();
    for c in it: s.chars()
        invariant
            it.seq() == s@,
            v@ == s@.take(it.index()),
    {
        assert(s@.take(it.index() + 1) == s@.take(it.index()).push(c));
        v.push(c);
    }
    assert(s@.take(s@.len() as int) == s@);
    v
}

/// `word` stands in `text` from position `i` on.
pub open spec fn occurs_at(text: Seq<char>, word: Seq<char>, i: int) -> bool {
    0 <= i && i + word.len() <= text.len() && text.subrange(i, i + word.len()) == word
}

/// `word` stands somewhere in `text`.
pub open spec fn has_word(text: Seq<char>, word: Seq<char>) -> bool {
    exists|i: int| occurs_at(text, word, i)
}

/// A word is found wherever it stands, whatever is around it.
pub proof fn law_word_is_found(before: Seq<char>, word: Seq<char>, after: Seq<char>)
    ensures
        has_word(before + word + after, word),
{
    let text = before + word + after;
    assert(text.subrange(before.len() as int, (before.len() + word.len()) as int) =~= word);
    assert(occurs_at(text, word, before.len() as int));
}

/// A word that is found stands in the text, character by character.
pub proof fn law_found_word_is_there(text: Seq<char>, word: Seq<char>)
    ensures
        has_word(text, word) ==> exists|before: Seq<char>, after: Seq<char>|
            text == #[trigger] (before + word + after),
{
    if has_word(text, word) {
        let i = choose|i: int| occurs_at(text, word, i);
        let before = text.take(i);
        let after = text.skip(i + word.len());
        assert(text =~= before + word + after);
    }
}

/// Whether `word` stands in `text` from position `i` on.
fn is_at(text: &Vec<char>, word: &Vec<char>, i: usize) -> (b: bool)
    requires
        i + word@.len() <= text@.len(),
    ensures
        b == occurs_at(text@, word@, i as int),
{
    let size: usize = text.len();
    let mut k: usize = 0;
    while k < word.len()
        invariant
            k <= word@.len(),
            i + word@.len() <= size,
            size == text@.len(),
            forall|j: int| 0 <= j < k ==> text@[i + j] == word@[j],
        decreases word@.len() - k,
    {
        if text[i + k] != word[k] {
            assert(text@.subrange(i as int, i + word@.len())[k as int] != word@[k as int]);
            return false;
        }
        k = k + 1;
    }
    assert(text@.subrange(i as int, i + word@.len()) == word@);
    true
}

/// Whether `word` stands somewhere in `text`.
pub fn contains(text: &str, word: &str) -> (b: bool)
    ensures
        b == has_word(text@, word@),
{
    let text_chars = chars_of(text);
    let word_chars = chars_of(word);
    if word_chars.len() > text_chars.len() {
        return false;
    }
    let last: usize = text_chars.len() - word_chars.len();
    let mut i: usize = 0;
    while i <= last
        invariant
            i <= last + 1,
            last + word_chars@.len() == text_chars@.len(),
            text_chars@ == text@,
            word_chars@ == word@,
            forall|j: int| 0 <= j < i ==> !occurs_at(text@, word@, j),
        decreases last + 1 - i,
    {
        if is_at(&text_chars, &word_chars, i) {
            return true;
        }
        if i == last {
            assert forall|j: int| !occurs_at(text@, word@, j) by {
                if 0 <= j && j + word@.len() <= text@.len() {
                    assert(j <= i);
                }
            }
            return false;
        }
        i = i + 1;
    }
    false
}

/// The characters of Unicode's property White_Space.
pub open spec fn is_space(c: char) -> bool {
    ||| '\u{9}' <= c <= '\u{d}'
    ||| c == '\u{20}'
    ||| c == '\u{85}'
    ||| c == '\u{a0}'
    ||| c == '\u{1680}'
    ||| '\u{2000}' <= c <= '\u{200a}'
    ||| c == '\u{2028}'
    ||| c == '\u{2029}'
    ||| c == '\u{202f}'
    ||| c == '\u{205f}'
    ||| c == '\u{3000}'
}

/// Whether `c` is white space.
pub fn white_space(c: char) -> (b: bool)
    ensures
        b == is_space(c),
{
    ('\u{9}' <= c && c <= '\u{d}') || c == '\u{20}' || c == '\u{85}' || c == '\u{a0}' || c
        == '\u{1680}' || ('\u{2000}' <= c && c <= '\u{200a}') || c == '\u{2028}' || c == '\u{2029}'
        || c == '\u{202f}' || c == '\u{205f}' || c == '\u{3000}'
}

/// `s` without the white space in front.
pub open spec fn trim_start(s: Seq<char>) -> Seq<char>
    decreases s.len(),
{
    if s.len() > 0 && is_space(s.first()) {
        trim_start(s.drop_first())
    } else {
        s
    }
}

/// `s` without the white space at its end.
pub open spec fn trim_end(s: Seq<char>) -> Seq<char>
    decreases s.len(),
{
    if s.len() > 0 && is_space(s.last()) {
        trim_end(s.drop_last())
    } else {
        s
    }
}

/// `s` without the white space around it.
pub open spec fn trimmed(s: Seq<char>) -> Seq<char> {
    trim_end(trim_start(s))
}

/// White space around a text is dropped, and nothing of the text itself.
pub proof fn law_trimmed(before: Seq<char>, text: Seq<char>, after: Seq<char>)
    requires
        forall|i: int| 0 <= i < before.len() ==> is_space(#[trigger] before[i]),
        forall|i: int| 0 <= i < after.len() ==> is_space(#[trigger] after[i]),
        text.len() > 0 ==> !is_space(text.first()) && !is_space(text.last()),
    ensures
        trimmed(before + text + after) == text,
{
    lemma_trim_start(before, text + after);
    assert(before + text + after =~= before + (text + after));
    if text.len() == 0 {
        assert(text + after =~= after);
        lemma_trim_start(after, text);
        assert(after + text =~= after);
        assert(trim_start(text) == text);
        assert(trim_end(text) == text);
    } else {
        assert((text + after).first() == text.first());
        assert(trim_start(text + after) == text + after);
        lemma_trim_end(text, after);
        assert(trim_end(text) == text);
    }
}

proof fn lemma_trim_start(before: Seq<char>, text: Seq<char>)
    requires
        forall|i: int| 0 <= i < before.len() ==> is_space(#[trigger] before[i]),
    ensures
        trim_start(before + text) == trim_start(text),
    decreases before.len(),
{
    if before.len() == 0 {
        assert(before + text =~= text);
    } else {
        let whole = before + text;
        assert(whole.first() == before[0]);
        assert(whole.drop_first() =~= before.drop_first() + text);
        assert forall|i: int| 0 <= i < before.drop_first().len() implies is_space(
            #[trigger] before.drop_first()[i],
        ) by {
            assert(before.drop_first()[i] == before[i + 1]);
        }
        lemma_trim_start(before.drop_first(), text);
    }
}

proof fn lemma_trim_end(text: Seq<char>, after: Seq<char>)
    requires
        forall|i: int| 0 <= i < after.len() ==> is_space(#[trigger] after[i]),
    ensures
        trim_end(text + after) == trim_end(text),
    decreases after.len(),
{
    if after.len() == 0 {
        assert(text + after =~= text);
    } else {
        let whole = text + after;
        assert(whole.last() == after[after.len() - 1]);
        assert(whole.drop_last() =~= text + after.drop_last());
        assert forall|i: int| 0 <= i < after.drop_last().len() implies is_space(
            #[trigger] after.drop_last()[i],
        ) by {
            assert(after.drop_last()[i] == after[i]);
        }
        lemma_trim_end(text, after.drop_last());
    }
}

/// The part of `chars` from position `from` on, without the white space around it, as a pair of
/// positions.
pub fn trim(chars: &Vec<char>, from: usize) -> (r: (usize, usize))
    requires
        from <= chars@.len(),
    ensures
        from <= r.0 <= r.1 <= chars@.len(),
        chars@.subrange(r.0 as int, r.1 as int) == trimmed(chars@.skip(from as int)),
{
    let mut lo: usize = from;
    while lo < chars.len() && white_space(chars[lo])
        invariant
            from <= lo <= chars@.len(),
            trim_start(chars@.skip(lo as int)) == trim_start(chars@.skip(from as int)),
        decreases chars@.len() - lo,
    {
        assert(chars@.skip(lo as int).drop_first() == chars@.skip(lo + 1));
        lo = lo + 1;
    }
    assert(trim_start(chars@.skip(lo as int)) == chars@.skip(lo as int));
    let mut hi: usize = chars.len();
    assert(chars@.subrange(lo as int, hi as int) == chars@.skip(lo as int));
    while lo < hi && white_space(chars[hi - 1])
        invariant
            lo <= hi <= chars@.len(),
            trim_end(chars@.subrange(lo as int, hi as int)) == trim_end(chars@.skip(lo as int)),
        decreases hi,
    {
        assert(chars@.subrange(lo as int, hi as int).drop_last() == chars@.subrange(
            lo as int,
            hi - 1,
        ));
        hi = hi - 1;
    }
    (lo, hi)
}

/// A decimal digit.
pub open spec fn is_digit(c: char) -> bool {
    '0' <= c <= '9'
}

/// Every character of `s` is a decimal digit.
pub open spec fn all_digits(s: Seq<char>) -> bool {
    forall|i: int| 0 <= i < s.len() ==> is_digit(#[trigger] s[i])
}

/// The number that `s` denotes in base ten, for digits.
pub open spec fn digits_value(s: Seq<char>) -> int
    decreases s.len(),
{
    if s.len() == 0 {
        0
    } else {
        digits_value(s.drop_last()) * 10 + (s.last() as int - '0' as int)
    }
}

/// `s` without one leading plus sign.
pub open spec fn without_plus(s: Seq<char>) -> Seq<char> {
    if s.len() > 0 && s.first() == '+' {
        s.drop_first()
    } else {
        s
    }
}

/// The number up to `max` that `s` denotes: an optional plus sign, then digits and nothing else.
pub open spec fn number(s: Seq<char>, max: int) -> Option<int> {
    let digits = without_plus(s);
    if digits.len() > 0 && all_digits(digits) && digits_value(digits) <= max {
        Some(digits_value(digits))
    } else {
        None
    }
}

/// Further digits do not make a number smaller.
proof fn lemma_digits_grow(s: Seq<char>, k: int)
    requires
        all_digits(s),
        0 <= k <= s.len(),
    ensures
        0 <= digits_value(s.take(k)) <= digits_value(s),
    decreases s.len(),
{
    if s.len() == 0 {
        assert(s.take(k) == s);
    } else if k == s.len() {
        assert(s.take(k) == s);
        lemma_digits_grow(s.drop_last(), k - 1);
        assert(is_digit(s.last()));
    } else {
        lemma_digits_grow(s.drop_last(), k);
        assert(s.drop_last().take(k) == s.take(k));
        assert(is_digit(s.last()));
    }
}

/// Why a text denotes no number.
#[derive(Clone, Copy, Debug, PartialEq, Eq, Structural)]
pub enum NumberFault {
    /// There is no text.
    Empty,
    /// Something other than a digit stands where a digit should.
    InvalidDigit,
    /// The number is too large.
    TooLarge,
}

impl NumberFault {
    /// What is told of the fault.
    pub open spec fn text(self) -> Seq<char> {
        match self {
            NumberFault::Empty => "cannot parse integer from empty string"@,
            NumberFault::InvalidDigit => "invalid digit found in string"@,
            NumberFault::TooLarge => "number too large to fit in target type"@,
        }
    }

    /// What is told of the fault.
    pub fn message(self) -> (s: &'static str)
        ensures
            s@ == self.text(),
    {
        match self {
            NumberFault::Empty => "cannot parse integer from empty string",
            NumberFault::InvalidDigit => "invalid digit found in string",
            NumberFault::TooLarge => "number too large to fit in target type",
        }
    }
}

/// The first fault of `digits`, read from the left, as digits of a number up to `max`.
pub open spec fn digits_fault(digits: Seq<char>, max: int) -> Option<NumberFault>
    decreases digits.len(),
{
    if digits.len() == 0 {
        None
    } else if digits_fault(digits.drop_last(), max) is Some {
        digits_fault(digits.drop_last(), max)
    } else if !is_digit(digits.last()) {
        Some(NumberFault::InvalidDigit)
    } else if digits_value(digits) > max {
        Some(NumberFault::TooLarge)
    } else {
        None
    }
}

/// Why `s` denotes no number up to `max`, if it does not.
pub open spec fn number_fault(s: Seq<char>, max: int) -> Option<NumberFault> {
    if s.len() == 0 {
        Some(NumberFault::Empty)
    } else if without_plus(s).len() == 0 {
        Some(NumberFault::InvalidDigit)
    } else {
        digits_fault(without_plus(s), max)
    }
}

/// What follows a fault does not change it.
proof fn lemma_fault_stays(digits: Seq<char>, max: int, k: int)
    requires
        0 <= k <= digits.len(),
        digits_fault(digits.take(k), max) is Some,
    ensures
        digits_fault(digits, max) == digits_fault(digits.take(k), max),
    decreases digits.len(),
{
    if k == digits.len() {
        assert(digits.take(k) == digits);
    } else {
        assert(digits.drop_last().take(k) == digits.take(k));
        lemma_fault_stays(digits.drop_last(), max, k);
    }
}

proof fn lemma_faultless(digits: Seq<char>, max: int)
    requires
        0 <= max,
    ensures
        digits_fault(digits, max) is None <==> all_digits(digits) && digits_value(digits) <= max,
    decreases digits.len(),
{
    if digits.len() > 0 {
        let front = digits.drop_last();
        lemma_faultless(front, max);
        if all_digits(digits) {
            assert forall|i: int| 0 <= i < front.len() implies is_digit(#[trigger] front[i]) by {
                assert(front[i] == digits[i]);
            }
            lemma_digits_grow(digits, front.len() as int);
            assert(digits.take(front.len() as int) == front);
            assert(is_digit(digits[digits.len() - 1]));
        }
        if all_digits(front) && is_digit(digits.last()) {
            assert forall|i: int| 0 <= i < digits.len() implies is_digit(#[trigger] digits[i]) by {
                if i < front.len() {
                    assert(front[i] == digits[i]);
                }
            }
        }
    }
}

/// A text has no fault exactly when it denotes a number.
pub proof fn law_no_fault_in_numbers(s: Seq<char>, max: int)
    requires
        0 <= max,
    ensures
        number_fault(s, max) is None <==> number(s, max) is Some,
{
    lemma_faultless(without_plus(s), max);
}

/// Reads the number up to `max` that stands in `chars` between the positions `from` and `to`, or
/// finds the fault in it.
pub fn parse_number(chars: &Vec<char>, from: usize, to: usize, max: u64) -> (r: Result<
    u64,
    NumberFault,
>)
    requires
        from <= to <= chars@.len(),
    ensures
        ({
            let text = chars@.subrange(from as int, to as int);
            match r {
                Ok(n) => number(text, max as int) == Some(n as int),
                Err(fault) => number(text, max as int) is None && number_fault(text, max as int)
                    == Some(fault),
            }
        }),
{
    let ghost whole = chars@.subrange(from as int, to as int);
    proof {
        law_no_fault_in_numbers(whole, max as int);
    }
    if from == to {
        return Err(NumberFault::Empty);
    }
    let start: usize = if chars[from] == '+' {
        from + 1
    } else {
        from
    };
    let ghost digits = chars@.subrange(start as int, to as int);
    assert(digits == without_plus(whole));
    if start == to {
        return Err(NumberFault::InvalidDigit);
    }
    let mut value: u64 = 0;
    let mut i: usize = start;
    assert(digits.take(0) == Seq::<char>::empty());
    while i < to
        invariant
            start <= i <= to <= chars@.len(),
            start < to,
            digits == chars@.subrange(start as int, to as int),
            digits == without_plus(whole),
            whole.len() > 0,
            whole == chars@.subrange(from as int, to as int),
            number_fault(whole, max as int) is None <==> number(whole, max as int) is Some,
            digits_fault(digits.take(i - start), max as int) is None,
            value == digits_value(digits.take(i - start)),
            value <= max,
        decreases to - i,
    {
        let c: char = chars[i];
        let ghost next = digits.take(i - start + 1);
        assert(digits[i - start] == c);
        assert(next.drop_last() == digits.take(i - start));
        assert(next.last() == c);
        if c < '0' || '9' < c {
            proof {
                lemma_fault_stays(digits, max as int, i - start + 1);
            }
            return Err(NumberFault::InvalidDigit);
        }
        let d: u64 = (c as u32 - '0' as u32) as u64;
        assert(digits_value(next) == value * 10 + d);
        if value > (max - (if d <= max { d } else { max })) / 10 || d > max {
            assert(value * 10 + d > max) by {
                if d <= max {
                    assert(value >= (max - d) / 10 + 1);
                }
            }
            proof {
                lemma_fault_stays(digits, max as int, i - start + 1);
            }
            return Err(NumberFault::TooLarge);
        }
        assert(value * 10 + d <= max);
        value = value * 10 + d;
        i = i + 1;
    }
    assert(digits.take(to - start) == digits);
    Ok(value)
}

/// A digit's character.
pub open spec fn digit_char(d: int) -> char {
    ('0' as int + d) as char
}

/// A whole number in base ten, without leading zeros.
pub open spec fn decimal(n: nat) -> Seq<char>
    decreases n,
{
    if n < 10 {
        seq![digit_char(n as int)]
    } else {
        decimal(n / 10).push(digit_char((n % 10) as int))
    }
}

/// The text of one digit.
fn digit(d: u64) -> (s: &'static str)
    requires
        d < 10,
    ensures
        s@ == seq![digit_char(d as int)],
{
    proof {
        reveal_strlit("0");
        reveal_strlit("1");
        reveal_strlit("2");
        reveal_strlit("3");
        reveal_strlit("4");
        reveal_strlit("5");
        reveal_strlit("6");
        reveal_strlit("7");
        reveal_strlit("8");
        reveal_strlit("9");
    }
    let s: &'static str = match d {
        0 => "0",
        1 => "1",
        2 => "2",
        3 => "3",
        4 => "4",
        5 => "5",
        6 => "6",
        7 => "7",
        8 => "8",
        _ => "9",
    };
    assert(s@ =~= seq![digit_char(d as int)]);
    s
}

/// Appends `n` in base ten to `out`.
pub fn push_decimal(out: &mut String, n: u64)
    ensures
        final(out)@ == old(out)@ + decimal(n as nat),
    decreases n,
{
    if n >= 10 {
        push_decimal(out, n / 10);
    }
    out.append(digit(n % 10));
    assert(out@ == old(out)@ + decimal(n as nat));
}

/// A number in base ten is made of digits and denotes the number.
pub proof fn lemma_decimal(n: nat)
    ensures
        decimal(n).len() > 0,
        all_digits(decimal(n)),
        digits_value(decimal(n)) == n,
    decreases n,
{
    let s = decimal(n);
    if n >= 10 {
        lemma_decimal(n / 10);
        let front = decimal(n / 10);
        assert(s.drop_last() == front);
        assert forall|i: int| 0 <= i < s.len() implies is_digit(#[trigger] s[i]) by {
            if i < front.len() {
                assert(s[i] == front[i]);
            }
        }
    } else {
        assert(s.drop_last() == Seq::<char>::empty());
        assert(digits_value(s.drop_last()) == 0);
        assert(s.last() as int == '0' as int + n);
    }
}

/// Reading a number that was written in base ten gives the number back.
pub proof fn law_decimal_read_back(n: nat, max: nat)
    requires
        n <= max,
    ensures
        number(decimal(n), max as int) == Some(n as int),
{
    lemma_decimal(n);
    let s = decimal(n);
    assert(is_digit(s[0]));
    assert(without_plus(s) == s);
}

/// A number in base ten is its digits, the last of them the remainder by ten.
pub proof fn law_decimal_digits(n: nat)
    ensures
        n < 10 ==> decimal(n) == seq![(48 + n) as char],
        n >= 10 ==> decimal(n) == decimal(n / 10).push((48 + n % 10) as char),
        n > 0 ==> decimal(n).first() != '0',
    decreases n,
{
    if n >= 10 {
        law_decimal_digits(n / 10);
        lemma_decimal(n / 10);
        assert(decimal(n).first() == decimal(n / 10).first());
    } else {
        assert(decimal(n).first() == digit_char(n as int));
        if n > 0 {
            assert((48 + n) as char != '0');
        }
    }
}

proof fn lemma_zeros_value(zeros: Seq<char>, digits: Seq<char>)
    requires
        forall|i: int| 0 <= i < zeros.len() ==> #[trigger] zeros[i] == '0',
    ensures
        digits_value(zeros + digits) == digits_value(digits),
    decreases zeros.len() + digits.len(),
{
    let whole = zeros + digits;
    if digits.len() > 0 {
        assert(whole.drop_last() =~= zeros + digits.drop_last());
        assert(whole.last() == digits.last());
        lemma_zeros_value(zeros, digits.drop_last());
    } else if zeros.len() > 0 {
        let front = zeros.drop_last();
        assert(whole.drop_last() =~= front + digits);
        assert(whole.last() == zeros[zeros.len() - 1]);
        assert forall|i: int| 0 <= i < front.len() implies #[trigger] front[i] == '0' by {
            assert(front[i] == zeros[i]);
        }
        lemma_zeros_value(front, digits);
    } else {
        assert(whole =~= digits);
    }
}

/// A number up to the limit is read in every way to write it, with zeros and a plus sign in front
/// or without, and one above the limit in none.
pub proof fn law_number_is_read(plus: bool, zeros: Seq<char>, n: nat, max: nat)
    requires
        forall|i: int| 0 <= i < zeros.len() ==> #[trigger] zeros[i] == '0',
    ensures
        ({
            let sign = if plus {
                seq!['+']
            } else {
                Seq::<char>::empty()
            };
            let text = sign + zeros + decimal(n);
            &&& n <= max ==> number(text, max as int) == Some(n as int)
            &&& n > max ==> number(text, max as int) is None
            &&& n > max ==> number_fault(text, max as int) == Some(NumberFault::TooLarge)
        }),
{
    let sign = if plus {
        seq!['+']
    } else {
        Seq::<char>::empty()
    };
    let digits = zeros + decimal(n);
    let text = sign + zeros + decimal(n);
    lemma_decimal(n);
    lemma_zeros_value(zeros, decimal(n));
    assert forall|i: int| 0 <= i < digits.len() implies is_digit(#[trigger] digits[i]) by {
        if i < zeros.len() {
            assert(digits[i] == zeros[i]);
        } else {
            assert(digits[i] == decimal(n)[i - zeros.len()]);
        }
    }
    assert(is_digit(digits[0]));
    if plus {
        assert(text.first() == '+');
        assert(text.drop_first() =~= digits);
    } else {
        assert(text =~= digits);
    }
    assert(without_plus(text) == digits);
    if n > max {
        lemma_digits_too_large(digits, max as int);
    }
}

proof fn lemma_digits_too_large(digits: Seq<char>, max: int)
    requires
        0 <= max,
        all_digits(digits),
        digits_value(digits) > max,
    ensures
        digits_fault(digits, max) == Some(NumberFault::TooLarge),
    decreases digits.len(),
{
    if digits.len() > 0 {
        let front = digits.drop_last();
        assert forall|i: int| 0 <= i < front.len() implies is_digit(#[trigger] front[i]) by {
            assert(front[i] == digits[i]);
        }
        assert(is_digit(digits[digits.len() - 1]));
        if digits_value(front) > max {
            lemma_digits_too_large(front, max);
        } else {
            lemma_faultless(front, max);
        }
    }
}

/// Digits are zeros, then the number that they denote.
proof fn lemma_digits_canonical(digits: Seq<char>) -> (k: int)
    requires
        digits.len() > 0,
        all_digits(digits),
    ensures
        0 <= k < digits.len(),
        digits_value(digits) >= 0,
        forall|i: int| 0 <= i < k ==> #[trigger] digits[i] == '0',
        digits.skip(k) == decimal(digits_value(digits) as nat),
    decreases digits.len(),
{
    let front = digits.drop_last();
    let c = digits.last();
    assert(is_digit(digits[digits.len() - 1]));
    let d = c as int - 48;
    assert(digit_char(d) == c);
    if front.len() == 0 {
        assert(digits_value(front) == 0);
        assert(digits.skip(0) =~= seq![c]);
        0
    } else {
        assert forall|i: int| 0 <= i < front.len() implies is_digit(#[trigger] front[i]) by {
            assert(front[i] == digits[i]);
        }
        let k = lemma_digits_canonical(front);
        let v = digits_value(front);
        assert forall|i: int| 0 <= i < k implies #[trigger] digits[i] == '0' by {
            assert(front[i] == digits[i]);
        }
        assert(digits_value(digits) == v * 10 + d);
        if v > 0 {
            assert((v * 10 + d) / 10 == v);
            assert((v * 10 + d) % 10 == d);
            assert(digits.skip(k) =~= front.skip(k).push(c));
            k
        } else {
            assert(front.skip(k).len() == 1);
            assert(front.skip(k)[0] == front[k]);
            assert(digit_char(0) == '0');
            assert(digits[k] == '0');
            assert(digits.skip(k + 1) =~= seq![c]);
            k + 1
        }
    }
}

/// `text` is a sign or none, then zeros, then `n` in base ten.
pub open spec fn writes(text: Seq<char>, sign: Seq<char>, zeros: Seq<char>, n: nat) -> bool {
    &&& text == sign + zeros + decimal(n)
    &&& sign.len() == 0 || sign == seq!['+']
    &&& forall|i: int| 0 <= i < zeros.len() ==> #[trigger] zeros[i] == '0'
}

/// Nothing is read as a number but an optional plus sign, zeros, and the number in base ten.
#[verifier::spinoff_prover]
pub proof fn law_only_numbers_are_read(text: Seq<char>, max: nat)
    ensures
        number(text, max as int) matches Some(n) ==> 0 <= n <= max,
        number(text, max as int) matches Some(n) ==> exists|sign: Seq<char>, zeros: Seq<char>|
            #[trigger] writes(text, sign, zeros, n as nat),
{
    if number(text, max as int) is Some {
        let digits = without_plus(text);
        let n = digits_value(digits);
        let k = lemma_digits_canonical(digits);
        let sign = if text.first() == '+' {
            seq!['+']
        } else {
            Seq::<char>::empty()
        };
        let zeros = digits.take(k);
        assert(digits =~= zeros + digits.skip(k));
        assert(text =~= sign + digits);
        assert(sign + (zeros + digits.skip(k)) =~= sign + zeros + digits.skip(k));
        assert forall|i: int| 0 <= i < zeros.len() implies #[trigger] zeros[i] == '0' by {
            assert(zeros[i] == digits[i]);
        }
        assert(number(text, max as int) == Some(n));
        assert(writes(text, sign, zeros, n as nat));
    }
}

/// Digits that go over the limit are too large, whatever follows them.
pub proof fn law_too_large_comes_first(plus: bool, digits: Seq<char>, rest: Seq<char>, max: nat)
    requires
        forall|i: int| 0 <= i < digits.len() ==> '0' <= #[trigger] digits[i] <= '9',
        digits_value(digits) > max,
    ensures
        ({
            let sign = if plus {
                seq!['+']
            } else {
                Seq::<char>::empty()
            };
            number_fault(sign + digits + rest, max as int) == Some(NumberFault::TooLarge)
        }),
{
    let sign = if plus {
        seq!['+']
    } else {
        Seq::<char>::empty()
    };
    let text = sign + digits + rest;
    let all = digits + rest;
    let k = digits.len() as int;
    assert(all_digits(digits));
    lemma_digits_too_large(digits, max as int);
    assert(all.take(k) =~= digits);
    lemma_fault_stays(all, max as int, k);
    assert(digits.len() > 0);
    assert(is_digit(digits[0]));
    assert(all[0] == digits[0]);
    if plus {
        assert(text.first() == '+');
        assert(text.drop_first() =~= all);
    } else {
        assert(text =~= all);
    }
    assert(without_plus(text) == all);
}

/// What keeps a text from being a number: that there is none, or the first character that is no
/// digit, if the digits before it do not go over the limit already.
pub proof fn law_faults_of_texts(front: Seq<char>, c: char, rest: Seq<char>, max: nat)
    requires
        forall|i: int| 0 <= i < front.len() ==> '0' <= #[trigger] front[i] <= '9',
        !('0' <= c <= '9'),
        digits_value(front) <= max,
    ensures
        number_fault(Seq::empty(), max as int) == Some(NumberFault::Empty),
        number_fault(seq!['+'], max as int) == Some(NumberFault::InvalidDigit),
        number_fault(seq!['+'] + front.push(c) + rest, max as int) == Some(
            NumberFault::InvalidDigit,
        ),
        front.len() > 0 || c != '+' ==> number_fault(front.push(c) + rest, max as int) == Some(
            NumberFault::InvalidDigit,
        ),
{
    let digits = front.push(c) + rest;
    let k = front.len() as int + 1;
    let signed = seq!['+'] + front.push(c) + rest;
    assert(all_digits(front));
    lemma_faultless(front, max as int);
    assert(digits.take(k) =~= front.push(c));
    assert(front.push(c).drop_last() =~= front);
    lemma_fault_stays(digits, max as int, k);
    assert(signed.drop_first() =~= digits);
    assert(signed.first() == '+');
    if front.len() > 0 {
        assert(digits.first() == front[0]);
    } else {
        assert(digits.first() == c);
    }
}

/// Two numbers with the same text are the same number.
pub proof fn law_decimal_distinct(a: nat, b: nat)
    ensures
        decimal(a) == decimal(b) ==> a == b,
{
    lemma_decimal(a);
    lemma_decimal(b);
}

/// Two strings joined.
pub fn join(a: &str, b: &str) -> (s: String)
    ensures
        s@ == a@ + b@,
{
    let mut s = String::new();
    s.append(a);
    s.append(b);
    assert(s@ == a@ + b@);
    s
}

} // verus!
