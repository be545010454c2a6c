//! Byte strings: searching, comparing, and reading decimal numbers.

use vstd::prelude::*;

verus! {

/// The bytes of a text whose characters are all ASCII.
pub open spec fn ascii(text: Seq<char>) -> Seq<u8> {
    Seq::new(text.len(), |i: int| text[i] as u8)
}

/// `needle` stands in `haystack` at position `at`.
pub open spec fn occurs_at(haystack: Seq<u8>, needle: Seq<u8>, at: int) -> bool {
    &&& 0 <= at
    &&& at + needle.len() <= haystack.len()
    &&& haystack.subrange(at, at + needle.len()) == needle
}

/// `needle` stands somewhere in `haystack`.
pub open spec fn contains(haystack: Seq<u8>, needle: Seq<u8>) -> bool {
    exists|at: int| occurs_at(haystack, needle, at)
}

/// `at` is the leftmost position of `needle` in `haystack`.
pub open spec fn is_first_occurrence(haystack: Seq<u8>, needle: Seq<u8>, at: int) -> bool {
    &&& occurs_at(haystack, needle, at)
    &&& forall|earlier: int| earlier < at ==> !occurs_at(haystack, needle, earlier)
}

/// The leftmost position of `needle` in `haystack`, if it stands there at all.
pub open spec fn first_occurrence(haystack: Seq<u8>, needle: Seq<u8>) -> Option<int> {
    if contains(haystack, needle) {
        Some(choose|at: int| is_first_occurrence(haystack, needle, at))
    } else {
        None
    }
}

/// An occurrence has a leftmost one at or before it.
proof fn lemma_leftmost_exists(haystack: Seq<u8>, needle: Seq<u8>, at: int) -> (first: int)
    requires
        occurs_at(haystack, needle, at),
    ensures
        is_first_occurrence(haystack, needle, first),
        first <= at,
    decreases at,
{
    if exists|earlier: int| earlier < at && occurs_at(haystack, needle, earlier) {
        let earlier = choose|earlier: int| earlier < at && occurs_at(haystack, needle, earlier);
        lemma_leftmost_exists(haystack, needle, earlier)
    } else {
        at
    }
}

/// `first_occurrence` names the leftmost position: where there is one, it is that one.
pub proof fn lemma_first_occurrence(haystack: Seq<u8>, needle: Seq<u8>)
    ensures
        match first_occurrence(haystack, needle) {
            Some(at) => is_first_occurrence(haystack, needle, at),
            None => !contains(haystack, needle),
        },
{
    if contains(haystack, needle) {
        let at = choose|at: int| occurs_at(haystack, needle, at);
        let first = lemma_leftmost_exists(haystack, needle, at);
        assert(is_first_occurrence(haystack, needle, first));
    }
}

/// The leftmost position is unique.
pub proof fn lemma_first_occurrence_is(haystack: Seq<u8>, needle: Seq<u8>, at: int)
    requires
        is_first_occurrence(haystack, needle, at),
    ensures
        first_occurrence(haystack, needle) == Some(at),
{
    lemma_first_occurrence(haystack, needle);
    assert(contains(haystack, needle));
}

/// What is appended after an occurrence does not move the leftmost one.
pub proof fn lemma_first_occurrence_append(haystack: Seq<u8>, needle: Seq<u8>, more: Seq<u8>)
    requires
        contains(haystack, needle),
    ensures
        first_occurrence(haystack + more, needle) == first_occurrence(haystack, needle),
{
    lemma_first_occurrence(haystack, needle);
    let at = first_occurrence(haystack, needle)->0;
    let longer = haystack + more;
    assert forall|i: int| i <= at implies occurs_at(longer, needle, i) == occurs_at(
        haystack,
        needle,
        i,
    ) by {
        if 0 <= i {
            assert(longer.subrange(i, i + needle.len()) =~= haystack.subrange(
                i,
                i + needle.len(),
            ));
        }
    }
    assert(is_first_occurrence(longer, needle, at));
    lemma_first_occurrence_is(longer, needle, at);
}

/// The ASCII bytes of a text.
pub fn ascii_bytes(text: &'static str) -> (bytes: &'static [u8])
    requires
        text.is_ascii(),
    ensures
        bytes@ == ascii(text@),
{
    let bytes = text.as_bytes();
    proof {
        vstd::string::is_ascii_spec_bytes(text);
        assert(bytes@ =~= ascii(text@));
    }
    bytes
}

/// Whether two byte strings are equal.
pub fn bytes_equal(left: &[u8], right: &[u8]) -> (equal: bool)
    ensures
        equal == (left@ == right@),
{
    if left.len() != right.len() {
        return false;
    }
    let mut i: usize = 0;
    while i < left.len()
        invariant
            i <= left.len(),
            left.len() == right.len(),
            forall|j: int| 0 <= j < i ==> left@[j] == right@[j],
        decreases left.len() - i,
    {
        if left[i] != right[i] {
            return false;
        }
        i = i + 1;
    }
    assert(left@ =~= right@);
    true
}

/// The leftmost position of `needle` in `haystack`.
pub fn find_bytes(haystack: &[u8], needle: &[u8]) -> (found: Option<usize>)
    requires
        needle.len() > 0,
    ensures
        match found {
            Some(at) => first_occurrence(haystack@, needle@) == Some(at as int),
            None => first_occurrence(haystack@, needle@) == None::<int>,
        },
{
    let mut at: usize = 0;
    while needle.len() <= haystack.len() && at <= haystack.len() - needle.len()
        invariant
            forall|earlier: int| earlier < at ==> !occurs_at(haystack@, needle@, earlier),
            needle.len() > 0,
            needle.len() <= haystack.len() ==> at <= haystack.len() - needle.len() + 1,
        decreases haystack.len() + 1 - at,
    {
        if bytes_equal(&haystack[at..at + needle.len()], needle) {
            proof {
                assert(is_first_occurrence(haystack@, needle@, at as int));
                lemma_first_occurrence_is(haystack@, needle@, at as int);
            }
            return Some(at);
        }
        at = at + 1;
    }
    assert(!contains(haystack@, needle@));
    None
}

/// Whether `needle` stands somewhere in `haystack`.
pub fn contains_bytes(haystack: &[u8], needle: &[u8]) -> (found: bool)
    requires
        needle.len() > 0,
    ensures
        found == contains(haystack@, needle@),
{
    match find_bytes(haystack, needle) {
        Some(_) => true,
        None => false,
    }
}

/// Put `more` behind what is in `text`.
pub fn push_bytes(text: &mut Vec<u8>, more: &[u8])
    ensures
        final(text)@ == old(text)@ + more@,
{
    let mut i: usize = 0;
    while i < more.len()
        invariant
            i <= more.len(),
            text@ == old(text)@ + more@.take(i as int),
        decreases more.len() - i,
    {
        text.push(more[i]);
        i = i + 1;
        assert(text@ =~= old(text)@ + more@.take(i as int));
    }
    assert(more@.take(i as int) =~= more@);
}

/// What follows `prefix` in `whole`, if `whole` begins with it.
pub open spec fn after_prefix(whole: Seq<u8>, prefix: Seq<u8>) -> Option<Seq<u8>> {
    if occurs_at(whole, prefix, 0) {
        Some(whole.skip(prefix.len() as int))
    } else {
        None
    }
}

/// What follows `prefix` in `whole`, if `whole` begins with it.
pub fn strip_prefix<'a>(whole: &'a [u8], prefix: &[u8]) -> (rest: Option<&'a [u8]>)
    ensures
        match rest {
            Some(bytes) => after_prefix(whole@, prefix@) == Some(bytes@),
            None => after_prefix(whole@, prefix@) == None::<Seq<u8>>,
        },
{
    if prefix.len() <= whole.len() && bytes_equal(&whole[0..prefix.len()], prefix) {
        let rest = &whole[prefix.len()..whole.len()];
        assert(rest@ =~= whole@.skip(prefix@.len() as int));
        Some(rest)
    } else {
        None
    }
}

/// `byte` is one of the digits `0` to `9`.
pub open spec fn is_digit(byte: u8) -> bool {
    '0' as u8 <= byte <= '9' as u8
}

/// How many digits `text` begins with.
pub open spec fn digit_count(text: Seq<u8>) -> nat
    decreases text.len(),
{
    if text.len() > 0 && is_digit(text[0]) {
        1 + digit_count(text.skip(1))
    } else {
        0
    }
}

/// The number that a string of digits writes in base ten.
pub open spec fn decimal(digits: Seq<u8>) -> nat
    decreases digits.len(),
{
    if digits.len() == 0 {
        0
    } else {
        decimal(digits.drop_last()) * 10 + (digits.last() - '0' as u8) as nat
    }
}

/// A count of leading digits is right where all before it are digits and the next byte is none.
pub proof fn lemma_digit_count(text: Seq<u8>, count: nat)
    requires
        count <= text.len(),
        forall|i: int| 0 <= i < count ==> is_digit(#[trigger] text[i]),
        count < text.len() ==> !is_digit(text[count as int]),
    ensures
        digit_count(text) == count,
    decreases count,
{
    if count > 0 {
        assert(is_digit(text[0]));
        let rest = text.skip(1);
        assert forall|i: int| 0 <= i < count - 1 implies is_digit(#[trigger] rest[i]) by {
            assert(is_digit(text[i + 1]));
        }
        lemma_digit_count(rest, (count - 1) as nat);
    }
}

/// The leading digits are digits, and the byte after them is none.
pub proof fn lemma_digit_count_bounds(text: Seq<u8>)
    ensures
        digit_count(text) <= text.len(),
        forall|i: int| 0 <= i < digit_count(text) ==> is_digit(#[trigger] text[i]),
        digit_count(text) < text.len() ==> !is_digit(text[digit_count(text) as int]),
    decreases text.len(),
{
    if text.len() > 0 && is_digit(text[0]) {
        let rest = text.skip(1);
        lemma_digit_count_bounds(rest);
        assert forall|i: int| 0 <= i < digit_count(text) implies is_digit(#[trigger] text[i]) by {
            if i > 0 {
                assert(is_digit(rest[i - 1]));
            }
        }
    }
}

/// More digits never write a smaller number.
pub proof fn lemma_decimal_grows(digits: Seq<u8>, count: int)
    requires
        0 <= count <= digits.len(),
    ensures
        decimal(digits.take(count)) <= decimal(digits),
    decreases digits.len(),
{
    if count == digits.len() {
        assert(digits.take(count) =~= digits);
    } else {
        lemma_decimal_grows(digits.drop_last(), count);
        assert(digits.drop_last().take(count) =~= digits.take(count));
    }
}

/// How many digits `text` begins with.
pub fn count_digits(text: &[u8]) -> (count: usize)
    ensures
        count == digit_count(text@),
        count <= text.len(),
{
    let mut count: usize = 0;
    while count < text.len() && text[count] >= 48 && text[count] <= 57
        invariant
            count <= text.len(),
            forall|i: int| 0 <= i < count ==> is_digit(#[trigger] text@[i]),
        decreases text.len() - count,
    {
        count = count + 1;
    }
    proof {
        lemma_digit_count(text@, count as nat);
    }
    count
}

/// The number that a string of digits writes, if it fits in a `usize`.
pub fn parse_decimal(digits: &[u8]) -> (number: Option<usize>)
    requires
        forall|i: int| 0 <= i < digits.len() ==> is_digit(#[trigger] digits@[i]),
    ensures
        match number {
            Some(n) => decimal(digits@) == n,
            None => decimal(digits@) > usize::MAX,
        },
{
    let mut number: usize = 0;
    let mut i: usize = 0;
    while i < digits.len()
        invariant
            i <= digits.len(),
            number == decimal(digits@.take(i as int)),
            forall|i: int| 0 <= i < digits.len() ==> is_digit(#[trigger] digits@[i]),
        decreases digits.len() - i,
    {
        proof {
            assert(digits@.take(i + 1).drop_last() =~= digits@.take(i as int));
            lemma_decimal_grows(digits@, i + 1);
        }
        match number.checked_mul(10) {
            None => { return None; },
            Some(shifted) => {
                assert(is_digit(digits@[i as int]));
                match shifted.checked_add((digits[i] - 48) as usize) {
                    None => { return None; },
                    Some(next) => { number = next; },
                }
            },
        }
        i = i + 1;
    }
    assert(digits@.take(i as int) =~= digits@);
    Some(number)
}

/// The bytes of a text are the codes of its characters, one for one.
pub proof fn ascii_is_the_character_codes(text: Seq<char>)
    ensures
        ascii(text).len() == text.len(),
        forall|i: int| 0 <= i < text.len() ==> #[trigger] ascii(text)[i] == text[i] as u8,
{
}

/// `haystack` holds `needle` at `at`, byte for byte.
pub open spec fn matches_at(haystack: Seq<u8>, needle: Seq<u8>, at: int) -> bool {
    &&& 0 <= at <= haystack.len() - needle.len()
    &&& forall|k: int| 0 <= k < needle.len() ==> haystack[at + k] == #[trigger] needle[k]
}

/// A byte string occurs where every one of its bytes does.
pub proof fn occurrence_is_byte_for_byte(haystack: Seq<u8>, needle: Seq<u8>, at: int)
    ensures
        occurs_at(haystack, needle, at) <==> matches_at(haystack, needle, at),
{
    if occurs_at(haystack, needle, at) {
        assert forall|k: int| 0 <= k < needle.len() implies haystack[at + k]
            == #[trigger] needle[k] by {
            assert(haystack.subrange(at, at + needle.len())[k] == haystack[at + k]);
        }
    } else if matches_at(haystack, needle, at) {
        assert(haystack.subrange(at, at + needle.len()) =~= needle);
    }
}

/// A search finds something exactly where it is there to be found, and finds the leftmost.
pub proof fn search_finds_the_leftmost(haystack: Seq<u8>, needle: Seq<u8>)
    ensures
        contains(haystack, needle) <==> exists|at: int| matches_at(haystack, needle, at),
        first_occurrence(haystack, needle) is Some <==> exists|at: int|
            matches_at(haystack, needle, at),
        first_occurrence(haystack, needle) matches Some(at) ==> matches_at(haystack, needle, at)
            && forall|earlier: int| earlier < at ==> !matches_at(haystack, needle, earlier),
{
    assert forall|at: int| occurs_at(haystack, needle, at) == matches_at(haystack, needle, at) by {
        occurrence_is_byte_for_byte(haystack, needle, at);
    }
    lemma_first_occurrence(haystack, needle);
    if contains(haystack, needle) {
        let at = choose|at: int| occurs_at(haystack, needle, at);
        assert(matches_at(haystack, needle, at));
    }
    if exists|at: int| matches_at(haystack, needle, at) {
        let at = choose|at: int| matches_at(haystack, needle, at);
        assert(occurs_at(haystack, needle, at));
    }
}

/// Something is left after a prefix exactly where the whole is the prefix and what is left.
pub proof fn prefix_and_rest_are_the_whole(whole: Seq<u8>, prefix: Seq<u8>, rest: Seq<u8>)
    ensures
        after_prefix(whole, prefix) == Some(rest) <==> whole == prefix + rest,
{
    if whole == prefix + rest {
        assert(whole.subrange(0, prefix.len() as int) =~= prefix);
        assert(whole.skip(prefix.len() as int) =~= rest);
    }
    if after_prefix(whole, prefix) == Some(rest) {
        assert(whole =~= whole.subrange(0, prefix.len() as int) + whole.skip(prefix.len() as int));
    }
}

/// `text` is made of the digits `0` to `9`, if of anything.
pub open spec fn all_digits(text: Seq<u8>) -> bool {
    forall|i: int| 0 <= i < text.len() ==> 48 <= #[trigger] text[i] <= 57
}

/// `text` does not begin with a digit.
pub open spec fn no_digit_first(text: Seq<u8>) -> bool {
    text.len() > 0 ==> text[0] < 48 || text[0] > 57
}

/// The digits that a text begins with are counted up to the first other byte.
pub proof fn digits_are_counted(digits: Seq<u8>, rest: Seq<u8>)
    requires
        all_digits(digits),
        no_digit_first(rest),
    ensures
        digit_count(digits + rest) == digits.len(),
{
    let text = digits + rest;
    assert forall|i: int| 0 <= i < digits.len() implies is_digit(#[trigger] text[i]) by {
        assert(48 <= digits[i] <= 57);
    }
    lemma_digit_count(text, digits.len());
}

/// Every text is some digits, maybe none, followed by something that begins with no digit.
pub proof fn text_splits_after_its_digits(text: Seq<u8>) -> (parts: (Seq<u8>, Seq<u8>))
    ensures
        text == parts.0 + parts.1,
        all_digits(parts.0),
        no_digit_first(parts.1),
{
    lemma_digit_count_bounds(text);
    let count = digit_count(text) as int;
    let digits = text.take(count);
    let rest = text.skip(count);
    assert(text =~= digits + rest);
    assert forall|i: int| 0 <= i < digits.len() implies 48 <= #[trigger] digits[i] <= 57 by {
        assert(is_digit(text[i]));
    }
    (digits, rest)
}

/// No digits write zero, and one digit writes its own value.
pub proof fn single_digits_have_their_value(digit: u8)
    requires
        48 <= digit <= 57,
    ensures
        decimal(Seq::<u8>::empty()) == 0,
        decimal(seq![digit]) == digit - 48,
{
    assert(seq![digit].drop_last() =~= Seq::empty());
    assert(decimal(seq![digit].drop_last()) == 0);
}

/// Digits to the left count for ten times as much with every digit that follows.
pub proof fn digits_count_by_their_place(left: Seq<u8>, right: Seq<u8>)
    ensures
        decimal(left + right) == decimal(left) * vstd::arithmetic::power::pow(10, right.len())
            + decimal(right),
    decreases right.len(),
{
    reveal(vstd::arithmetic::power::pow);
    if right.len() == 0 {
        assert(left + right =~= left);
    } else {
        let fewer = right.drop_last();
        digits_count_by_their_place(left, fewer);
        assert((left + right).drop_last() =~= left + fewer);
        let scale = vstd::arithmetic::power::pow(10, fewer.len());
        let value = decimal(left) as int;
        assert((value * scale) * 10 == value * (10 * scale)) by (nonlinear_arith);
    }
}

/// The usual way to write a number in digits.
pub open spec fn digits_of(number: nat) -> Seq<u8>
    decreases number,
{
    if number < 10 {
        seq![(48 + number) as u8]
    } else {
        digits_of(number / 10).push((48 + number % 10) as u8)
    }
}

/// Reading a number gives back the number that was written.
pub proof fn written_number_reads_back(number: nat)
    ensures
        digits_of(number).len() > 0,
        all_digits(digits_of(number)),
        decimal(digits_of(number)) == number,
    decreases number,
{
    if number < 10 {
        single_digits_have_their_value((48 + number) as u8);
    } else {
        written_number_reads_back(number / 10);
        let digits = digits_of(number);
        assert(digits.drop_last() =~= digits_of(number / 10));
    }
}

} // verus!
