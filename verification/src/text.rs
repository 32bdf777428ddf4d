//! Text as sequences of characters: trimming, words, numbers.
use vstd::prelude::*;

verus! {

/// `String::push` appends the character.
pub assume_specification[ String::push ](s: &mut String, c: char)
    ensures
        final(s)@ == old(s)@.push(c),
;

/// The characters of a string.
pub fn chars_of(s: &str) -> (chars: Vec<char>)
    ensures
        chars@ == s@,
{
    let mut chars: Vec<char> = Vec::new();
    for c in it: s.chars()
        invariant
            it.seq() == s@,
            chars@ == s@.take(it.index() as int),
    {
        proof {
            assert(s@.take(it.index() + 1) =~= s@.take(it.index() as int).push(c));
        }
        chars.push(c);
    }
    assert(s@.take(s@.len() as int) =~= s@);
    chars
}

/// The string of the characters.
pub fn string_of(chars: &Vec<char>) -> (s: String)
    ensures
        s@ == chars@,
{
    let mut s: String = String::new();
    let mut i: usize = 0;
    while i < chars.len()
        invariant
            i <= chars@.len(),
            s@ == chars@.take(i as int),
        decreases chars@.len() - i,
    {
        s.push(chars[i]);
        proof {
            assert(chars@.take(i + 1) =~= chars@.take(i as int).push(chars@[i as int]));
        }
        i = i + 1;
    }
    assert(chars@.take(chars@.len() as int) =~= chars@);
    s
}

/// The characters from `from` up to `to`.
pub fn part(chars: &Vec<char>, from: usize, to: usize) -> (result: Vec<char>)
    requires
        from <= to <= chars@.len(),
    ensures
        result@ == chars@.subrange(from as int, to as int),
{
    let mut result: Vec<char> = Vec::new();
    let mut i: usize = from;
    while i < to
        invariant
            from <= i <= to <= chars@.len(),
            result@ == chars@.subrange(from as int, i as int),
        decreases to - i,
    {
        result.push(chars[i]);
        proof {
            assert(chars@.subrange(from as int, i + 1) =~= chars@.subrange(
                from as int,
                i as int,
            ).push(chars@[i as int]));
        }
        i = i + 1;
    }
    result
}

/// Appends the characters of the second to the first.
pub fn append_chars(to: &mut Vec<char>, from: &Vec<char>)
    ensures
        final(to)@ == old(to)@ + from@,
{
    let ghost before = to@;
    let mut i: usize = 0;
    assert(before + from@.take(0) =~= before);
    while i < from.len()
        invariant
            i <= from@.len(),
            to@ == before + from@.take(i as int),
        decreases from@.len() - i,
    {
        to.push(from[i]);
        proof {
            assert(from@.take(i + 1) =~= from@.take(i as int).push(from@[i as int]));
            assert(before + from@.take(i + 1) =~= (before + from@.take(i as int)).push(
                from@[i as int],
            ));
        }
        i = i + 1;
    }
    assert(from@.take(from@.len() as int) =~= from@);
}

/// Appends the characters of a string.
pub fn append_text(to: &mut Vec<char>, from: &str)
    ensures
        final(to)@ == old(to)@ + from@,
{
    let chars: Vec<char> = chars_of(from);
    append_chars(to, &chars);
}

pub fn copy_chars(chars: &Vec<char>) -> (result: Vec<char>)
    ensures
        result@ == chars@,
{
    let result: Vec<char> = part(chars, 0, chars.len());
    assert(chars@.subrange(0, chars@.len() as int) =~= chars@);
    result
}

/// Whether the characters are the same.
pub fn same_chars(chars: &Vec<char>, other: &Vec<char>) -> (equal: bool)
    ensures
        equal == (chars@ == other@),
{
    if chars.len() != other.len() {
        return false;
    }
    let mut i: usize = 0;
    while i < chars.len()
        invariant
            chars@.len() == other@.len(),
            i <= chars@.len(),
            forall|j: int| 0 <= j < i ==> chars@[j] == other@[j],
        decreases chars@.len() - i,
    {
        if chars[i] != other[i] {
            return false;
        }
        i = i + 1;
    }
    assert(chars@ =~= other@);
    true
}

/// Whether the characters are those of the string.
pub fn reads(chars: &Vec<char>, text: &str) -> (equal: bool)
    ensures
        equal == (chars@ == text@),
{
    let other: Vec<char> = chars_of(text);
    same_chars(chars, &other)
}

/// The characters that Unicode counts as white space.
pub open spec fn space_char(c: char) -> bool {
    let u = c as u32;
    ||| 0x9 <= u <= 0xd
    ||| u == 0x20
    ||| u == 0x85
    ||| u == 0xa0
    ||| u == 0x1680
    ||| 0x2000 <= u <= 0x200a
    ||| u == 0x2028
    ||| u == 0x2029
    ||| u == 0x202f
    ||| u == 0x205f
    ||| u == 0x3000
}

pub fn is_space(c: char) -> (result: bool)
    ensures
        result == space_char(c),
{
    let u: u32 = c as u32;
    (0x9 <= u && u <= 0xd) || u == 0x20 || u == 0x85 || u == 0xa0 || u == 0x1680 || (0x2000 <= u
        && u <= 0x200a) || u == 0x2028 || u == 0x2029 || u == 0x202f || u == 0x205f || u == 0x3000
}

/// The control characters of Unicode.
pub open spec fn control_char(c: char) -> bool {
    let u = c as u32;
    u < 0x20 || 0x7f <= u < 0xa0
}

pub fn is_control(c: char) -> (result: bool)
    ensures
        result == control_char(c),
{
    let u: u32 = c as u32;
    u < 0x20 || (0x7f <= u && u < 0xa0)
}

pub open spec fn lower_char(c: char) -> char {
    if 'A' <= c <= 'Z' {
        ((c as u8) + 32) as char
    } else {
        c
    }
}

pub open spec fn upper_char(c: char) -> char {
    if 'a' <= c <= 'z' {
        ((c as u8) - 32) as char
    } else {
        c
    }
}

/// The text with the ASCII capitals made small.
pub open spec fn lowered(s: Seq<char>) -> Seq<char> {
    s.map_values(|c: char| lower_char(c))
}

/// The text with the small ASCII letters made capitals.
pub open spec fn uppered(s: Seq<char>) -> Seq<char> {
    s.map_values(|c: char| upper_char(c))
}

pub fn to_lower_char(c: char) -> (result: char)
    ensures
        result == lower_char(c),
{
    if 'A' <= c && c <= 'Z' {
        (c as u8 + 32) as char
    } else {
        c
    }
}

pub fn to_upper_char(c: char) -> (result: char)
    ensures
        result == upper_char(c),
{
    if 'a' <= c && c <= 'z' {
        (c as u8 - 32) as char
    } else {
        c
    }
}

pub fn lower(chars: &Vec<char>) -> (result: Vec<char>)
    ensures
        result@ == lowered(chars@),
{
    let mut result: Vec<char> = Vec::new();
    let mut i: usize = 0;
    while i < chars.len()
        invariant
            i <= chars@.len(),
            result@.len() == i,
            forall|j: int| 0 <= j < i ==> #[trigger] result@[j] == lower_char(chars@[j]),
        decreases chars@.len() - i,
    {
        result.push(to_lower_char(chars[i]));
        i = i + 1;
    }
    assert(result@ =~= lowered(chars@));
    result
}

pub fn upper(chars: &Vec<char>) -> (result: Vec<char>)
    ensures
        result@ == uppered(chars@),
{
    let mut result: Vec<char> = Vec::new();
    let mut i: usize = 0;
    while i < chars.len()
        invariant
            i <= chars@.len(),
            result@.len() == i,
            forall|j: int| 0 <= j < i ==> #[trigger] result@[j] == upper_char(chars@[j]),
        decreases chars@.len() - i,
    {
        result.push(to_upper_char(chars[i]));
        i = i + 1;
    }
    assert(result@ =~= uppered(chars@));
    result
}

/// The text without the white space in front.
pub open spec fn trim_front(s: Seq<char>) -> Seq<char>
    decreases s.len(),
{
    if s.len() > 0 && space_char(s[0]) {
        trim_front(s.skip(1))
    } else {
        s
    }
}

/// The text without the white space at the end.
pub open spec fn trim_back(s: Seq<char>) -> Seq<char>
    decreases s.len(),
{
    if s.len() > 0 && space_char(s.last()) {
        trim_back(s.drop_last())
    } else {
        s
    }
}

/// The text without the white space around it.
pub open spec fn trimmed(s: Seq<char>) -> Seq<char> {
    trim_back(trim_front(s))
}

pub fn trim_end(chars: &Vec<char>) -> (result: Vec<char>)
    ensures
        result@ == trim_back(chars@),
{
    let mut to: usize = chars.len();
    assert(chars@.take(chars@.len() as int) =~= chars@);
    while to > 0 && is_space(chars[to - 1])
        invariant
            to <= chars@.len(),
            trim_back(chars@.take(to as int)) == trim_back(chars@),
        decreases to,
    {
        assert(chars@.take(to as int).drop_last() =~= chars@.take(to - 1));
        to = to - 1;
    }
    assert(chars@.subrange(0, to as int) =~= chars@.take(to as int));
    part(chars, 0, to)
}

pub fn trim_start(chars: &Vec<char>) -> (result: Vec<char>)
    ensures
        result@ == trim_front(chars@),
{
    let mut from: usize = 0;
    assert(chars@.skip(0) =~= chars@);
    while from < chars.len() && is_space(chars[from])
        invariant
            from <= chars@.len(),
            trim_front(chars@.skip(from as int)) == trim_front(chars@),
        decreases chars@.len() - from,
    {
        assert(chars@.skip(from as int).skip(1) =~= chars@.skip(from + 1));
        from = from + 1;
    }
    assert(chars@.subrange(from as int, chars@.len() as int) =~= chars@.skip(from as int));
    part(chars, from, chars.len())
}

pub fn trim(chars: &Vec<char>) -> (result: Vec<char>)
    ensures
        result@ == trimmed(chars@),
{
    let front: Vec<char> = trim_start(chars);
    trim_end(&front)
}

/// How many characters stand before the first that `stop` holds of.
pub open spec fn length_until(s: Seq<char>, stop: spec_fn(char) -> bool) -> nat
    decreases s.len(),
{
    if s.len() == 0 || stop(s[0]) {
        0
    } else {
        1 + length_until(s.skip(1), stop)
    }
}

pub proof fn lemma_length_until(s: Seq<char>, stop: spec_fn(char) -> bool)
    ensures
        length_until(s, stop) <= s.len(),
        forall|i: int| 0 <= i < length_until(s, stop) ==> !stop(#[trigger] s[i]),
        length_until(s, stop) < s.len() ==> stop(s[length_until(s, stop) as int]),
    decreases s.len(),
{
    if s.len() > 0 && !stop(s[0]) {
        lemma_length_until(s.skip(1), stop);
        assert forall|i: int| 0 <= i < length_until(s, stop) implies !stop(#[trigger] s[i]) by {
            if i > 0 {
                assert(s[i] == s.skip(1)[i - 1]);
            }
        }
    }
}

/// A length with these properties is the one.
proof fn lemma_length_until_is(s: Seq<char>, stop: spec_fn(char) -> bool, n: nat)
    requires
        n <= s.len(),
        forall|i: int| 0 <= i < n ==> !stop(#[trigger] s[i]),
        n < s.len() ==> stop(s[n as int]),
    ensures
        length_until(s, stop) == n,
    decreases s.len(),
{
    if n > 0 {
        assert(!stop(s[0]));
        let t = s.skip(1);
        assert forall|i: int| 0 <= i < n - 1 implies !stop(#[trigger] t[i]) by {
            assert(t[i] == s[i + 1]);
        }
        lemma_length_until_is(t, stop, (n - 1) as nat);
    }
}

/// How many characters stand before the first white space.
pub open spec fn word_length(s: Seq<char>) -> nat {
    length_until(s, |c: char| space_char(c))
}

/// Being the character.
pub open spec fn is_mark(mark: char) -> spec_fn(char) -> bool {
    |c: char| c == mark
}

/// How many characters stand before the first `mark`.
pub open spec fn length_before(s: Seq<char>, mark: char) -> nat {
    length_until(s, is_mark(mark))
}

pub fn count_before(chars: &Vec<char>, mark: char) -> (n: usize)
    ensures
        n == length_before(chars@, mark),
        n <= chars@.len(),
{
    let ghost stop = is_mark(mark);
    let mut n: usize = 0;
    while n < chars.len() && chars[n] != mark
        invariant
            n <= chars@.len(),
            stop == is_mark(mark),
            forall|i: int| 0 <= i < n ==> !stop(#[trigger] chars@[i]),
        decreases chars@.len() - n,
    {
        n = n + 1;
    }
    proof {
        lemma_length_until_is(chars@, stop, n as nat);
    }
    n
}

pub fn count_word(chars: &Vec<char>) -> (n: usize)
    ensures
        n == word_length(chars@),
        n <= chars@.len(),
{
    let ghost stop = |c: char| space_char(c);
    let mut n: usize = 0;
    while n < chars.len() && !is_space(chars[n])
        invariant
            n <= chars@.len(),
            stop == |c: char| space_char(c),
            forall|i: int| 0 <= i < n ==> !stop(#[trigger] chars@[i]),
        decreases chars@.len() - n,
    {
        n = n + 1;
    }
    proof {
        lemma_length_until_is(chars@, stop, n as nat);
    }
    n
}

/// The text split at the first `mark`, if there is one.
pub open spec fn split_once(s: Seq<char>, mark: char) -> Option<(Seq<char>, Seq<char>)> {
    let n = length_before(s, mark);
    if n < s.len() {
        Some((s.take(n as int), s.skip(n as int + 1)))
    } else {
        None
    }
}

/// The text split at the first white space, if there is any.
pub open spec fn split_space(s: Seq<char>) -> Option<(Seq<char>, Seq<char>)> {
    let n = word_length(s);
    if n < s.len() {
        Some((s.take(n as int), s.skip(n as int + 1)))
    } else {
        None
    }
}

pub fn split_at_mark(chars: &Vec<char>, mark: char) -> (result: Option<(Vec<char>, Vec<char>)>)
    ensures
        match split_once(chars@, mark) {
            Some(halves) => result is Some && (result->0).0@ == halves.0 && (result->0).1@ == halves.1,
            None => result is None,
        },
{
    let n: usize = count_before(chars, mark);
    if n < chars.len() {
        assert(chars@.subrange(0, n as int) =~= chars@.take(n as int));
        assert(chars@.subrange(n + 1, chars@.len() as int) =~= chars@.skip(n + 1));
        Some((part(chars, 0, n), part(chars, n + 1, chars.len())))
    } else {
        None
    }
}

pub fn split_at_space(chars: &Vec<char>) -> (result: Option<(Vec<char>, Vec<char>)>)
    ensures
        match split_space(chars@) {
            Some(halves) => result is Some && (result->0).0@ == halves.0 && (result->0).1@ == halves.1,
            None => result is None,
        },
{
    let n: usize = count_word(chars);
    if n < chars.len() {
        assert(chars@.subrange(0, n as int) =~= chars@.take(n as int));
        assert(chars@.subrange(n + 1, chars@.len() as int) =~= chars@.skip(n + 1));
        Some((part(chars, 0, n), part(chars, n + 1, chars.len())))
    } else {
        None
    }
}

/// The pieces of the text between the `mark`s.
pub open spec fn fields(s: Seq<char>, mark: char) -> Seq<Seq<char>>
    decreases s.len(),
{
    let n = length_before(s, mark);
    if n < s.len() {
        seq![s.take(n as int)] + fields(s.skip(n as int + 1), mark)
    } else {
        seq![s]
    }
}

/// The words of the text: the longest runs without white space.
pub open spec fn words(s: Seq<char>) -> Seq<Seq<char>>
    decreases s.len(),
{
    let t = trim_front(s);
    if t.len() > s.len() || word_length(t) == 0 || word_length(t) > t.len() {
        Seq::empty()
    } else {
        seq![t.take(word_length(t) as int)] + words(t.skip(word_length(t) as int))
    }
}

/// A list of texts as sequences.
pub open spec fn texts(list: Seq<Vec<char>>) -> Seq<Seq<char>> {
    list.map_values(|text: Vec<char>| text@)
}

proof fn lemma_trim_front(s: Seq<char>)
    ensures
        trim_front(s).len() <= s.len(),
        trim_front(s).len() > 0 ==> !space_char(trim_front(s)[0]),
    decreases s.len(),
{
    if s.len() > 0 && space_char(s[0]) {
        lemma_trim_front(s.skip(1));
    }
}

pub fn split_words(chars: &Vec<char>) -> (result: Vec<Vec<char>>)
    ensures
        texts(result@) == words(chars@),
{
    let mut result: Vec<Vec<char>> = Vec::new();
    let mut rest: Vec<char> = trim_start(chars);
    proof {
        lemma_trim_front(chars@);
        assert(texts(result@) =~= Seq::<Seq<char>>::empty());
        lemma_trimmed_twice(chars@);
        assert(words(rest@) =~= words(chars@));
        assert(texts(result@) + words(rest@) =~= words(chars@));
    }
    while rest.len() > 0
        invariant
            rest@.len() > 0 ==> !space_char(rest@[0]),
            texts(result@) + words(rest@) == words(chars@),
        decreases rest@.len(),
    {
        let n: usize = count_word(&rest);
        let ghost before = rest@;
        let ghost list = result@;
        proof {
            lemma_length_until(rest@, |c: char| space_char(c));
            assert(n > 0);
            assert(trim_front(rest@) == rest@);
            assert(rest@.subrange(0, n as int) =~= rest@.take(n as int));
            assert(rest@.subrange(n as int, rest@.len() as int) =~= rest@.skip(n as int));
        }
        let word: Vec<char> = part(&rest, 0, n);
        result.push(word);
        let tail: Vec<char> = part(&rest, n, rest.len());
        rest = trim_start(&tail);
        proof {
            lemma_trim_front(tail@);
            lemma_trimmed_twice(tail@);
            assert(words(rest@) == words(tail@));
            assert(texts(result@) =~= texts(list).push(word@));
            assert(words(before) == seq![word@] + words(tail@));
            assert(texts(result@) + words(rest@) =~= texts(list) + words(before));
        }
    }
    proof {
        assert(trim_front(rest@) == rest@);
        assert(words(rest@) =~= Seq::<Seq<char>>::empty());
        assert(texts(result@) =~= words(chars@));
    }
    result
}

/// White space in front adds no word.
proof fn lemma_trimmed_twice(s: Seq<char>)
    ensures
        trim_front(trim_front(s)) == trim_front(s),
        words(trim_front(s)) == words(s),
    decreases s.len(),
{
    lemma_trim_front(s);
    let t = trim_front(s);
    assert(trim_front(t) == t);
}

/// The pieces of the text between the `mark`s.
pub fn split_fields(chars: &Vec<char>, mark: char) -> (result: Vec<Vec<char>>)
    ensures
        texts(result@) == fields(chars@, mark),
{
    let mut result: Vec<Vec<char>> = Vec::new();
    let mut rest: Vec<char> = copy_chars(chars);
    assert(texts(result@) + fields(rest@, mark) =~= fields(chars@, mark));
    loop
        invariant_except_break
            texts(result@) + fields(rest@, mark) == fields(chars@, mark),
        ensures
            texts(result@) == fields(chars@, mark),
        decreases rest@.len(),
    {
        let n: usize = count_before(&rest, mark);
        let ghost list = result@;
        let ghost before = rest@;
        if n >= rest.len() {
            result.push(rest);
            proof {
                assert(fields(before, mark) == seq![before]);
                assert(texts(result@) =~= texts(list) + seq![before]);
            }
            break;
        }
        proof {
            assert(rest@.subrange(0, n as int) =~= rest@.take(n as int));
            assert(rest@.subrange(n + 1, rest@.len() as int) =~= rest@.skip(n + 1));
        }
        let field: Vec<char> = part(&rest, 0, n);
        let tail: Vec<char> = part(&rest, n + 1, rest.len());
        result.push(field);
        rest = tail;
        proof {
            assert(texts(result@) =~= texts(list).push(field@));
            assert(fields(before, mark) == seq![field@] + fields(rest@, mark));
            assert(texts(result@) + fields(rest@, mark) =~= texts(list) + fields(before, mark));
        }
    }
    result
}

pub open spec fn digit_char(c: char) -> bool {
    '0' <= c <= '9'
}

pub open spec fn all_digits(s: Seq<char>) -> bool {
    forall|i: int| 0 <= i < s.len() ==> digit_char(#[trigger] s[i])
}

/// The number that the digits write.
pub open spec fn value_of(s: Seq<char>) -> nat
    decreases s.len(),
{
    if s.len() == 0 {
        0
    } else {
        (value_of(s.drop_last()) * 10 + (s.last() as u32 - '0' as u32)) as nat
    }
}

/// The number that the text writes in decimal, if it does and it is at most
/// `max`: digits, with a plus sign in front or not.
pub open spec fn number_of(s: Seq<char>, max: nat) -> Option<nat> {
    let digits = if s.len() > 0 && s[0] == '+' {
        s.skip(1)
    } else {
        s
    };
    if digits.len() > 0 && all_digits(digits) && value_of(digits) <= max {
        Some(value_of(digits))
    } else {
        None
    }
}

/// More digits make no smaller number.
proof fn lemma_value_grows(s: Seq<char>, n: int)
    requires
        0 <= n <= s.len(),
        all_digits(s),
    ensures
        value_of(s.take(n)) <= value_of(s),
    decreases s.len() - n,
{
    if n < s.len() {
        lemma_value_grows(s, n + 1);
        let t = s.take(n + 1);
        assert(t.drop_last() =~= s.take(n));
        assert(digit_char(s[n]));
        assert(t.last() == s[n]);
    } else {
        assert(s.take(n) =~= s);
    }
}

pub fn parse_number(chars: &Vec<char>, max: u64) -> (result: Option<u64>)
    ensures
        match number_of(chars@, max as nat) {
            Some(n) => result == Some(n as u64) && n <= max,
            None => result is None,
        },
{
    let digits: Vec<char> = if chars.len() > 0 && chars[0] == '+' {
        assert(chars@.subrange(1, chars@.len() as int) =~= chars@.skip(1));
        part(chars, 1, chars.len())
    } else {
        copy_chars(chars)
    };
    if digits.len() == 0 {
        return None;
    }
    let mut k: usize = 0;
    while k < digits.len()
        invariant
            k <= digits@.len(),
            digits@.len() > 0,
            digits@ == (if chars@.len() > 0 && chars@[0] == '+' {
                chars@.skip(1)
            } else {
                chars@
            }),
            forall|j: int| 0 <= j < k ==> digit_char(#[trigger] digits@[j]),
        decreases digits@.len() - k,
    {
        if !('0' <= digits[k] && digits[k] <= '9') {
            assert(!digit_char(digits@[k as int]));
            return None;
        }
        k = k + 1;
    }
    let mut value: u64 = 0;
    let mut i: usize = 0;
    assert(digits@.take(0) =~= Seq::<char>::empty());
    while i < digits.len()
        invariant
            i <= digits@.len(),
            all_digits(digits@),
            value == value_of(digits@.take(i as int)),
            value <= max,
            number_of(chars@, max as nat) == (if value_of(digits@) <= max {
                Some(value_of(digits@))
            } else {
                None
            }),
        decreases digits@.len() - i,
    {
        let c: char = digits[i];
        assert(digit_char(digits@[i as int]));
        let d: u64 = (c as u32 - '0' as u32) as u64;
        proof {
            lemma_value_grows(digits@, i + 1);
            let t = digits@.take(i + 1);
            assert(t.drop_last() =~= digits@.take(i as int));
            assert(t.last() == c);
            assert(value_of(t) == value * 10 + d);
        }
        if value > (u64::MAX - d) / 10 {
            return None;
        }
        value = value * 10 + d;
        if value > max {
            return None;
        }
        i = i + 1;
    }
    assert(digits@.take(digits@.len() as int) =~= digits@);
    Some(value)
}

/// The digit that writes a number below ten.
pub open spec fn digit_of(d: nat) -> char {
    (('0' as u32) + d) as char
}

/// The number in decimal digits.
pub open spec fn decimal(n: nat) -> Seq<char>
    decreases n,
{
    if n < 10 {
        seq![digit_of(n)]
    } else {
        decimal(n / 10).push(digit_of(n % 10))
    }
}

/// Reading a number's digits gives the number back.
pub proof fn law_decimal_reads_back(n: nat)
    ensures
        all_digits(decimal(n)),
        decimal(n).len() > 0,
        value_of(decimal(n)) == n,
        decimal(n)[0] != '+',
    decreases n,
{
    let s = decimal(n);
    if n < 10 {
        assert(s.drop_last() =~= Seq::<char>::empty());
        assert(value_of(s.drop_last()) == 0);
    } else {
        law_decimal_reads_back(n / 10);
        let t = decimal(n / 10);
        assert(s.drop_last() =~= t);
        assert forall|i: int| 0 <= i < s.len() implies digit_char(#[trigger] s[i]) by {
            if i < t.len() {
                assert(s[i] == t[i]);
            }
        }
    }
}

fn digit(d: u64) -> (c: char)
    requires
        d < 10,
    ensures
        c == digit_of(d as nat),
{
    (48 + d as u8) as char
}

pub fn render_number(n: u64) -> (result: Vec<char>)
    ensures
        result@ == decimal(n as nat),
    decreases n,
{
    if n < 10 {
        let mut result: Vec<char> = Vec::new();
        result.push(digit(n));
        assert(result@ =~= decimal(n as nat));
        result
    } else {
        let mut result: Vec<char> = render_number(n / 10);
        result.push(digit(n % 10));
        result
    }
}

proof fn lemma_words_of_spaced(a: Seq<char>)
    requires
        a.len() > 0,
        space_char(a[0]),
    ensures
        words(a) == words(a.skip(1)),
{
    lemma_trimmed_twice(a);
    lemma_trimmed_twice(a.skip(1));
    assert(trim_front(a) == trim_front(a.skip(1)));
}

/// The words of two texts with white space between them are those of the
/// first and then those of the second.
pub proof fn law_white_space_parts_words(a: Seq<char>, gap: char, b: Seq<char>)
    requires
        space_char(gap),
    ensures
        words(a.push(gap) + b) == words(a) + words(b),
    decreases a.len(),
{
    let s = a.push(gap) + b;
    let stop = |c: char| space_char(c);
    if a.len() == 0 {
        assert(s.skip(1) =~= b);
        lemma_words_of_spaced(s);
        assert(trim_front(a) == a);
        assert(words(a) =~= Seq::<Seq<char>>::empty());
        assert(words(a) + words(b) =~= words(b));
    } else if space_char(a[0]) {
        assert(s.skip(1) =~= a.skip(1).push(gap) + b);
        lemma_words_of_spaced(s);
        lemma_words_of_spaced(a);
        law_white_space_parts_words(a.skip(1), gap, b);
    } else {
        let k = word_length(a);
        lemma_length_until(a, stop);
        assert(k > 0);
        assert forall|i: int| 0 <= i < k implies !stop(#[trigger] s[i]) by {
            assert(s[i] == a[i]);
        }
        assert(k < s.len() ==> stop(s[k as int])) by {
            if k < a.len() {
                assert(s[k as int] == a[k as int]);
            } else {
                assert(s[k as int] == gap);
            }
        }
        lemma_length_until_is(s, stop, k);
        assert(word_length(s) == k);
        assert(trim_front(s) == s && trim_front(a) == a);
        assert(s.take(k as int) =~= a.take(k as int));
        assert(s.skip(k as int) =~= a.skip(k as int).push(gap) + b);
        law_white_space_parts_words(a.skip(k as int), gap, b);
        assert(words(s) =~= words(a) + words(b));
    }
}

/// A text without white space is one word.
pub proof fn law_unbroken_text_is_a_word(s: Seq<char>)
    requires
        s.len() > 0,
        forall|i: int| 0 <= i < s.len() ==> !space_char(#[trigger] s[i]),
    ensures
        words(s) == seq![s],
{
    let stop = |c: char| space_char(c);
    lemma_length_until_is(s, stop, s.len());
    assert(!space_char(s[0]));
    assert(trim_front(s) == s);
    let rest = s.skip(s.len() as int);
    assert(s.take(s.len() as int) =~= s);
    assert(trim_front(rest) == rest);
    assert(words(rest) =~= Seq::<Seq<char>>::empty());
    assert(words(s) =~= seq![s]);
}

/// A text without the mark is not split by it; behind such a text the first
/// mark splits, and the rest is split on its own.
pub proof fn law_a_mark_splits_text(a: Seq<char>, mark: char, b: Seq<char>)
    requires
        !a.contains(mark),
    ensures
        split_once(a, mark) is None,
        split_once(a.push(mark) + b, mark) == Some((a, b)),
        fields(a, mark) == seq![a],
        fields(a.push(mark) + b, mark) == seq![a] + fields(b, mark),
{
    let s = a.push(mark) + b;
    let stop = is_mark(mark);
    assert forall|i: int| 0 <= i < a.len() implies !stop(#[trigger] a[i]) by {
        assert(a.contains(a[i]));
    }
    assert forall|i: int| 0 <= i < a.len() implies !stop(#[trigger] s[i]) by {
        assert(s[i] == a[i]);
    }
    lemma_length_until_is(a, stop, a.len());
    lemma_length_until_is(s, stop, a.len());
    assert(s.take(a.len() as int) =~= a);
    assert(s.skip(a.len() as int + 1) =~= b);
}

/// The first white space behind a text without any splits it.
pub proof fn law_white_space_splits_text(a: Seq<char>, gap: char, b: Seq<char>)
    requires
        forall|i: int| 0 <= i < a.len() ==> !space_char(#[trigger] a[i]),
        space_char(gap),
    ensures
        split_space(a) is None,
        split_space(a.push(gap) + b) == Some((a, b)),
{
    let s = a.push(gap) + b;
    let stop = |c: char| space_char(c);
    assert forall|i: int| 0 <= i < a.len() implies !stop(#[trigger] s[i]) by {
        assert(s[i] == a[i]);
    }
    lemma_length_until_is(a, stop, a.len());
    lemma_length_until_is(s, stop, a.len());
    assert(s.take(a.len() as int) =~= a);
    assert(s.skip(a.len() as int + 1) =~= b);
}

/// Trimming takes away the white space around a text and nothing else.
pub proof fn law_trimming_takes_white_space(front: Seq<char>, s: Seq<char>, back: Seq<char>)
    requires
        forall|i: int| 0 <= i < front.len() ==> space_char(#[trigger] front[i]),
        forall|i: int| 0 <= i < back.len() ==> space_char(#[trigger] back[i]),
        s.len() > 0 ==> !space_char(s[0]) && !space_char(s.last()),
    ensures
        trimmed(front + s + back) == s,
    decreases front.len() + back.len(),
{
    let all = front + s + back;
    if front.len() > 0 {
        assert(space_char(front[0]));
        let rest = front.skip(1);
        assert forall|i: int| 0 <= i < rest.len() implies space_char(#[trigger] rest[i]) by {
            assert(rest[i] == front[i + 1]);
        }
        assert(all[0] == front[0]);
        assert(all.skip(1) =~= rest + s + back);
        law_trimming_takes_white_space(rest, s, back);
    } else if s.len() == 0 {
        assert(all =~= back);
        lemma_blank(back);
    } else {
        assert(all[0] == s[0]);
        assert(trim_front(all) == all);
        lemma_back(s, back);
        assert(all =~= s + back);
    }
}

proof fn lemma_blank(s: Seq<char>)
    requires
        forall|i: int| 0 <= i < s.len() ==> space_char(#[trigger] s[i]),
    ensures
        trim_front(s) == Seq::<char>::empty(),
        trimmed(s) == Seq::<char>::empty(),
    decreases s.len(),
{
    if s.len() > 0 {
        let rest = s.skip(1);
        assert forall|i: int| 0 <= i < rest.len() implies space_char(#[trigger] rest[i]) by {
            assert(rest[i] == s[i + 1]);
        }
        lemma_blank(rest);
    } else {
        assert(s =~= Seq::<char>::empty());
    }
}

proof fn lemma_back(s: Seq<char>, back: Seq<char>)
    requires
        s.len() > 0,
        !space_char(s.last()),
        forall|i: int| 0 <= i < back.len() ==> space_char(#[trigger] back[i]),
    ensures
        trim_back(s + back) == s,
    decreases back.len(),
{
    let all = s + back;
    if back.len() > 0 {
        assert(all.last() == back.last());
        assert(all.drop_last() =~= s + back.drop_last());
        lemma_back(s, back.drop_last());
    } else {
        assert(all =~= s);
    }
}

/// The decimal digits of a number are read as the number, if it is not too
/// large, and hold neither white space nor other marks.
pub proof fn law_decimals_are_read_as_numbers(n: nat, max: nat)
    ensures
        number_of(decimal(n), max) == (if n <= max {
            Some(n)
        } else {
            None::<nat>
        }),
        trimmed(decimal(n)) == decimal(n),
        forall|i: int|
            0 <= i < decimal(n).len() ==> !space_char(#[trigger] decimal(n)[i]) && digit_char(
                decimal(n)[i],
            ),
        !decimal(n).contains(','),
        decimal(n).len() > 0,
{
    law_decimal_reads_back(n);
    let d = decimal(n);
    assert forall|i: int| 0 <= i < d.len() implies !space_char(#[trigger] d[i]) && digit_char(
        d[i],
    ) by {
        assert(digit_char(d[i]));
    }
    assert(Seq::<char>::empty() + d + Seq::<char>::empty() =~= d);
    law_trimming_takes_white_space(Seq::empty(), d, Seq::empty());
    if d.contains(',') {
        let i = d.index_of(',');
        assert(digit_char(d[i]));
    }
}

/// Small letters and capitals: making a letter small and then a capital gives
/// the capital, and characters that are no letters stay.
pub proof fn law_letters_come_in_pairs(c: char)
    ensures
        upper_char(lower_char(c)) == upper_char(c),
        lower_char(upper_char(c)) == lower_char(c),
        'A' <= c <= 'Z' ==> 'a' <= lower_char(c) <= 'z' && lower_char(c) as u32 - 'a' as u32
            == c as u32 - 'A' as u32,
        'a' <= c <= 'z' ==> 'A' <= upper_char(c) <= 'Z' && upper_char(c) as u32 - 'A' as u32
            == c as u32 - 'a' as u32,
        !('A' <= c <= 'Z') && !('a' <= c <= 'z') ==> lower_char(c) == c && upper_char(c) == c,
{
}

/// Every mark splits: a text before a mark and one behind it are split on
/// their own.
pub proof fn law_every_mark_splits(a: Seq<char>, mark: char, b: Seq<char>)
    ensures
        fields(a.push(mark) + b, mark) == fields(a, mark) + fields(b, mark),
    decreases a.len(),
{
    let stop = is_mark(mark);
    lemma_length_until(a, stop);
    let n = length_before(a, mark) as int;
    if n == a.len() {
        if a.contains(mark) {
            let i = a.index_of(mark);
            assert(!stop(a[i]));
        }
        law_a_mark_splits_text(a, mark, b);
    } else {
        let (first, rest) = (a.take(n), a.skip(n + 1));
        if first.contains(mark) {
            let i = first.index_of(mark);
            assert(!stop(a[i]));
        }
        assert(a =~= first.push(mark) + rest);
        law_every_mark_splits(rest, mark, b);
        law_a_mark_splits_text(first, mark, rest);
        law_a_mark_splits_text(first, mark, rest.push(mark) + b);
        assert(a.push(mark) + b =~= first.push(mark) + (rest.push(mark) + b));
        assert(seq![first] + (fields(rest, mark) + fields(b, mark)) =~= (seq![first] + fields(
            rest,
            mark,
        )) + fields(b, mark));
    }
}

} // verus!
