//! The few operations on text that settings and messages need.
use vstd::prelude::*;
use vstd::string::{StrSliceExecFns, StringExecFns};

verus! {

/// The digit that stands for a number below ten.
pub open spec fn digit_char(digit: nat) -> char {
    (48 + digit) as char
}

pub open spec fn is_digit(c: char) -> bool {
    '0' <= c <= '9'
}

pub open spec fn digit_value(c: char) -> nat {
    (c as int - 48) as nat
}

/// A number in decimal, without leading zeros.
pub open spec fn decimal(number: nat) -> Seq<char>
    decreases number,
{
    if number < 10 {
        seq![digit_char(number)]
    } else {
        decimal(number / 10).push(digit_char(number % 10))
    }
}

/// The number that a row of decimal digits stands for.
pub open spec fn digits_value(digits: Seq<char>) -> nat
    decreases digits.len(),
{
    if digits.len() == 0 {
        0
    } else {
        digits_value(digits.drop_last()) * 10 + digit_value(digits.last())
    }
}

/// Text without the plus sign that it may begin with.
pub open spec fn without_plus(text: Seq<char>) -> Seq<char> {
    if text.len() > 0 && text[0] == '+' {
        text.skip(1)
    } else {
        text
    }
}

/// The number that text stands for: at least one digit, nothing but digits, and a plus sign in
/// front of them or not.
pub open spec fn number_in(text: Seq<char>) -> Option<nat> {
    let digits = without_plus(text);
    if digits.len() > 0 && forall|i: int| 0 <= i < digits.len() ==> is_digit(#[trigger] digits[i]) {
        Some(digits_value(digits))
    } else {
        None
    }
}

/// The number that text stands for, if it is no larger than `max`.
pub open spec fn number_up_to(text: Seq<char>, max: nat) -> Option<nat> {
    match number_in(text) {
        Some(number) if number <= max => Some(number),
        _ => None,
    }
}

/// Characters with the Unicode property `White_Space`.
pub open spec fn is_white_space(c: char) -> bool {
    let code = c as u32;
    ||| 0x9 <= code <= 0xd
    ||| code == 0x20
    ||| code == 0x85
    ||| code == 0xa0
    ||| code == 0x1680
    ||| 0x2000 <= code <= 0x200a
    ||| code == 0x2028
    ||| code == 0x2029
    ||| code == 0x202f
    ||| code == 0x205f
    ||| code == 0x3000
}

/// Text without the white space at its ends.
pub open spec fn trimmed(text: Seq<char>) -> Seq<char>
    decreases text.len(),
{
    if text.len() > 0 && is_white_space(text[0]) {
        trimmed(text.skip(1))
    } else if text.len() > 0 && is_white_space(text.last()) {
        trimmed(text.drop_last())
    } else {
        text
    }
}

/// The pieces of text between separators: one more than there are separators.
pub open spec fn split_on(text: Seq<char>, separator: char) -> Seq<Seq<char>>
    decreases text.len(),
{
    if text.len() == 0 {
        seq![Seq::empty()]
    } else {
        let pieces = split_on(text.drop_last(), separator);
        if text.last() == separator {
            pieces.push(Seq::empty())
        } else {
            pieces.drop_last().push(pieces.last().push(text.last()))
        }
    }
}

/// Pieces of text with a separator between each two.
pub open spec fn joined(pieces: Seq<Seq<char>>, separator: Seq<char>) -> Seq<char>
    decreases pieces.len(),
{
    if pieces.len() == 0 {
        Seq::empty()
    } else if pieces.len() == 1 {
        pieces[0]
    } else {
        joined(pieces.drop_last(), separator) + separator + pieces.last()
    }
}

pub open spec fn string_views(strings: Seq<String>) -> Seq<Seq<char>> {
    strings.map_values(|string: String| string@)
}

/// The names in a list with commas: what stands between the commas, without white space at the
/// ends, unless nothing is left of it.
pub open spec fn names_in(text: Seq<char>) -> Seq<Seq<char>> {
    trimmed_names(split_on(text, ','))
}

/// Pieces of text without the white space at their ends, as far as anything is left of them.
pub open spec fn trimmed_names(pieces: Seq<Seq<char>>) -> Seq<Seq<char>> {
    pieces.map_values(|piece: Seq<char>| trimmed(piece)).filter(|name: Seq<char>| name.len() > 0)
}

fn digit_text(digit: u16) -> (text: &'static str)
    requires
        digit < 10,
    ensures
        text@ == seq![digit_char(digit as nat)],
{
    proof {
        reveal_strlit("0");
        reveal_strlit("1");
        reveal_strlit("2");
        reveal_strlit("3");
        reveal_strlit("4");
        reveal_strlit("5");
        reveal_strlit("6");
        reveal_strlit("7");
        reveal_strlit("8");
        reveal_strlit("9");
    }
    let text = match digit {
        0 => "0",
        1 => "1",
        2 => "2",
        3 => "3",
        4 => "4",
        5 => "5",
        6 => "6",
        7 => "7",
        8 => "8",
        _ => "9",
    };
    assert(text@ =~= seq![digit_char(digit as nat)]);
    text
}

/// Writes a number in decimal.
pub fn decimal_text(number: u16) -> (text: String)
    ensures
        text@ == decimal(number as nat),
    decreases number,
{
    if number < 10 {
        digit_text(number).to_owned()
    } else {
        let mut text = decimal_text(number / 10);
        text.append(digit_text(number % 10));
        assert(text@ =~= decimal(number as nat));
        text
    }
}

/// The characters of some text, one by one.
pub fn chars_of(text: &str) -> (chars: Vec<char>)
    ensures
        chars@ == text@,
{
    let mut chars: Vec<char> = Vec::new();
    for c in iter: text.chars()
        invariant
            iter.seq() == text@,
            chars@ == text@.take(iter.index() as int),
    {
        chars.push(c);
    }
    assert(text@.take(text@.len() as int) =~= text@);
    chars
}

proof fn lemma_more_digits_no_smaller(digits: Seq<char>, at: int)
    requires
        0 <= at <= digits.len(),
    ensures
        digits_value(digits.take(at)) <= digits_value(digits),
    decreases digits.len() - at,
{
    if at < digits.len() {
        lemma_more_digits_no_smaller(digits, at + 1);
        assert(digits.take(at + 1).drop_last() =~= digits.take(at));
    } else {
        assert(digits.take(at) =~= digits);
    }
}

/// Reads a decimal number that is no larger than `max`.
pub fn parse_number(text: &str, max: usize) -> (number: Option<usize>)
    ensures
        match number {
            Some(number) => number_up_to(text@, max as nat) == Some(number as nat),
            None => number_up_to(text@, max as nat) is None,
        },
{
    let chars = chars_of(text);
    let ghost digits = without_plus(text@);
    let skipped: usize = if chars.len() > 0 && chars[0] == '+' {
        1
    } else {
        0
    };
    assert(digits =~= text@.skip(skipped as int));
    if chars.len() == skipped {
        return None;
    }
    let mut number: usize = 0;
    let mut i: usize = skipped;
    assert(digits.take(0) =~= Seq::<char>::empty());
    while i < chars.len()
        invariant
            chars@ == text@,
            digits == without_plus(text@),
            digits == text@.skip(skipped as int),
            skipped <= i <= chars.len(),
            skipped < chars.len(),
            forall|j: int| 0 <= j < i - skipped ==> is_digit(#[trigger] digits[j]),
            number == digits_value(digits.take(i - skipped)),
            number <= max,
        decreases chars.len() - i,
    {
        let c: char = chars[i];
        let ghost at = i - skipped;
        assert(digits[at] == c);
        if !('0' <= c && c <= '9') {
            return None;
        }
        let digit: usize = (c as u32 - 48) as usize;
        proof {
            assert(digits.take(at + 1).drop_last() =~= digits.take(at));
            assert(digits_value(digits.take(at + 1)) == number * 10 + digit);
            lemma_more_digits_no_smaller(digits, at + 1);
        }
        if digit > max || number > (max - digit) / 10 {
            return None;
        }
        number = number * 10 + digit;
        i = i + 1;
    }
    assert(digits.take(digits.len() as int) =~= digits);
    Some(number)
}

/// Whether a character is white space.
pub fn is_whitespace(c: char) -> (white: bool)
    ensures
        white == is_white_space(c),
{
    let code: u32 = c as u32;
    (0x9 <= code && code <= 0xd) || code == 0x20 || code == 0x85 || code == 0xa0 || code == 0x1680
        || (0x2000 <= code && code <= 0x200a) || code == 0x2028 || code == 0x2029 || code == 0x202f
        || code == 0x205f || code == 0x3000
}

/// Narrows a range of characters to what is left without the white space at its ends.
fn trim_range(chars: &Vec<char>, start: usize, end: usize) -> (range: (usize, usize))
    requires
        start <= end <= chars@.len(),
    ensures
        start <= range.0 <= range.1 <= end,
        chars@.subrange(range.0 as int, range.1 as int) == trimmed(
            chars@.subrange(start as int, end as int),
        ),
{
    let mut from: usize = start;
    let mut to: usize = end;
    let ghost whole = trimmed(chars@.subrange(start as int, end as int));
    while from < to && is_whitespace(chars[from])
        invariant
            start <= from <= to == end <= chars@.len(),
            trimmed(chars@.subrange(from as int, to as int)) == whole,
        decreases to - from,
    {
        assert(chars@.subrange(from as int, to as int).skip(1) =~= chars@.subrange(
            from + 1,
            to as int,
        ));
        from = from + 1;
    }
    while from < to && is_whitespace(chars[to - 1])
        invariant
            start <= from <= to <= end <= chars@.len(),
            from < to ==> !is_white_space(chars@[from as int]),
            trimmed(chars@.subrange(from as int, to as int)) == whole,
        decreases to - from,
    {
        assert(chars@.subrange(from as int, to as int).drop_last() =~= chars@.subrange(
            from as int,
            to - 1,
        ));
        to = to - 1;
    }
    (from, to)
}

proof fn lemma_one_more_name(pieces: Seq<Seq<char>>, piece: Seq<char>)
    ensures
        trimmed_names(pieces.push(piece)) == (if trimmed(piece).len() > 0 {
            trimmed_names(pieces).push(trimmed(piece))
        } else {
            trimmed_names(pieces)
        }),
{
    reveal(Seq::filter);
    let all = pieces.push(piece).map_values(|piece: Seq<char>| trimmed(piece));
    assert(all.drop_last() =~= pieces.map_values(|piece: Seq<char>| trimmed(piece)));
}

/// The names in a list with commas.
pub fn split_hosts(value: &str) -> (hosts: Vec<String>)
    ensures
        string_views(hosts@) == names_in(value@),
{
    let chars = chars_of(value);
    let mut hosts: Vec<String> = Vec::new();
    let mut start: usize = 0;
    let mut i: usize = 0;
    let ghost mut pieces: Seq<Seq<char>> = Seq::empty();
    proof {
        reveal(Seq::filter);
        assert(value@.take(0) =~= Seq::<char>::empty());
        assert(split_on(value@.take(0), ',') =~= pieces.push(value@.subrange(0, 0)));
        assert(string_views(hosts@) =~= trimmed_names(pieces));
    }
    loop
        invariant_except_break
            chars@ == value@,
            start <= i <= chars.len(),
            split_on(value@.take(i as int), ',') == pieces.push(
                value@.subrange(start as int, i as int),
            ),
            string_views(hosts@) == trimmed_names(pieces),
        ensures
            string_views(hosts@) == names_in(value@),
        decreases chars.len() - i,
    {
        if i == chars.len() || chars[i] == ',' {
            let ghost piece = value@.subrange(start as int, i as int);
            let ghost before = string_views(hosts@);
            let (from, to) = trim_range(&chars, start, i);
            if from < to {
                let host = value.substring_char(from, to).to_owned();
                hosts.push(host);
                assert(string_views(hosts@) =~= before.push(host@));
            }
            proof {
                lemma_one_more_name(pieces, piece);
            }
            if i == chars.len() {
                assert(value@.take(i as int) =~= value@);
                break;
            }
            proof {
                pieces = pieces.push(piece);
            }
            start = i + 1;
        }
        proof {
            let next = value@.take(i + 1);
            assert(next.drop_last() =~= value@.take(i as int));
            assert(next.last() == value@[i as int]);
            if value@[i as int] == ',' {
                assert(value@.subrange(start as int, i + 1) =~= Seq::<char>::empty());
            } else {
                assert(value@.subrange(start as int, i + 1) =~= value@.subrange(
                    start as int,
                    i as int,
                ).push(value@[i as int]));
                assert(pieces.push(value@.subrange(start as int, i as int)).drop_last() =~= pieces);
            }
        }
        i = i + 1;
    }
    hosts
}

/// Puts text together with a separator between each two pieces.
pub fn join_text(pieces: &Vec<String>, separator: &str) -> (text: String)
    ensures
        text@ == joined(string_views(pieces@), separator@),
{
    let ghost views = string_views(pieces@);
    let mut text = String::new();
    let mut i: usize = 0;
    assert(views.take(0) =~= Seq::<Seq<char>>::empty());
    while i < pieces.len()
        invariant
            views == string_views(pieces@),
            i <= pieces.len(),
            text@ == joined(views.take(i as int), separator@),
        decreases pieces.len() - i,
    {
        assert(views.take(i + 1).drop_last() =~= views.take(i as int));
        if i > 0 {
            text.append(separator);
        }
        text.append(pieces[i].as_str());
        proof {
            if i == 0 {
                assert(text@ =~= joined(views.take(1), separator@));
            }
        }
        i = i + 1;
    }
    assert(views.take(views.len() as int) =~= views);
    text
}

/// Whether two texts are the same.
pub fn same_text(a: &String, b: &str) -> (same: bool)
    ensures
        same == (a@ == b@),
{
    *a == b.to_owned()
}

/// Text that is written in decimal reads back as the number.
pub proof fn law_decimal_reads_back(number: nat)
    ensures
        number_in(decimal(number)) == Some(number),
{
    lemma_decimal_digits(number);
    assert(is_digit(decimal(number)[0]));
    assert(without_plus(decimal(number)) == decimal(number));
}

proof fn lemma_decimal_digits(number: nat)
    ensures
        decimal(number).len() > 0,
        forall|i: int| 0 <= i < decimal(number).len() ==> is_digit(#[trigger] decimal(number)[i]),
        digits_value(decimal(number)) == number,
    decreases number,
{
    if number >= 10 {
        lemma_decimal_digits(number / 10);
        assert(decimal(number).drop_last() =~= decimal(number / 10));
    } else {
        assert(decimal(number).drop_last() =~= Seq::<char>::empty());
        assert(digits_value(decimal(number).drop_last()) == 0);
    }
}

/// The pieces of a split hold no separator, and put together again they are the text.
pub proof fn law_split_joins_back(text: Seq<char>, separator: char)
    ensures
        split_on(text, separator).len() > 0,
        joined(split_on(text, separator), seq![separator]) == text,
        forall|i: int|
            0 <= i < split_on(text, separator).len() ==> !(#[trigger] split_on(
                text,
                separator,
            )[i]).contains(separator),
    decreases text.len(),
{
    let pieces = split_on(text, separator);
    if text.len() > 0 {
        let init = text.drop_last();
        let before = split_on(init, separator);
        law_split_joins_back(init, separator);
        assert(text =~= init.push(text.last()));
        if text.last() == separator {
            assert(pieces.drop_last() =~= before);
            assert(joined(pieces, seq![separator]) =~= text);
        } else {
            assert(pieces.drop_last() =~= before.drop_last());
            assert(joined(pieces, seq![separator]) =~= text);
            assert forall|i: int| 0 <= i < pieces.len() implies !(#[trigger] pieces[i]).contains(
                separator,
            ) by {
                assert(!before[i].contains(separator));
                if i == pieces.len() - 1 {
                    let last = pieces[i];
                    if last.contains(separator) {
                        let k = choose|k: int| 0 <= k < last.len() && last[k] == separator;
                        assert(before[i][k] == separator);
                    }
                }
            }
        }
    }
}

/// A name in a list has no comma, no white space at its ends, and is not empty.
pub proof fn law_names_are_clean(text: Seq<char>, at: int)
    requires
        0 <= at < names_in(text).len(),
    ensures
        names_in(text)[at].len() > 0,
        !names_in(text)[at].contains(','),
        !is_white_space(names_in(text)[at][0]),
        !is_white_space(names_in(text)[at].last()),
{
    let pieces = split_on(text, ',');
    let all = pieces.map_values(|piece: Seq<char>| trimmed(piece));
    let kept = |name: Seq<char>| name.len() > 0;
    let name = names_in(text)[at];
    assert(all.filter(kept)[at] == name);
    all.lemma_filter_pred(kept, at);
    all.lemma_filter_contains_rev(kept, name);
    assert(all.contains(name));
    let i = choose|i: int| 0 <= i < all.len() && all[i] == name;
    law_split_joins_back(text, ',');
    assert(!pieces[i].contains(','));
    lemma_trimmed_is_part(pieces[i]);
    if name.contains(',') {
        assert(pieces[i].contains(','));
    }
}

proof fn lemma_trimmed_is_part(text: Seq<char>)
    ensures
        forall|c: char| #[trigger] trimmed(text).contains(c) ==> text.contains(c),
        trimmed(text).len() > 0 ==> !is_white_space(trimmed(text)[0]) && !is_white_space(
            trimmed(text).last(),
        ),
    decreases text.len(),
{
    if text.len() > 0 && is_white_space(text[0]) {
        let rest = text.skip(1);
        lemma_trimmed_is_part(rest);
        assert forall|c: char| #[trigger] trimmed(text).contains(c) implies text.contains(c) by {
            assert(rest.contains(c));
            let k = choose|k: int| 0 <= k < rest.len() && rest[k] == c;
            assert(text[k + 1] == c);
        }
    } else if text.len() > 0 && is_white_space(text.last()) {
        let rest = text.drop_last();
        lemma_trimmed_is_part(rest);
        assert forall|c: char| #[trigger] trimmed(text).contains(c) implies text.contains(c) by {
            assert(rest.contains(c));
            let k = choose|k: int| 0 <= k < rest.len() && rest[k] == c;
            assert(text[k] == c);
        }
    }
}

/// A number in decimal has no leading zero, so that it is written in one way only.
pub proof fn law_decimal_has_no_leading_zero(number: nat)
    ensures
        number > 0 ==> decimal(number)[0] != '0',
        number == 0 ==> decimal(number) == seq!['0'],
        number < 10 <==> decimal(number).len() == 1,
    decreases number,
{
    if number >= 10 {
        law_decimal_has_no_leading_zero(number / 10);
        lemma_decimal_digits(number / 10);
        assert(decimal(number)[0] == decimal(number / 10)[0]);
    } else {
        assert(decimal(number) =~= seq![digit_char(number)]);
    }
}

/// How numbers are read: a digit stands for itself, a further digit behind a number makes it ten
/// times as large and adds to it, and a plus sign in front changes nothing. A number is taken up to
/// the largest that is allowed.
pub proof fn law_numbers_are_read_digit_by_digit(text: Seq<char>, c: char, max: nat)
    ensures
        '0' <= c <= '9' ==> number_in(seq![c]) == Some((c as int - '0' as int) as nat),
        '0' <= c <= '9' && number_in(text) is Some ==> number_in(text.push(c)) == Some(
            (10 * number_in(text)->0 + (c as int - '0' as int)) as nat,
        ),
        text.len() > 0 && text[0] != '+' ==> number_in(seq!['+'] + text) == number_in(text),
        number_up_to(text, max) == (if number_in(text) is Some && number_in(text)->0 <= max {
            number_in(text)
        } else {
            None
        }),
{
    let digits = without_plus(text);
    if '0' <= c <= '9' {
        let one = seq![c];
        assert(one.drop_last() =~= Seq::<char>::empty());
        assert(digits_value(one.drop_last()) == 0);
        if number_in(text) is Some {
            let longer = without_plus(text.push(c));
            assert(longer =~= digits.push(c));
            assert(longer.drop_last() =~= digits);
            assert forall|i: int| 0 <= i < longer.len() implies is_digit(#[trigger] longer[i]) by {
                if i < digits.len() {
                    assert(is_digit(digits[i]));
                }
            }
        }
    }
    if text.len() > 0 && text[0] != '+' {
        assert((seq!['+'] + text).skip(1) =~= text);
    }
}

/// What holds at least one digit and nothing else, but for a plus sign in front, is a number;
/// anything else is none.
pub proof fn law_numbers_are_digits(text: Seq<char>, digits: Seq<char>)
    requires
        digits == (if text.len() > 0 && text[0] == '+' {
            text.skip(1)
        } else {
            text
        }),
    ensures
        number_in(text) is Some <==> digits.len() > 0 && forall|i: int|
            0 <= i < digits.len() ==> '0' <= #[trigger] digits[i] && digits[i] <= '9',
{
    if digits.len() > 0 && forall|i: int|
        0 <= i < digits.len() ==> '0' <= #[trigger] digits[i] && digits[i] <= '9' {
        assert forall|i: int| 0 <= i < digits.len() implies is_digit(#[trigger] digits[i]) by {}
    } else if digits.len() > 0 {
        let i = choose|i: int|
            0 <= i < digits.len() && !('0' <= #[trigger] digits[i] && digits[i] <= '9');
        assert(!is_digit(digits[i]));
    }
}

/// Trimming takes away white space at the ends, all of it and nothing else: what is left stands
/// between `range.0` and `range.1`.
pub proof fn law_trimming_takes_white_space(text: Seq<char>) -> (range: (int, int))
    ensures
        0 <= range.0 <= range.1 <= text.len(),
        trimmed(text) == text.subrange(range.0, range.1),
        forall|i: int|
            0 <= i < text.len() && !(range.0 <= i < range.1) ==> is_white_space(#[trigger] text[i]),
        range.0 < range.1 ==> !is_white_space(text[range.0]) && !is_white_space(
            text[range.1 - 1],
        ),
    decreases text.len(),
{
    if text.len() > 0 && is_white_space(text[0]) {
        let rest = text.skip(1);
        let inner = law_trimming_takes_white_space(rest);
        let range = (inner.0 + 1, inner.1 + 1);
        assert(rest.subrange(inner.0, inner.1) =~= text.subrange(range.0, range.1));
        assert forall|i: int| 0 <= i < text.len()
            && !(range.0 <= i < range.1) implies is_white_space(
            #[trigger] text[i],
        ) by {
            if i > 0 {
                assert(is_white_space(rest[i - 1]));
            }
        }
        range
    } else if text.len() > 0 && is_white_space(text.last()) {
        let rest = text.drop_last();
        let range = law_trimming_takes_white_space(rest);
        assert(rest.subrange(range.0, range.1) =~= text.subrange(range.0, range.1));
        assert forall|i: int| 0 <= i < text.len()
            && !(range.0 <= i < range.1) implies is_white_space(
            #[trigger] text[i],
        ) by {
            if i < rest.len() {
                assert(is_white_space(rest[i]));
            }
        }
        range
    } else {
        assert(text.subrange(0, text.len() as int) =~= text);
        (0, text.len() as int)
    }
}

/// Joining goes piece by piece: the first piece stands alone, and each further one comes behind a
/// separator, whatever the pieces and the separator are.
pub proof fn law_joining_goes_piece_by_piece(
    pieces: Seq<Seq<char>>,
    piece: Seq<char>,
    separator: Seq<char>,
)
    ensures
        joined(Seq::empty(), separator) == Seq::<char>::empty(),
        joined(seq![piece], separator) == piece,
        pieces.len() > 0 ==> joined(pieces.push(piece), separator) == joined(pieces, separator)
            + separator + piece,
{
    assert(pieces.push(piece).drop_last() =~= pieces);
}

/// Splitting undoes joining: pieces without the separator come out as they went in.
pub proof fn law_split_undoes_join(pieces: Seq<Seq<char>>, separator: char)
    requires
        pieces.len() > 0,
        forall|i: int| 0 <= i < pieces.len() ==> !(#[trigger] pieces[i]).contains(separator),
    ensures
        split_on(joined(pieces, seq![separator]), separator) == pieces,
    decreases pieces.len(),
{
    assert(!pieces[pieces.len() - 1].contains(separator));
    if pieces.len() == 1 {
        lemma_split_tail(Seq::empty(), pieces[0], separator);
        assert(Seq::<char>::empty() + pieces[0] =~= pieces[0]);
        assert(split_on(pieces[0], separator) =~= pieces);
    } else {
        let init = pieces.drop_last();
        assert forall|i: int| 0 <= i < init.len() implies !(#[trigger] init[i]).contains(
            separator,
        ) by {
            assert(init[i] == pieces[i]);
        }
        law_split_undoes_join(init, separator);
        let front = joined(init, seq![separator]);
        assert(front + seq![separator] =~= front.push(separator));
        assert(front.push(separator).drop_last() =~= front);
        lemma_split_tail(front.push(separator), pieces.last(), separator);
        assert(split_on(front.push(separator), separator) =~= init.push(Seq::empty()));
        assert(split_on(joined(pieces, seq![separator]), separator) =~= pieces);
    }
}

/// Text without a separator only makes the last piece longer.
proof fn lemma_split_tail(text: Seq<char>, tail: Seq<char>, separator: char)
    requires
        !tail.contains(separator),
    ensures
        split_on(text, separator).len() > 0,
        split_on(text + tail, separator) == split_on(text, separator).drop_last().push(
            split_on(text, separator).last() + tail,
        ),
    decreases tail.len(),
{
    law_split_joins_back(text, separator);
    let pieces = split_on(text, separator);
    if tail.len() == 0 {
        assert(text + tail =~= text);
        assert(pieces.last() + tail =~= pieces.last());
        assert(pieces.drop_last().push(pieces.last()) =~= pieces);
    } else {
        let init = tail.drop_last();
        let c = tail.last();
        assert(tail[tail.len() - 1] == c);
        assert(!init.contains(separator)) by {
            if init.contains(separator) {
                let k = choose|k: int| 0 <= k < init.len() && init[k] == separator;
                assert(tail[k] == separator);
            }
        }
        lemma_split_tail(text, init, separator);
        assert((text + tail).drop_last() =~= text + init);
        assert((text + tail).last() == c);
        let shorter = pieces.drop_last().push(pieces.last() + init);
        assert(shorter.drop_last() =~= pieces.drop_last());
        assert((pieces.last() + init).push(c) =~= pieces.last() + tail);
    }
}

/// Every name in a list is found: what stands between the commas is a name unless it is white
/// space alone, and the names keep their order; `kept` tells which pieces they are.
pub proof fn law_every_name_is_found(pieces: Seq<Seq<char>>) -> (kept: Seq<int>)
    requires
        pieces.len() > 0,
        forall|i: int| 0 <= i < pieces.len() ==> !(#[trigger] pieces[i]).contains(','),
    ensures
        ({
            let names = names_in(joined(pieces, seq![',']));
            &&& names.len() == kept.len()
            &&& forall|i: int|
                0 <= i < kept.len() ==> 0 <= #[trigger] kept[i] < pieces.len() && names[i]
                    == trimmed(pieces[kept[i]])
            &&& forall|i: int, j: int|
                0 <= i < j < kept.len() ==> #[trigger] kept[i] < #[trigger] kept[j]
            &&& forall|k: int, at: int|
                0 <= k < pieces.len() && 0 <= at < pieces[k].len() && !is_white_space(
                    #[trigger] pieces[k][at],
                ) ==> kept.contains(k)
        }),
{
    law_split_undoes_join(pieces, ',');
    let kept = lemma_names_of_pieces(pieces);
    assert forall|k: int, at: int|
        0 <= k < pieces.len() && 0 <= at < pieces[k].len() && !is_white_space(
            #[trigger] pieces[k][at],
        ) implies kept.contains(k) by {
        let range = law_trimming_takes_white_space(pieces[k]);
        assert(range.0 <= at < range.1);
        assert(trimmed(pieces[k]).len() > 0);
    }
    kept
}

proof fn lemma_names_of_pieces(pieces: Seq<Seq<char>>) -> (kept: Seq<int>)
    ensures
        trimmed_names(pieces).len() == kept.len(),
        forall|i: int|
            0 <= i < kept.len() ==> 0 <= #[trigger] kept[i] < pieces.len() && trimmed_names(
                pieces,
            )[i] == trimmed(pieces[kept[i]]),
        forall|i: int, j: int| 0 <= i < j < kept.len() ==> #[trigger] kept[i] < #[trigger] kept[j],
        forall|k: int|
            0 <= k < pieces.len() && trimmed(#[trigger] pieces[k]).len() > 0 ==> kept.contains(k),
    decreases pieces.len(),
{
    if pieces.len() == 0 {
        reveal(Seq::filter);
        Seq::empty()
    } else {
        let init = pieces.drop_last();
        let last = pieces.len() - 1;
        let before = lemma_names_of_pieces(init);
        lemma_one_more_name(init, pieces.last());
        assert(init.push(pieces.last()) =~= pieces);
        if trimmed(pieces.last()).len() > 0 {
            let kept = before.push(last);
            assert forall|k: int|
                0 <= k < pieces.len() && trimmed(#[trigger] pieces[k]).len()
                    > 0 implies kept.contains(k) by {
                if k < last {
                    assert(init[k] == pieces[k]);
                    let i = choose|i: int| 0 <= i < before.len() && before[i] == k;
                    assert(kept[i] == k);
                } else {
                    assert(kept[before.len() as int] == k);
                }
            }
            kept
        } else {
            assert forall|k: int|
                0 <= k < pieces.len() && trimmed(#[trigger] pieces[k]).len()
                    > 0 implies before.contains(k) by {
                assert(init[k] == pieces[k]);
            }
            before
        }
    }
}

} // verus!
