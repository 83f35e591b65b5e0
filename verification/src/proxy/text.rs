//! Text: numbers in decimal, splitting, trimming and joining.

use vstd::prelude::*;

verus! {

/// Whether a character is white space in Unicode's sense.
pub uninterp spec fn is_white_space(c: char) -> bool;

/// A text in lower case.
pub uninterp spec fn lower_case(s: Seq<char>) -> Seq<char>;

/// A text in quotes, with escapes, as Rust's debug format writes it.
pub uninterp spec fn debug_quoted(s: Seq<char>) -> Seq<char>;

/// `char::is_whitespace` tests the Unicode property White_Space. Claims that the answer depends
/// on the character alone.
pub assume_specification[ char::is_whitespace ](c: char) -> (white: bool)
    ensures
        white == is_white_space(c),
;

/// `str::to_lowercase` maps a text to lower case by Unicode's tables. Claims that the result
/// depends on the text alone.
pub assume_specification[ str::to_lowercase ](s: &str) -> (lower: String)
    ensures
        lower@ == lower_case(s@),
;

/// Formats a text with `{:?}`. Claims that the result depends on the text alone.
#[verifier::external_body]
pub(crate) fn debug_text(s: &str) -> (quoted: String)
    ensures
        quoted@ == debug_quoted(s@),
{
    format!("{:?}", s)
}

/// Calls `String::from_iter`. Claims that the text holds the characters in order.
#[verifier::external_body]
pub(crate) fn text_of(chars: Vec<char>) -> (s: String)
    ensures
        s@ == chars@,
{
    String::from_iter(chars)
}

/// The characters of a text.
pub(crate) fn chars_of(s: &str) -> (chars: Vec<char>)
    ensures
        chars@ == s@,
{
    let mut chars: Vec<char> = Vec::new();
    for c in it: s.chars()
        invariant
            chars@ == s@.take(it.index() as int),
            it.seq() == s@,
    {
        chars.push(c);
        assert(chars@ =~= s@.take(it.index() + 1));
    }
    assert(s@.take(s@.len() as int) =~= s@);
    chars
}

/// Whether two texts are the same.
pub(crate) fn same_text(a: &str, b: &str) -> (same: bool)
    ensures
        same == (a@ == b@),
{
    a.to_owned() == b.to_owned()
}

/// The character of a decimal digit.
pub open spec fn digit_char(d: int) -> char {
    (48 + d) as char
}

/// A number in decimal.
pub open spec fn decimal(n: nat) -> Seq<char>
    decreases n,
{
    if n < 10 {
        seq![digit_char(n as int)]
    } else {
        decimal(n / 10).push(digit_char((n % 10) as int))
    }
}

/// A signed number in decimal.
pub open spec fn signed_decimal(n: int) -> Seq<char> {
    if n < 0 {
        seq!['-'] + decimal((-n) as nat)
    } else {
        decimal(n as nat)
    }
}

fn push_decimal(out: &mut Vec<char>, n: u64)
    ensures
        final(out)@ == old(out)@ + decimal(n as nat),
    decreases n,
{
    if n >= 10 {
        push_decimal(out, n / 10);
    }
    let digit: u8 = 48 + (n % 10) as u8;
    out.push(digit as char);
    assert(out@ =~= old(out)@ + decimal(n as nat));
}

/// Writes a number in decimal.
pub(crate) fn decimal_text(n: u64) -> (s: String)
    ensures
        s@ == decimal(n as nat),
{
    let mut chars: Vec<char> = Vec::new();
    push_decimal(&mut chars, n);
    assert(chars@ =~= decimal(n as nat));
    text_of(chars)
}

/// Writes a signed number in decimal.
pub(crate) fn signed_decimal_text(n: i64) -> (s: String)
    ensures
        s@ == signed_decimal(n as int),
{
    let mut chars: Vec<char> = Vec::new();
    if n < 0 {
        chars.push('-');
        let magnitude: u64 = (-(n as i128)) as u64;
        push_decimal(&mut chars, magnitude);
        assert(chars@ =~= signed_decimal(n as int));
    } else {
        push_decimal(&mut chars, n as u64);
        assert(chars@ =~= signed_decimal(n as int));
    }
    text_of(chars)
}

/// A decimal digit.
pub open spec fn is_digit(c: char) -> bool {
    '0' <= c <= '9'
}

/// The number that decimal digits write.
pub open spec fn digits_value(s: Seq<char>) -> nat
    decreases s.len(),
{
    if s.len() == 0 {
        0
    } else {
        10 * digits_value(s.drop_last()) + (s.last() as nat - 48) as nat
    }
}

/// Nothing but decimal digits, and at least one.
pub open spec fn all_digits(s: Seq<char>) -> bool {
    &&& s.len() > 0
    &&& forall|i: int| 0 <= i < s.len() ==> is_digit(#[trigger] s[i])
}

/// A text without the plus sign that it may start with.
pub open spec fn without_plus(s: Seq<char>) -> Seq<char> {
    if s.len() > 0 && s[0] == '+' {
        s.skip(1)
    } else {
        s
    }
}

/// The unsigned number that `s` writes in decimal, with a plus sign or without, if it is at most
/// `max`.
pub open spec fn parsed_number(s: Seq<char>, max: nat) -> Option<nat> {
    let body = without_plus(s);
    if all_digits(body) && digits_value(body) <= max {
        Some(digits_value(body))
    } else {
        None
    }
}

/// A number is at least as large as the number that its first digits write.
proof fn lemma_digits_prefix(s: Seq<char>, n: int)
    requires
        0 <= n <= s.len(),
    ensures
        digits_value(s.take(n)) <= digits_value(s),
    decreases s.len() - n,
{
    if n == s.len() {
        assert(s.take(n) =~= s);
    } else {
        lemma_digits_prefix(s, n + 1);
        assert(s.take(n + 1).drop_last() =~= s.take(n));
    }
}

/// Reads an unsigned decimal number of at most `max`.
pub(crate) fn parse_number(s: &str, max: u64) -> (out: Option<u64>)
    ensures
        out is Some <==> parsed_number(s@, max as nat) is Some,
        out matches Some(n) ==> parsed_number(s@, max as nat) == Some(n as nat),
{
    let chars = chars_of(s);
    let start: usize = if chars.len() > 0 && chars[0] == '+' {
        1
    } else {
        0
    };
    let ghost body = s@.skip(start as int);
    assert(start == 0 ==> body =~= s@);
    if start == chars.len() {
        return None;
    }
    let mut i: usize = start;
    let mut value: u128 = 0;
    while i < chars.len()
        invariant
            chars@ == s@,
            body == s@.skip(start as int),
            body == without_plus(s@),
            start <= i <= chars@.len(),
            forall|j: int| 0 <= j < i - start ==> is_digit(#[trigger] body[j]),
            value == digits_value(body.take(i - start)),
            value <= max,
        decreases chars@.len() - i,
    {
        let c: char = chars[i];
        assert(c == body[i - start]);
        if c < '0' || c > '9' {
            assert(!is_digit(body[i - start]));
            return None;
        }
        value = 10 * value + (c as u32 - 48) as u128;
        proof {
            assert(body.take(i - start + 1).drop_last() =~= body.take(i - start));
            lemma_digits_prefix(body, i - start + 1);
        }
        if value > max as u128 {
            return None;
        }
        i = i + 1;
    }
    assert(body.take(i - start) =~= body);
    Some(value as u64)
}

/// The digits of a number in decimal write that number.
proof fn lemma_decimal_digits(n: nat)
    ensures
        all_digits(decimal(n)),
        digits_value(decimal(n)) == n,
    decreases n,
{
    let s = decimal(n);
    if n < 10 {
        assert(s.drop_last() =~= Seq::<char>::empty());
        assert(digits_value(s.drop_last()) == 0);
        assert(s[0] == digit_char(n as int));
    } else {
        lemma_decimal_digits(n / 10);
        let before = decimal(n / 10);
        assert(s.drop_last() =~= before);
        assert forall|i: int| 0 <= i < s.len() implies is_digit(#[trigger] s[i]) by {
            if i < before.len() {
                assert(s[i] == before[i]);
            }
        }
    }
}

/// Reading a number that was written in decimal gives the number back.
pub proof fn law_decimal_read_back(n: nat, max: nat)
    requires
        n <= max,
    ensures
        parsed_number(decimal(n), max) == Some(n),
{
    lemma_decimal_digits(n);
    assert(is_digit(decimal(n)[0]));
}

/// A text without the white space at its start.
pub open spec fn trim_start(s: Seq<char>) -> Seq<char>
    decreases s.len(),
{
    if s.len() > 0 && is_white_space(s[0]) {
        trim_start(s.drop_first())
    } else {
        s
    }
}

/// A text without the white space at its end.
pub open spec fn trim_end(s: Seq<char>) -> Seq<char>
    decreases s.len(),
{
    if s.len() > 0 && is_white_space(s.last()) {
        trim_end(s.drop_last())
    } else {
        s
    }
}

/// A text without the white space at its ends.
pub open spec fn trim(s: Seq<char>) -> Seq<char> {
    trim_end(trim_start(s))
}

/// The characters from `from` to `to`.
pub(crate) fn chars_between(chars: &Vec<char>, from: usize, to: usize) -> (out: Vec<char>)
    requires
        from <= to <= chars@.len(),
    ensures
        out@ == chars@.subrange(from as int, to as int),
{
    vstd::slice::slice_to_vec(vstd::slice::slice_subrange(chars.as_slice(), from, to))
}

/// Cuts the white space off both ends.
pub(crate) fn trimmed(chars: &Vec<char>) -> (out: Vec<char>)
    ensures
        out@ == trim(chars@),
{
    let mut from: usize = 0;
    assert(chars@.skip(0) =~= chars@);
    while from < chars.len() && chars[from].is_whitespace()
        invariant
            from <= chars@.len(),
            trim_start(chars@.skip(from as int)) == trim_start(chars@),
        decreases chars@.len() - from,
    {
        assert(chars@.skip(from as int).drop_first() =~= chars@.skip(from + 1));
        from = from + 1;
    }
    let ghost rest = chars@.skip(from as int);
    assert(trim_start(chars@) == rest);
    let mut to: usize = chars.len();
    assert(chars@.subrange(from as int, to as int) =~= rest);
    while to > from && chars[to - 1].is_whitespace()
        invariant
            from <= to <= chars@.len(),
            trim_end(chars@.subrange(from as int, to as int)) == trim_end(rest),
        decreases to,
    {
        let ghost now = chars@.subrange(from as int, to as int);
        assert(now.last() == chars@[to - 1]);
        assert(now.drop_last() =~= chars@.subrange(from as int, to - 1));
        to = to - 1;
    }
    chars_between(chars, from, to)
}

/// Cuts the white space off both ends of a text.
pub(crate) fn trim_text(s: &str) -> (out: String)
    ensures
        out@ == trim(s@),
{
    text_of(trimmed(&chars_of(s)))
}

/// How many characters stand before the first one that is among `stops`.
pub open spec fn span(s: Seq<char>, stops: Seq<char>) -> nat
    decreases s.len(),
{
    if s.len() == 0 || stops.contains(s[0]) {
        0
    } else {
        1 + span(s.drop_first(), stops)
    }
}

/// A span stays within the text.
pub proof fn lemma_span_bound(s: Seq<char>, stops: Seq<char>)
    ensures
        span(s, stops) <= s.len(),
        span(s, stops) < s.len() ==> stops.contains(s[span(s, stops) as int]),
        forall|i: int| 0 <= i < span(s, stops) ==> !stops.contains(#[trigger] s[i]),
    decreases s.len(),
{
    if s.len() > 0 && !stops.contains(s[0]) {
        lemma_span_bound(s.drop_first(), stops);
        assert forall|i: int| 0 <= i < span(s, stops) implies !stops.contains(#[trigger] s[i]) by {
            if i > 0 {
                assert(s[i] == s.drop_first()[i - 1]);
            }
        }
    }
}

/// The pieces of a text between the characters that are among `stops`.
pub open spec fn pieces(s: Seq<char>, stops: Seq<char>) -> Seq<Seq<char>>
    decreases s.len(),
{
    let n = span(s, stops);
    if n >= s.len() {
        seq![s]
    } else {
        seq![s.take(n as int)] + pieces(s.skip(n as int + 1), stops)
    }
}

/// A text without any of `stops`.
pub open spec fn is_unbroken(s: Seq<char>, stops: Seq<char>) -> bool {
    forall|i: int| 0 <= i < s.len() ==> !stops.contains(#[trigger] s[i])
}

/// A text without any of the stops is one piece.
pub proof fn lemma_pieces_unbroken(s: Seq<char>, stops: Seq<char>)
    requires
        is_unbroken(s, stops),
    ensures
        pieces(s, stops) == seq![s],
{
    lemma_span_bound(s, stops);
}

/// What stands before the first stop is the first piece.
proof fn lemma_pieces_front(front: Seq<char>, stop: char, rest: Seq<char>, stops: Seq<char>)
    requires
        is_unbroken(front, stops),
        stops.contains(stop),
    ensures
        pieces(front.push(stop) + rest, stops) == seq![front] + pieces(rest, stops),
{
    let s = front.push(stop) + rest;
    lemma_span_bound(s, stops);
    let n = span(s, stops) as int;
    assert(s[front.len() as int] == stop);
    if n < front.len() {
        assert(s[n] == front[n]);
    }
    assert(s.take(n) =~= front);
    assert(s.skip(n + 1) =~= rest);
}

/// What stands behind the last stop is the last piece.
pub proof fn lemma_pieces_back(s: Seq<char>, stop: char, back: Seq<char>, stops: Seq<char>)
    requires
        is_unbroken(back, stops),
        stops.contains(stop),
    ensures
        pieces(s.push(stop) + back, stops) == pieces(s, stops).push(back),
    decreases s.len(),
{
    lemma_span_bound(s, stops);
    let n = span(s, stops) as int;
    if n >= s.len() {
        lemma_pieces_front(s, stop, back, stops);
        lemma_pieces_unbroken(back, stops);
        assert(seq![s] + seq![back] =~= seq![s].push(back));
    } else {
        let front = s.take(n);
        let rest = s.skip(n + 1);
        lemma_pieces_back(rest, stop, back, stops);
        assert(is_unbroken(front, stops));
        lemma_pieces_front(front, s[n], rest.push(stop) + back, stops);
        assert(s.push(stop) + back =~= front.push(s[n]) + (rest.push(stop) + back));
        assert(seq![front] + pieces(rest, stops).push(back) =~= (seq![front] + pieces(
            rest,
            stops,
        )).push(back));
    }
}

/// No piece holds a stop.
pub proof fn lemma_pieces_are_unbroken(s: Seq<char>, stops: Seq<char>, i: int)
    requires
        0 <= i < pieces(s, stops).len(),
    ensures
        is_unbroken(pieces(s, stops)[i], stops),
    decreases s.len(),
{
    lemma_span_bound(s, stops);
    let n = span(s, stops) as int;
    if n < s.len() && i > 0 {
        lemma_pieces_are_unbroken(s.skip(n + 1), stops, i - 1);
        assert(pieces(s, stops)[i] == pieces(s.skip(n + 1), stops)[i - 1]);
    }
}

proof fn lemma_trim_start_unbroken(s: Seq<char>, stops: Seq<char>)
    requires
        is_unbroken(s, stops),
    ensures
        is_unbroken(trim_start(s), stops),
        trim_start(s).len() > 0 ==> !is_white_space(trim_start(s)[0]),
    decreases s.len(),
{
    if s.len() > 0 && is_white_space(s[0]) {
        assert forall|i: int| 0 <= i < s.drop_first().len() implies !stops.contains(
            #[trigger] s.drop_first()[i],
        ) by {
            assert(s.drop_first()[i] == s[i + 1]);
        }
        lemma_trim_start_unbroken(s.drop_first(), stops);
    }
}

proof fn lemma_trim_end_unbroken(s: Seq<char>, stops: Seq<char>)
    requires
        is_unbroken(s, stops),
    ensures
        is_unbroken(trim_end(s), stops),
        trim_end(s).len() > 0 ==> !is_white_space(trim_end(s).last()) && trim_end(s)[0] == s[0],
    decreases s.len(),
{
    if s.len() > 0 && is_white_space(s.last()) {
        assert forall|i: int| 0 <= i < s.drop_last().len() implies !stops.contains(
            #[trigger] s.drop_last()[i],
        ) by {
            assert(s.drop_last()[i] == s[i]);
        }
        lemma_trim_end_unbroken(s.drop_last(), stops);
        if trim_end(s).len() > 0 {
            lemma_trim_end_len(s.drop_last());
            assert(s.drop_last()[0] == s[0]);
        }
    }
}

proof fn lemma_trim_end_len(s: Seq<char>)
    ensures
        trim_end(s).len() <= s.len(),
    decreases s.len(),
{
    if s.len() > 0 && is_white_space(s.last()) {
        lemma_trim_end_len(s.drop_last());
    }
}

/// Cutting off the white space at both ends adds no stop, and leaves none to be cut off.
pub proof fn lemma_trim_unbroken(s: Seq<char>, stops: Seq<char>)
    requires
        is_unbroken(s, stops),
    ensures
        is_unbroken(trim(s), stops),
        trim(trim(s)) == trim(s),
{
    lemma_trim_start_unbroken(s, stops);
    lemma_trim_end_unbroken(trim_start(s), stops);
    lemma_trim_end_len(trim_start(s));
}

/// Whether a character is among `stops`.
fn is_stop(c: char, stops: &[char]) -> (found: bool)
    ensures
        found == stops@.contains(c),
{
    let mut i: usize = 0;
    while i < stops.len()
        invariant
            i <= stops@.len(),
            forall|j: int| 0 <= j < i ==> stops@[j] != c,
        decreases stops@.len() - i,
    {
        if stops[i] == c {
            assert(stops@[i as int] == c);
            return true;
        }
        i = i + 1;
    }
    false
}

/// The end of the piece that starts at `from`.
pub(crate) fn span_end(chars: &Vec<char>, from: usize, stops: &[char]) -> (end: usize)
    requires
        from <= chars@.len(),
    ensures
        end == from + span(chars@.skip(from as int), stops@),
        from <= end <= chars@.len(),
{
    let mut end: usize = from;
    while end < chars.len() && !is_stop(chars[end], stops)
        invariant
            from <= end <= chars@.len(),
            span(chars@.skip(from as int), stops@) == end - from + span(
                chars@.skip(end as int),
                stops@,
            ),
        decreases chars@.len() - end,
    {
        assert(chars@.skip(end as int).drop_first() =~= chars@.skip(end + 1));
        end = end + 1;
    }
    end
}

/// The character sequences of a list of character vectors.
pub open spec fn char_views(list: Seq<Vec<char>>) -> Seq<Seq<char>> {
    list.map_values(|chars: Vec<char>| chars@)
}

/// The character sequences of a list of texts.
pub open spec fn text_views(list: Seq<String>) -> Seq<Seq<char>> {
    list.map_values(|s: String| s@)
}

/// The view of an optional text.
pub open spec fn text_option(s: Option<String>) -> Option<Seq<char>> {
    match s {
        Some(t) => Some(t@),
        None => None,
    }
}

/// Splits at every character that is among `stops`.
pub(crate) fn split_chars(chars: &Vec<char>, stops: &[char]) -> (out: Vec<Vec<char>>)
    ensures
        char_views(out@) == pieces(chars@, stops@),
{
    let mut out: Vec<Vec<char>> = Vec::new();
    let mut from: usize = 0;
    assert(chars@.skip(0) =~= chars@);
    assert(char_views(out@) =~= Seq::<Seq<char>>::empty());
    loop
        invariant_except_break
            from <= chars@.len(),
            pieces(chars@, stops@) =~= char_views(out@) + pieces(
                chars@.skip(from as int),
                stops@,
            ),
        ensures
            char_views(out@) == pieces(chars@, stops@),
        decreases chars@.len() - from,
    {
        let ghost before = char_views(out@);
        let ghost rest = chars@.skip(from as int);
        let end = span_end(chars, from, stops);
        out.push(chars_between(chars, from, end));
        assert(char_views(out@) =~= before.push(chars@.subrange(from as int, end as int)));
        assert(chars@.subrange(from as int, end as int) =~= rest.take(end - from));
        if end == chars.len() {
            assert(rest.take(end - from) =~= rest);
            break;
        }
        assert(rest.skip(end - from + 1) =~= chars@.skip(end + 1));
        from = end + 1;
    }
    out
}

/// Texts with a separator between each two of them.
pub open spec fn joined(list: Seq<Seq<char>>, separator: Seq<char>) -> Seq<char>
    decreases list.len(),
{
    if list.len() == 0 {
        Seq::empty()
    } else if list.len() == 1 {
        list[0]
    } else {
        joined(list.drop_last(), separator) + separator + list.last()
    }
}

/// Joins texts with a separator between each two of them.
pub(crate) fn join_texts(list: &Vec<String>, separator: &str) -> (out: String)
    ensures
        out@ == joined(text_views(list@), separator@),
{
    let mut out: String = String::new();
    let ghost all = text_views(list@);
    let mut i: usize = 0;
    while i < list.len()
        invariant
            i <= list@.len(),
            all == text_views(list@),
            out@ == joined(all.take(i as int), separator@),
        decreases list@.len() - i,
    {
        if i > 0 {
            out.append(separator);
        }
        out.append(list[i].as_str());
        assert(all.take(i + 1).drop_last() =~= all.take(i as int));
        assert(all.take(i + 1).last() == list@[i as int]@);
        i = i + 1;
        assert(out@ =~= joined(all.take(i as int), separator@));
    }
    assert(all.take(i as int) =~= all);
    out
}

/// `list` without the empty texts.
pub open spec fn without_empty(list: Seq<Seq<char>>) -> Seq<Seq<char>>
    decreases list.len(),
{
    if list.len() == 0 {
        Seq::empty()
    } else if list.last().len() == 0 {
        without_empty(list.drop_last())
    } else {
        without_empty(list.drop_last()).push(list.last())
    }
}

/// `first`, followed by each text of `list` that has not occurred before it.
pub open spec fn with_new(first: Seq<Seq<char>>, list: Seq<Seq<char>>) -> Seq<Seq<char>>
    decreases list.len(),
{
    if list.len() == 0 {
        first
    } else {
        let before = with_new(first, list.drop_last());
        if before.contains(list.last()) {
            before
        } else {
            before.push(list.last())
        }
    }
}

/// Exactly the texts of a list that are not empty stay.
pub proof fn law_without_empty(list: Seq<Seq<char>>)
    ensures
        forall|s: Seq<char>| #[trigger]
            without_empty(list).contains(s) <==> list.contains(s) && s.len() > 0,
    decreases list.len(),
{
    if list.len() > 0 {
        let rest = list.drop_last();
        law_without_empty(rest);
        assert(list =~= rest.push(list.last()));
        assert forall|s: Seq<char>| #[trigger] without_empty(list).contains(s) <==> list.contains(
            s,
        ) && s.len() > 0 by {
            lemma_push_contains(rest, list.last(), s);
            lemma_push_contains(without_empty(rest), list.last(), s);
        }
    }
}

/// A text is in a list with one more text if it was there before or is that one.
proof fn lemma_push_contains(list: Seq<Seq<char>>, last: Seq<char>, s: Seq<char>)
    ensures
        list.push(last).contains(s) <==> list.contains(s) || s == last,
{
    let more = list.push(last);
    if list.contains(s) {
        let i = choose|i: int| 0 <= i < list.len() && list[i] == s;
        assert(more[i] == s);
    }
    if s == last {
        assert(more[list.len() as int] == s);
    }
    if more.contains(s) && s != last {
        let i = choose|i: int| 0 <= i < more.len() && more[i] == s;
        assert(list[i] == s);
    }
}

/// Adding what is new keeps what was first, adds every text of the list, and repeats none.
pub proof fn law_with_new(first: Seq<Seq<char>>, list: Seq<Seq<char>>)
    ensures
        with_new(first, list).len() >= first.len(),
        with_new(first, list).take(first.len() as int) == first,
        forall|s: Seq<char>| #[trigger]
            with_new(first, list).contains(s) <==> first.contains(s) || list.contains(s),
        first.no_duplicates() ==> with_new(first, list).no_duplicates(),
    decreases list.len(),
{
    if list.len() == 0 {
        assert(first.take(first.len() as int) =~= first);
    } else {
        let rest = list.drop_last();
        law_with_new(first, rest);
        let before = with_new(first, rest);
        assert(list =~= rest.push(list.last()));
        assert(with_new(first, list).take(first.len() as int) =~= before.take(
            first.len() as int,
        ));
        assert forall|s: Seq<char>| #[trigger] with_new(first, list).contains(s)
            <==> first.contains(s) || list.contains(s) by {
            lemma_push_contains(rest, list.last(), s);
            lemma_push_contains(before, list.last(), s);
        }
        if first.no_duplicates() && !before.contains(list.last()) {
            let all = before.push(list.last());
            assert forall|i: int, j: int|
                0 <= i < all.len() && 0 <= j < all.len() && i != j implies all[i] != all[j] by {
                if i < before.len() {
                    assert(before.contains(before[i]));
                }
                if j < before.len() {
                    assert(before.contains(before[j]));
                }
            }
        }
    }
}

/// Whether a text is in a list.
pub(crate) fn contains_text(list: &Vec<String>, s: &str) -> (found: bool)
    ensures
        found == text_views(list@).contains(s@),
{
    let mut i: usize = 0;
    while i < list.len()
        invariant
            i <= list@.len(),
            forall|j: int| 0 <= j < i ==> text_views(list@)[j] != s@,
        decreases list@.len() - i,
    {
        assert(text_views(list@)[i as int] == list@[i as int]@);
        if same_text(list[i].as_str(), s) {
            return true;
        }
        i = i + 1;
    }
    false
}

/// Appends a text to a list unless it is there already.
pub(crate) fn push_new(list: &mut Vec<String>, s: String)
    ensures
        text_views(final(list)@) == with_new(text_views(old(list)@), seq![s@]),
{
    let ghost before = text_views(list@);
    proof {
        assert(seq![s@].drop_last() =~= Seq::<Seq<char>>::empty());
        assert(with_new(before, seq![s@].drop_last()) == before);
    }
    if !contains_text(list, s.as_str()) {
        list.push(s);
        assert(text_views(list@) =~= before.push(s@));
    }
}

/// Adding new texts one list after the other adds them as one list.
pub proof fn lemma_with_new_steps(
    first: Seq<Seq<char>>,
    list: Seq<Seq<char>>,
    last: Seq<char>,
)
    ensures
        with_new(with_new(first, list), seq![last]) == with_new(first, list.push(last)),
{
    assert(list.push(last).drop_last() =~= list);
    assert(seq![last].drop_last() =~= Seq::<Seq<char>>::empty());
    assert(with_new(with_new(first, list), seq![last].drop_last()) == with_new(first, list));
}

/// A list without empty texts stays as it is.
pub proof fn lemma_without_empty_all(list: Seq<Seq<char>>)
    requires
        forall|i: int| 0 <= i < list.len() ==> (#[trigger] list[i]).len() > 0,
    ensures
        without_empty(list) == list,
    decreases list.len(),
{
    if list.len() == 0 {
        assert(list =~= Seq::<Seq<char>>::empty());
    } else {
        let before = list.drop_last();
        assert(list.last() == list[list.len() - 1]);
        assert forall|i: int| 0 <= i < before.len() implies (#[trigger] before[i]).len() > 0 by {
            assert(before[i] == list[i]);
        }
        lemma_without_empty_all(before);
        assert(before.push(list.last()) =~= list);
    }
}

/// Adding new texts in two goes adds them as in one.
pub proof fn lemma_with_new_concat(
    first: Seq<Seq<char>>,
    a: Seq<Seq<char>>,
    b: Seq<Seq<char>>,
)
    ensures
        with_new(first, a + b) == with_new(with_new(first, a), b),
    decreases b.len(),
{
    if b.len() == 0 {
        assert(a + b =~= a);
    } else {
        lemma_with_new_concat(first, a, b.drop_last());
        assert((a + b).drop_last() =~= a + b.drop_last());
        assert((a + b).last() == b.last());
    }
}

/// A list without repetitions is all new.
pub proof fn lemma_with_new_distinct(list: Seq<Seq<char>>)
    requires
        list.no_duplicates(),
    ensures
        with_new(Seq::empty(), list) == list,
    decreases list.len(),
{
    if list.len() == 0 {
        assert(list =~= Seq::<Seq<char>>::empty());
    } else {
        let before = list.drop_last();
        assert forall|i: int, j: int|
            0 <= i < before.len() && 0 <= j < before.len() && i != j implies before[i]
            != before[j] by {
            assert(before[i] == list[i] && before[j] == list[j]);
        }
        lemma_with_new_distinct(before);
        if before.contains(list.last()) {
            let i = choose|i: int| 0 <= i < before.len() && before[i] == list.last();
            assert(list[i] == list[list.len() - 1]);
        }
        assert(before.push(list.last()) =~= list);
    }
}

/// Copies a list of texts.
pub(crate) fn copy_texts(list: &[String]) -> (out: Vec<String>)
    ensures
        text_views(out@) == text_views(list@),
{
    let mut out: Vec<String> = Vec::new();
    let mut i: usize = 0;
    while i < list.len()
        invariant
            i <= list@.len(),
            text_views(out@) =~= text_views(list@).take(i as int),
        decreases list@.len() - i,
    {
        let ghost before = text_views(out@);
        out.push(list[i].clone());
        assert(text_views(out@) =~= before.push(list@[i as int]@));
        assert(text_views(list@).take(i + 1) =~= text_views(list@).take(i as int).push(
            list@[i as int]@,
        ));
        i = i + 1;
    }
    assert(text_views(list@).take(i as int) =~= text_views(list@));
    out
}

/// The texts of a map.
pub open spec fn text_map(map: Map<u32, String>) -> Map<u32, Seq<char>> {
    map.map_values(|s: String| s@)
}

/// The views of lists, options and maps of texts: each text stays where it is.
pub proof fn law_views(
    list: Seq<String>,
    lines: Seq<Vec<char>>,
    option: Option<String>,
    map: Map<u32, String>,
)
    ensures
        text_views(list).len() == list.len(),
        forall|i: int| 0 <= i < list.len() ==> #[trigger] text_views(list)[i] == list[i]@,
        char_views(lines).len() == lines.len(),
        forall|i: int| 0 <= i < lines.len() ==> #[trigger] char_views(lines)[i] == lines[i]@,
        option is None <==> text_option(option) is None,
        option matches Some(s) ==> text_option(option) == Some(s@),
        text_map(map).dom() == map.dom(),
        forall|k: u32| map.contains_key(k) ==> #[trigger] text_map(map)[k] == map[k]@,
{
    assert(text_map(map).dom() =~= map.dom());
}

/// Decimal: a number below ten is one digit, and ten times a number and a digit more is the number
/// with that digit behind it.
pub proof fn law_decimal_digits(n: nat, d: nat)
    requires
        d < 10,
    ensures
        decimal(d).len() == 1,
        decimal(d)[0] as int == '0' as int + d,
        n > 0 ==> {
            &&& decimal(10 * n + d).len() == decimal(n).len() + 1
            &&& decimal(10 * n + d).drop_last() == decimal(n)
            &&& decimal(10 * n + d).last() as int == '0' as int + d
        },
        n > 0 ==> signed_decimal(-(n as int)) == seq!['-'] + decimal(n),
        signed_decimal(n as int) == decimal(n),
{
    if n > 0 {
        let m = 10 * n + d;
        assert(m / 10 == n && m % 10 == d);
        assert(decimal(m).drop_last() =~= decimal(n));
    }
}

/// Reading a number: each digit more makes the number ten times as large and adds the digit.
/// Anything but digits, nothing at all, and a number above the bound are no number; one plus sign
/// in front changes nothing.
pub proof fn law_number_read(s: Seq<char>, c: char, max: nat)
    ensures
        s.len() == 0 ==> parsed_number(s, max) is None,
        '0' <= c <= '9' ==> digits_value(seq![c]) == c as int - '0' as int,
        '0' <= c <= '9' && s.len() > 0 && (forall|i: int|
            0 <= i < s.len() ==> '0' <= #[trigger] s[i] <= '9') ==> {
            let v = 10 * digits_value(s) + (c as int - '0' as int);
            &&& digits_value(s.push(c)) == v
            &&& v <= max ==> parsed_number(s.push(c), max) == Some(v as nat)
            &&& v > max ==> parsed_number(s.push(c), max) is None
            &&& parsed_number(seq!['+'] + s.push(c), max) == parsed_number(s.push(c), max)
        },
        '0' <= c <= '9' && c as int - '0' as int <= max ==> parsed_number(seq![c], max) == Some(
            (c as int - '0' as int) as nat,
        ),
        (exists|i: int|
            1 <= i < s.len() && !('0' <= #[trigger] s[i] <= '9')) ==> parsed_number(s, max) is None,
        s.len() > 0 && s[0] != '+' && !('0' <= s[0] <= '9') ==> parsed_number(s, max) is None,
        s.len() == 1 && s[0] == '+' ==> parsed_number(s, max) is None,
{
    let one = seq![c];
    assert(one.drop_last() =~= Seq::<char>::empty());
    assert(digits_value(one.drop_last()) == 0);
    assert(one.last() == c);
    if '0' <= c <= '9' {
        assert forall|i: int| 0 <= i < one.len() implies is_digit(#[trigger] one[i]) by {}
        assert(all_digits(one));
        assert(without_plus(one) == one);
    }
    if '0' <= c <= '9' && s.len() > 0 && (forall|i: int|
        0 <= i < s.len() ==> '0' <= #[trigger] s[i] <= '9') {
        let more = s.push(c);
        assert(more.drop_last() =~= s);
        assert forall|i: int| 0 <= i < more.len() implies is_digit(#[trigger] more[i]) by {
            if i < s.len() {
                assert(more[i] == s[i]);
            }
        }
        assert(more[0] == s[0]);
        assert(without_plus(more) == more);
        assert((seq!['+'] + more).skip(1) =~= more);
    }
    if exists|i: int| 1 <= i < s.len() && !('0' <= #[trigger] s[i] <= '9') {
        let i = choose|i: int| 1 <= i < s.len() && !('0' <= #[trigger] s[i] <= '9');
        let body = without_plus(s);
        if s[0] == '+' {
            assert(body[i - 1] == s[i]);
            assert(!is_digit(body[i - 1]));
        } else {
            assert(!is_digit(body[i]));
        }
    }
    if s.len() > 0 && s[0] != '+' && !('0' <= s[0] <= '9') {
        assert(!is_digit(without_plus(s)[0]));
    }
}

proof fn lemma_trim_start_cut(s: Seq<char>) -> (a: int)
    ensures
        0 <= a <= s.len(),
        trim_start(s) == s.skip(a),
        forall|i: int| 0 <= i < a ==> is_white_space(#[trigger] s[i]),
        a < s.len() ==> !is_white_space(s[a]),
    decreases s.len(),
{
    if s.len() > 0 && is_white_space(s[0]) {
        let b = lemma_trim_start_cut(s.drop_first());
        assert(s.drop_first().skip(b) =~= s.skip(b + 1));
        assert forall|i: int| 0 <= i < b + 1 implies is_white_space(#[trigger] s[i]) by {
            if i > 0 {
                assert(s.drop_first()[i - 1] == s[i]);
            }
        }
        if b + 1 < s.len() {
            assert(s.drop_first()[b] == s[b + 1]);
        }
        b + 1
    } else {
        assert(s.skip(0) =~= s);
        0
    }
}

proof fn lemma_trim_end_cut(s: Seq<char>) -> (b: int)
    ensures
        0 <= b <= s.len(),
        trim_end(s) == s.take(b),
        forall|i: int| b <= i < s.len() ==> is_white_space(#[trigger] s[i]),
        b > 0 ==> !is_white_space(s[b - 1]),
    decreases s.len(),
{
    if s.len() > 0 && is_white_space(s.last()) {
        let b = lemma_trim_end_cut(s.drop_last());
        assert(s.drop_last().take(b) =~= s.take(b));
        assert forall|i: int| b <= i < s.len() implies is_white_space(#[trigger] s[i]) by {
            if i < s.len() - 1 {
                assert(s.drop_last()[i] == s[i]);
            }
        }
        if b > 0 {
            assert(s.drop_last()[b - 1] == s[b - 1]);
        }
        b
    } else {
        assert(s.take(s.len() as int) =~= s);
        s.len() as int
    }
}

/// Trimming cuts off white space, all of it, and nothing else: what is left stands in the text as
/// it was, with nothing but white space around it, and neither starts nor ends with any.
pub proof fn law_trim_cuts_white_space_only(s: Seq<char>)
    ensures
        exists|a: int, b: int|
            {
                &&& 0 <= a <= b <= s.len()
                &&& trim(s) == #[trigger] s.subrange(a, b)
                &&& forall|i: int| 0 <= i < a ==> is_white_space(#[trigger] s[i])
                &&& forall|i: int| b <= i < s.len() ==> is_white_space(#[trigger] s[i])
                &&& a < b ==> !is_white_space(s[a]) && !is_white_space(s[b - 1])
            },
{
    let a = lemma_trim_start_cut(s);
    let rest = s.skip(a);
    let n = lemma_trim_end_cut(rest);
    let b = a + n;
    assert(rest.take(n) =~= s.subrange(a, b));
    assert forall|i: int| b <= i < s.len() implies is_white_space(#[trigger] s[i]) by {
        assert(rest[i - a] == s[i]);
    }
    if a < b {
        assert(rest[n - 1] == s[b - 1]);
    }
    assert(trim(s) == s.subrange(a, b));
}

/// Splitting: a text without stops is one piece, and at each stop, wherever it stands, the pieces
/// before it end and those behind it begin.
pub proof fn law_pieces(a: Seq<char>, stop: char, b: Seq<char>, stops: Seq<char>)
    ensures
        (forall|i: int| 0 <= i < a.len() ==> !stops.contains(#[trigger] a[i])) ==> pieces(a, stops)
            == seq![a],
        stops.contains(stop) ==> pieces(a.push(stop) + b, stops) == pieces(a, stops) + pieces(
            b,
            stops,
        ),
    decreases a.len(),
{
    if forall|i: int| 0 <= i < a.len() ==> !stops.contains(#[trigger] a[i]) {
        lemma_pieces_unbroken(a, stops);
    }
    if stops.contains(stop) {
        lemma_span_bound(a, stops);
        let n = span(a, stops) as int;
        if n >= a.len() {
            assert(is_unbroken(a, stops));
            lemma_pieces_front(a, stop, b, stops);
        } else {
            let front = a.take(n);
            let rest = a.skip(n + 1);
            law_pieces(rest, stop, b, stops);
            assert(is_unbroken(front, stops));
            lemma_pieces_front(front, a[n], rest.push(stop) + b, stops);
            assert(a.push(stop) + b =~= front.push(a[n]) + (rest.push(stop) + b));
            assert(seq![front] + (pieces(rest, stops) + pieces(b, stops)) =~= (seq![front]
                + pieces(rest, stops)) + pieces(b, stops));
        }
    }
}

/// Joining: nothing gives nothing, one text gives itself, and each text more comes behind a
/// separator.
pub proof fn law_joined(list: Seq<Seq<char>>, separator: Seq<char>, more: Seq<char>)
    ensures
        joined(Seq::empty(), separator) == Seq::<char>::empty(),
        joined(seq![more], separator) == more,
        list.len() > 0 ==> joined(list.push(more), separator) == joined(list, separator) + separator
            + more,
{
    assert(list.push(more).drop_last() =~= list);
}

/// Lists: an empty text is left out and any other text is kept, in its place; a text that is there
/// already is left out and any other text is added at the end.
pub proof fn law_lists_grow_at_the_end(
    first: Seq<Seq<char>>,
    list: Seq<Seq<char>>,
    more: Seq<char>,
)
    ensures
        without_empty(Seq::empty()) == Seq::<Seq<char>>::empty(),
        more.len() == 0 ==> without_empty(list.push(more)) == without_empty(list),
        more.len() > 0 ==> without_empty(list.push(more)) == without_empty(list).push(more),
        with_new(first, Seq::empty()) == first,
        with_new(first, list).contains(more) ==> with_new(first, list.push(more)) == with_new(
            first,
            list,
        ),
        !with_new(first, list).contains(more) ==> with_new(first, list.push(more)) == with_new(
            first,
            list,
        ).push(more),
{
    assert(list.push(more).drop_last() =~= list);
}

} // verus!
