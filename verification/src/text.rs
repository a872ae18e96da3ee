//! Lexical structure shared by the text formats: characters, lines, tokens
//! and decimal numbers.
//!
//! A text is split into lines at every line feed. A line is split into
//! tokens, the maximal runs of characters that are not white space. A number
//! is an optional `+` followed by decimal digits.

use vstd::prelude::*;

verus! {

/// White space as Unicode defines it (the property `White_Space`).
pub open spec fn is_whitespace(c: char) -> bool {
    let n = c as u32;
    ||| 0x09 <= n <= 0x0D
    ||| n == 0x20
    ||| n == 0x85
    ||| n == 0xA0
    ||| n == 0x1680
    ||| 0x2000 <= n <= 0x200A
    ||| n == 0x2028
    ||| n == 0x2029
    ||| n == 0x202F
    ||| n == 0x205F
    ||| n == 0x3000
}

/// The line feed, which ends a line.
pub open spec fn line_feed() -> char {
    '\n'
}

/// The first position at or after `from` that holds `c`, or the length of `s`
/// where there is none.
pub open spec fn find_from(s: Seq<char>, c: char, from: int) -> int
    decreases s.len() - from,
{
    if from >= s.len() {
        s.len() as int
    } else if s[from] == c {
        from
    } else {
        find_from(s, c, from + 1)
    }
}

/// The lines of `s` that start at or after position `pos`, where a line starts at `pos`.
pub open spec fn lines_from(s: Seq<char>, pos: int) -> Seq<Seq<char>>
    decreases s.len() - pos,
{
    let end = find_from(s, line_feed(), pos);
    if pos > s.len() {
        Seq::empty()
    } else if end >= s.len() || end < pos {
        seq![s.subrange(pos, s.len() as int)]
    } else {
        seq![s.subrange(pos, end)] + lines_from(s, end + 1)
    }
}

/// The lines of a text: the pieces between its line feeds. A text without a
/// line feed is one line; a text that ends in a line feed has an empty last line.
pub open spec fn split_lines(s: Seq<char>) -> Seq<Seq<char>> {
    lines_from(s, 0)
}

/// The first position in `from .. to` that holds white space, or `to`.
pub open spec fn token_end(s: Seq<char>, from: int, to: int) -> int
    decreases to - from,
{
    if from >= to {
        to
    } else if is_whitespace(s[from]) {
        from
    } else {
        token_end(s, from + 1, to)
    }
}

/// The tokens of `s` between the positions `from` and `to`.
pub open spec fn tokens_in(s: Seq<char>, from: int, to: int) -> Seq<Seq<char>>
    decreases to - from,
{
    if from >= to {
        Seq::empty()
    } else if is_whitespace(s[from]) {
        tokens_in(s, from + 1, to)
    } else {
        let end = token_end(s, from, to);
        if end <= from || end > to {
            Seq::empty()
        } else {
            seq![s.subrange(from, end)] + tokens_in(s, end, to)
        }
    }
}

/// The tokens of a line: its maximal runs of characters that are not white space.
pub open spec fn tokens(line: Seq<char>) -> Seq<Seq<char>> {
    tokens_in(line, 0, line.len() as int)
}

/// Whether `c` is one of the digits `0` to `9`.
pub open spec fn is_digit(c: char) -> bool {
    0x30 <= c as u32 <= 0x39
}

/// Whether `s` holds digits only.
pub open spec fn all_digits(s: Seq<char>) -> bool {
    forall|i: int| 0 <= i < s.len() ==> is_digit(#[trigger] s[i])
}

/// The number that a sequence of decimal digits writes.
pub open spec fn decimal_value(digits: Seq<char>) -> nat
    decreases digits.len(),
{
    if digits.len() == 0 {
        0
    } else {
        10 * decimal_value(digits.drop_last()) + (digits.last() as u32 - 0x30) as nat
    }
}

/// The digits of a number token: the token without a leading `+`.
pub open spec fn digits_of(token: Seq<char>) -> Seq<char> {
    if token.len() > 0 && token[0] == '+' {
        token.skip(1)
    } else {
        token
    }
}

/// The number that a token writes: an optional `+`, then at least one decimal
/// digit and nothing else, with a value that fits 32 bits.
pub open spec fn parse_u32(token: Seq<char>) -> Option<u32> {
    let digits = digits_of(token);
    if digits.len() > 0 && all_digits(digits) && decimal_value(digits) <= u32::MAX {
        Some(decimal_value(digits) as u32)
    } else {
        None
    }
}

/// The position of the first token at or after `from` that writes no number,
/// or the number of tokens where all of them do.
pub open spec fn first_bad_number(words: Seq<Seq<char>>, from: int) -> int
    decreases words.len() - from,
{
    if from >= words.len() {
        words.len() as int
    } else if parse_u32(words[from]) is None {
        from
    } else {
        first_bad_number(words, from + 1)
    }
}

/// The numbers that tokens write.
pub open spec fn numbers_of(words: Seq<Seq<char>>) -> Seq<u32> {
    words.map_values(|w: Seq<char>| parse_u32(w).unwrap())
}

/// Whether `s` begins with `prefix`.
pub open spec fn starts_with(s: Seq<char>, prefix: Seq<char>) -> bool {
    prefix.len() <= s.len() && s.take(prefix.len() as int) == prefix
}

/// The piece of `text` that a range of positions covers.
pub open spec fn slice_of(text: Seq<char>, range: (usize, usize)) -> Seq<char> {
    text.subrange(range.0 as int, range.1 as int)
}

/// The pieces of `text` that the ranges cover, in the order of the ranges.
pub open spec fn slices(text: Seq<char>, ranges: Seq<(usize, usize)>) -> Seq<Seq<char>> {
    ranges.map_values(|r: (usize, usize)| slice_of(text, r))
}

/// Every range starts at or after `lo`, ends at or before `hi`, and is not reversed.
pub open spec fn ranges_within(ranges: Seq<(usize, usize)>, lo: int, hi: int) -> bool {
    forall|i: int|
        0 <= i < ranges.len() ==> lo <= (#[trigger] ranges[i]).0 <= ranges[i].1 <= hi
}

/// `find_from` gives the first place of `c` at or after `from`.
pub proof fn lemma_find_from_bounds(s: Seq<char>, c: char, from: int)
    requires
        0 <= from <= s.len(),
    ensures
        from <= find_from(s, c, from) <= s.len(),
        find_from(s, c, from) < s.len() ==> s[find_from(s, c, from)] == c,
        forall|i: int| from <= i < find_from(s, c, from) ==> s[i] != c,
    decreases s.len() - from,
{
    if from < s.len() && s[from] != c {
        lemma_find_from_bounds(s, c, from + 1);
    }
}

/// `token_end` gives the first white space in `from .. to`.
pub proof fn lemma_token_end_bounds(s: Seq<char>, from: int, to: int)
    requires
        0 <= from <= to <= s.len(),
    ensures
        from <= token_end(s, from, to) <= to,
        token_end(s, from, to) < to ==> is_whitespace(s[token_end(s, from, to)]),
        forall|i: int| from <= i < token_end(s, from, to) ==> !is_whitespace(s[i]),
    decreases to - from,
{
    if from < to && !is_whitespace(s[from]) {
        lemma_token_end_bounds(s, from + 1, to);
    }
}

/// A token is not empty and holds no white space.
pub proof fn lemma_tokens_hold_no_space(s: Seq<char>, from: int, to: int, k: int)
    requires
        0 <= from <= to <= s.len(),
        0 <= k < tokens_in(s, from, to).len(),
    ensures
        tokens_in(s, from, to)[k].len() > 0,
        forall|i: int|
            0 <= i < tokens_in(s, from, to)[k].len() ==> !is_whitespace(
                #[trigger] tokens_in(s, from, to)[k][i],
            ),
    decreases to - from,
{
    if from < to {
        if is_whitespace(s[from]) {
            lemma_tokens_hold_no_space(s, from + 1, to, k);
        } else {
            let end = token_end(s, from, to);
            lemma_token_end_bounds(s, from, to);
            if k > 0 {
                lemma_tokens_hold_no_space(s, end, to, k - 1);
            }
        }
    }
}

/// Tokens depend only on the characters between the two positions.
pub proof fn lemma_tokens_of_piece(s: Seq<char>, lo: int, hi: int, from: int, to: int)
    requires
        0 <= lo <= from <= to <= hi <= s.len(),
    ensures
        tokens_in(s, from, to) == tokens_in(s.subrange(lo, hi), from - lo, to - lo),
    decreases to - from,
{
    let piece = s.subrange(lo, hi);
    if from < to {
        assert(piece[from - lo] == s[from]);
        if is_whitespace(s[from]) {
            lemma_tokens_of_piece(s, lo, hi, from + 1, to);
        } else {
            lemma_token_end_of_piece(s, lo, hi, from, to);
            lemma_token_end_bounds(s, from, to);
            let end = token_end(s, from, to);
            lemma_tokens_of_piece(s, lo, hi, end, to);
            assert(s.subrange(from, end) == piece.subrange(from - lo, end - lo));
        }
    }
}

proof fn lemma_token_end_of_piece(s: Seq<char>, lo: int, hi: int, from: int, to: int)
    requires
        0 <= lo <= from <= to <= hi <= s.len(),
    ensures
        token_end(s, from, to) == token_end(s.subrange(lo, hi), from - lo, to - lo) + lo,
    decreases to - from,
{
    if from < to {
        assert(s.subrange(lo, hi)[from - lo] == s[from]);
        if !is_whitespace(s[from]) {
            lemma_token_end_of_piece(s, lo, hi, from + 1, to);
        }
    }
}

proof fn lemma_slices_push(text: Seq<char>, ranges: Seq<(usize, usize)>, r: (usize, usize))
    ensures
        slices(text, ranges.push(r)) == slices(text, ranges).push(slice_of(text, r)),
{
    assert(slices(text, ranges.push(r)) =~= slices(text, ranges).push(slice_of(text, r)));
}

/// A number does not get smaller when digits are written behind it.
pub proof fn lemma_decimal_value_grows(digits: Seq<char>, k: int)
    requires
        0 <= k <= digits.len(),
        all_digits(digits),
    ensures
        decimal_value(digits.take(k)) <= decimal_value(digits),
    decreases digits.len() - k,
{
    if k < digits.len() {
        lemma_decimal_value_grows(digits, k + 1);
        assert(digits.take(k + 1).drop_last() == digits.take(k));
    } else {
        assert(digits.take(k) == digits);
    }
}

/// Tokens that write numbers are passed over in the search for the first that writes none.
pub proof fn lemma_first_bad_number(words: Seq<Seq<char>>, from: int, upto: int)
    requires
        0 <= from <= upto <= words.len(),
        forall|i: int| from <= i < upto ==> parse_u32(#[trigger] words[i]) is Some,
    ensures
        first_bad_number(words, from) == first_bad_number(words, upto),
    decreases upto - from,
{
    if from < upto {
        lemma_first_bad_number(words, from + 1, upto);
    }
}

/// Whether `c` is white space.
pub fn is_space(c: char) -> (b: bool)
    ensures
        b == is_whitespace(c),
{
    let n: u32 = c as u32;
    (0x09 <= n && n <= 0x0D) || n == 0x20 || n == 0x85 || n == 0xA0 || n == 0x1680 || (0x2000 <= n
        && n <= 0x200A) || n == 0x2028 || n == 0x2029 || n == 0x202F || n == 0x205F || n == 0x3000
}

/// The characters of `s`.
pub fn chars_of(s: &str) -> (chars: Vec<char>)
    ensures
        chars@ == s@,
{
    let mut chars: Vec<char> = Vec::new();
    for c in it: s.chars()
        invariant
            chars@ == s@.take(it.index()),
            it.seq() == s@,
    {
        chars.push(c);
        assert(s@.take(it.index() + 1) == s@.take(it.index()).push(c));
    }
    assert(s@.take(s@.len() as int) == s@);
    chars
}

/// The first position in `from .. to` that holds `c`, or `to`.
pub fn find_char(chars: &Vec<char>, c: char, from: usize, to: usize) -> (at: usize)
    requires
        from <= to <= chars@.len(),
    ensures
        from <= at <= to,
        at < to ==> chars@[at as int] == c,
        forall|i: int| from <= i < at ==> chars@[i] != c,
{
    let mut at = from;
    while at < to && chars[at] != c
        invariant
            from <= at <= to <= chars@.len(),
            forall|i: int| from <= i < at ==> chars@[i] != c,
        decreases to - at,
    {
        at += 1;
    }
    at
}

/// The lines of a text, each as the range of positions that it covers.
pub fn line_ranges(chars: &Vec<char>) -> (ranges: Vec<(usize, usize)>)
    ensures
        ranges_within(ranges@, 0, chars@.len() as int),
        slices(chars@, ranges@) == split_lines(chars@),
        ranges@.len() > 0,
{
    let ghost text = chars@;
    let n = chars.len();
    let mut ranges: Vec<(usize, usize)> = Vec::new();
    let mut pos: usize = 0;
    let mut done = false;
    proof {
        assert(slices(text, ranges@) =~= Seq::empty());
        assert(Seq::<Seq<char>>::empty() + lines_from(text, 0) == lines_from(text, 0));
    }
    while !done
        invariant
            n == text.len(),
            text == chars@,
            pos <= n,
            ranges_within(ranges@, 0, n as int),
            done ==> ranges@.len() > 0 && slices(text, ranges@) == split_lines(text),
            !done ==> split_lines(text) == slices(text, ranges@) + lines_from(text, pos as int),
        decreases n - pos + (if done { 0int } else { 1int }),
    {
        let end = find_char(chars, '\n', pos, n);
        proof {
            lemma_find_from_bounds(text, line_feed(), pos as int);
            let spec_end = find_from(text, line_feed(), pos as int);
            if spec_end < end {
                assert(text[spec_end] != line_feed());
            }
            if end < spec_end {
                assert(text[end as int] != line_feed());
            }
            assert(spec_end == end);
            lemma_slices_push(text, ranges@, (pos, end));
        }
        let ghost before = slices(text, ranges@);
        ranges.push((pos, end));
        if end >= n {
            proof {
                assert(before + seq![text.subrange(pos as int, n as int)] == before.push(
                    text.subrange(pos as int, n as int),
                ));
            }
            done = true;
        } else {
            proof {
                assert(before + (seq![text.subrange(pos as int, end as int)] + lines_from(
                    text,
                    end + 1,
                )) == before.push(text.subrange(pos as int, end as int)) + lines_from(text, end + 1));
            }
            pos = end + 1;
        }
    }
    ranges
}

/// The tokens between the positions `start` and `end`, each as the range of
/// positions that it covers.
pub fn token_ranges(chars: &Vec<char>, start: usize, end: usize) -> (ranges: Vec<(usize, usize)>)
    requires
        start <= end <= chars@.len(),
    ensures
        ranges_within(ranges@, start as int, end as int),
        slices(chars@, ranges@) == tokens(chars@.subrange(start as int, end as int)),
{
    let ghost text = chars@;
    let mut ranges: Vec<(usize, usize)> = Vec::new();
    let mut pos: usize = start;
    proof {
        assert(slices(text, ranges@) =~= Seq::empty());
        assert(Seq::<Seq<char>>::empty() + tokens_in(text, start as int, end as int) == tokens_in(
            text,
            start as int,
            end as int,
        ));
    }
    while pos < end
        invariant
            text == chars@,
            start <= pos <= end <= text.len(),
            ranges_within(ranges@, start as int, end as int),
            tokens_in(text, start as int, end as int) == slices(text, ranges@) + tokens_in(
                text,
                pos as int,
                end as int,
            ),
        decreases end - pos,
    {
        if is_space(chars[pos]) {
            pos += 1;
        } else {
            let mut stop = pos + 1;
            while stop < end && !is_space(chars[stop])
                invariant
                    text == chars@,
                    pos < stop <= end <= text.len(),
                    forall|i: int| pos <= i < stop ==> !is_whitespace(text[i]),
                decreases end - stop,
            {
                stop += 1;
            }
            proof {
                lemma_token_end_bounds(text, pos as int, end as int);
                let spec_stop = token_end(text, pos as int, end as int);
                if spec_stop < stop {
                    assert(is_whitespace(text[spec_stop]));
                }
                if stop < spec_stop {
                    assert(!is_whitespace(text[stop as int]));
                }
                assert(spec_stop == stop);
                lemma_slices_push(text, ranges@, (pos, stop));
                let before = slices(text, ranges@);
                assert(before + (seq![text.subrange(pos as int, stop as int)] + tokens_in(
                    text,
                    stop as int,
                    end as int,
                )) == before.push(text.subrange(pos as int, stop as int)) + tokens_in(
                    text,
                    stop as int,
                    end as int,
                ));
            }
            ranges.push((pos, stop));
            pos = stop;
        }
    }
    proof {
        assert(slices(text, ranges@) + Seq::<Seq<char>>::empty() == slices(text, ranges@));
        lemma_tokens_of_piece(text, start as int, end as int, start as int, end as int);
    }
    ranges
}

/// Reads the number that the characters between `start` and `end` write.
pub fn parse_number(chars: &Vec<char>, start: usize, end: usize) -> (value: Option<u32>)
    requires
        start <= end <= chars@.len(),
    ensures
        value == parse_u32(chars@.subrange(start as int, end as int)),
{
    let ghost token = chars@.subrange(start as int, end as int);
    let first = if start < end && chars[start] == '+' {
        start + 1
    } else {
        start
    };
    let ghost digits = chars@.subrange(first as int, end as int);
    proof {
        assert(digits == digits_of(token));
    }
    if first == end {
        return None;
    }
    let mut acc: u64 = 0;
    let mut i = first;
    proof {
        assert(digits.take(0) == Seq::<char>::empty());
    }
    while i < end
        invariant
            first <= i <= end <= chars@.len(),
            digits == chars@.subrange(first as int, end as int),
            digits == digits_of(chars@.subrange(start as int, end as int)),
            all_digits(digits.take(i - first)),
            acc == decimal_value(digits.take(i - first)),
            acc <= u32::MAX,
        decreases end - i,
    {
        let n: u32 = chars[i] as u32;
        if n < 0x30 || n > 0x39 {
            proof {
                assert(!is_digit(digits[i - first]));
            }
            return None;
        }
        proof {
            assert(digits.take(i - first + 1).drop_last() == digits.take(i - first));
            assert forall|j: int| 0 <= j < i - first + 1 implies is_digit(
                #[trigger] digits.take(i - first + 1)[j],
            ) by {
                if j < i - first {
                    assert(digits.take(i - first)[j] == digits[j]);
                }
            }
        }
        acc = acc * 10 + (n - 0x30) as u64;
        if acc > 0xFFFF_FFFF {
            proof {
                if all_digits(digits) {
                    lemma_decimal_value_grows(digits, i - first + 1);
                }
            }
            return None;
        }
        i += 1;
    }
    proof {
        assert(digits.take(i - first) == digits);
    }
    Some(acc as u32)
}

/// Whether the characters between `start` and `end` begin with `prefix`.
pub fn has_prefix(chars: &Vec<char>, start: usize, end: usize, prefix: &str) -> (b: bool)
    requires
        start <= end <= chars@.len(),
    ensures
        b == starts_with(chars@.subrange(start as int, end as int), prefix@),
{
    let ghost piece = chars@.subrange(start as int, end as int);
    let wanted = chars_of(prefix);
    if wanted.len() > end - start {
        return false;
    }
    let mut i: usize = 0;
    while i < wanted.len()
        invariant
            i <= wanted@.len() <= end - start,
            start <= end <= chars@.len(),
            piece == chars@.subrange(start as int, end as int),
            wanted@ == prefix@,
            forall|j: int| 0 <= j < i ==> piece[j] == wanted@[j],
        decreases wanted@.len() - i,
    {
        if chars[start + i] != wanted[i] {
            proof {
                assert(piece.take(wanted@.len() as int)[i as int] != wanted@[i as int]);
            }
            return false;
        }
        i += 1;
    }
    proof {
        assert(piece.take(wanted@.len() as int) =~= wanted@);
    }
    true
}

/// Whether the characters between `start` and `end` are exactly `word`.
pub fn is_word(chars: &Vec<char>, start: usize, end: usize, word: &str) -> (b: bool)
    requires
        start <= end <= chars@.len(),
    ensures
        b == (chars@.subrange(start as int, end as int) == word@),
{
    let ghost piece = chars@.subrange(start as int, end as int);
    let same_start = has_prefix(chars, start, end, word);
    let wanted_len = word.unicode_len();
    proof {
        if same_start && wanted_len == end - start {
            assert(piece.take(piece.len() as int) == piece);
        }
        if piece == word@ {
            assert(piece.take(piece.len() as int) == piece);
        }
    }
    same_start && wanted_len == end - start
}

/// The characters of `input` between the positions `start` and `end`, as a string.
pub fn text_between(input: &str, start: usize, end: usize) -> (s: String)
    requires
        start <= end <= input@.len(),
    ensures
        s@ == input@.subrange(start as int, end as int),
{
    input.substring_char(start, end).to_owned()
}

} // verus!
