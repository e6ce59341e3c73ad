//! Lines, words and decimal numbers in text.

use vstd::prelude::*;

verus! {

/// `String::push`. Claims that it appends the character.
pub assume_specification[ String::push ](s: &mut String, c: char)
    ensures
        final(s)@ == old(s)@.push(c),
;

/// Whether a character is Unicode white space.
pub open spec fn is_space_model(c: char) -> bool {
    let code = c as u32;
    ||| 0x09 <= code <= 0x0d
    ||| code == 0x20
    ||| code == 0x85
    ||| code == 0xa0
    ||| code == 0x1680
    ||| 0x2000 <= code <= 0x200a
    ||| code == 0x2028
    ||| code == 0x2029
    ||| code == 0x202f
    ||| code == 0x205f
    ||| code == 0x3000
}

/// The pieces of a text between separators.
pub open spec fn pieces_of(text: Seq<char>, separator: char) -> Seq<Seq<char>>
    decreases text.len(),
{
    if text.len() == 0 {
        seq![Seq::empty()]
    } else {
        let rest = pieces_of(text.drop_last(), separator);
        if text.last() == separator {
            rest.push(Seq::empty())
        } else {
            rest.drop_last().push(rest.last().push(text.last()))
        }
    }
}

/// The lines of a text, without the line feeds between them.
pub open spec fn lines_of(text: Seq<char>) -> Seq<Seq<char>> {
    pieces_of(text, '\n')
}

/// The words of a line: its longest stretches without white space.
pub open spec fn words_of(line: Seq<char>) -> Seq<Seq<char>>
    decreases line.len(),
{
    if line.len() == 0 {
        Seq::empty()
    } else {
        let rest = words_of(line.drop_last());
        if is_space_model(line.last()) {
            rest
        } else if line.len() == 1 || is_space_model(line[line.len() - 2]) {
            rest.push(seq![line.last()])
        } else {
            rest.drop_last().push(rest.last().push(line.last()))
        }
    }
}

/// The value of a decimal digit.
pub open spec fn digit_value(c: char) -> nat {
    (c as u32 - '0' as u32) as nat
}

/// Whether a character is a decimal digit.
pub open spec fn is_digit_model(c: char) -> bool {
    '0' as u32 <= c as u32 <= '9' as u32
}

/// The number that decimal digits make.
pub open spec fn decimal_value(digits: Seq<char>) -> nat
    decreases digits.len(),
{
    if digits.len() == 0 {
        0
    } else {
        decimal_value(digits.drop_last()) * 10 + digit_value(digits.last())
    }
}

/// The digits of a number: all of it but for a plus sign in front.
pub open spec fn unsigned_part(word: Seq<char>) -> Seq<char> {
    if word.len() > 0 && word[0] == '+' {
        word.skip(1)
    } else {
        word
    }
}

/// The number that a word writes in decimal, if it does and the number is no
/// larger than `max`.
pub open spec fn decimal_model(word: Seq<char>, max: nat) -> Option<nat> {
    let digits = unsigned_part(word);
    if digits.len() > 0 && (forall|i: int|
        0 <= i < digits.len() ==> is_digit_model(#[trigger] digits[i])) && decimal_value(digits)
        <= max {
        Some(decimal_value(digits))
    } else {
        None
    }
}

/// Strings as character sequences.
pub open spec fn string_views(strings: Seq<String>) -> Seq<Seq<char>> {
    Seq::new(strings.len(), |i: int| strings[i]@)
}

/// A text without separators is one piece.
pub proof fn lemma_one_piece(text: Seq<char>, separator: char)
    requires
        !text.contains(separator),
    ensures
        pieces_of(text, separator) == seq![text],
    decreases text.len(),
{
    if text.len() == 0 {
        assert(text =~= Seq::empty());
    } else {
        assert(text.last() == text[text.len() - 1]);
        assert forall|i: int| 0 <= i < text.len() - 1 implies text.drop_last()[i] != separator by {
            assert(text[i] != separator);
        }
        lemma_one_piece(text.drop_last(), separator);
        assert(text.drop_last().push(text.last()) =~= text);
        assert(pieces_of(text, separator) =~= seq![text]);
    }
}

/// A text has at least one piece, and begins with the first.
pub proof fn lemma_first_piece(text: Seq<char>, separator: char)
    ensures
        pieces_of(text, separator).len() >= 1,
        pieces_of(text, separator)[0].len() <= text.len(),
        text.take(pieces_of(text, separator)[0].len() as int) == pieces_of(text, separator)[0],
        !pieces_of(text, separator)[0].contains(separator),
        pieces_of(text, separator).len() == 1 ==> pieces_of(text, separator)[0] == text,
    decreases text.len(),
{
    let all = pieces_of(text, separator);
    if text.len() == 0 {
        assert(text =~= Seq::empty());
        assert(text.take(0) =~= all[0]);
    } else {
        let rest = text.drop_last();
        lemma_first_piece(rest, separator);
        let before = pieces_of(rest, separator);
        if text.last() != separator && before.len() == 1 {
            assert(all[0] == before[0].push(text.last()));
            assert(before[0] == rest);
            assert(all[0] =~= text);
            assert(text.take(text.len() as int) =~= text);
            assert forall|i: int| 0 <= i < all[0].len() implies all[0][i] != separator by {
                if i < rest.len() {
                    assert(before[0][i] == all[0][i]);
                }
            }
        } else {
            assert(all[0] == before[0]);
            assert(text.take(all[0].len() as int) =~= rest.take(all[0].len() as int));
        }
    }
}

/// A line that ends in a word has words, and none of them is empty.
pub proof fn lemma_words(line: Seq<char>)
    ensures
        line.len() > 0 && !is_space_model(line.last()) ==> words_of(line).len() > 0,
        forall|i: int| 0 <= i < words_of(line).len() ==> (#[trigger] words_of(line)[i]).len() > 0,
    decreases line.len(),
{
    if line.len() > 0 {
        lemma_words(line.drop_last());
        let rest = words_of(line.drop_last());
        if !is_space_model(line.last()) && line.len() > 1 && !is_space_model(
            line[line.len() - 2],
        ) {
            assert(line.drop_last().last() == line[line.len() - 2]);
            assert(rest.len() > 0);
        }
    }
}

/// A larger number of digits makes no smaller number.
proof fn lemma_decimal_grows(digits: Seq<char>, n: int)
    requires
        0 <= n <= digits.len(),
        forall|i: int| 0 <= i < digits.len() ==> is_digit_model(#[trigger] digits[i]),
    ensures
        decimal_value(digits.take(n)) <= decimal_value(digits),
    decreases digits.len() - n,
{
    if n == digits.len() {
        assert(digits.take(n) =~= digits);
    } else {
        lemma_decimal_grows(digits, n + 1);
        assert(digits.take(n + 1).drop_last() =~= digits.take(n));
        assert(digits.take(n + 1).last() == digits[n]);
    }
}

/// Whether a character is Unicode white space.
pub fn is_space(c: char) -> (yes: bool)
    ensures
        yes == is_space_model(c),
{
    let code: u32 = c as u32;
    (0x09 <= code && code <= 0x0d) || code == 0x20 || code == 0x85 || code == 0xa0 || code == 0x1680
        || (0x2000 <= code && code <= 0x200a) || code == 0x2028 || code == 0x2029 || code == 0x202f
        || code == 0x205f || code == 0x3000
}

/// The characters of a string.
pub fn chars_of(text: &str) -> (chars: Vec<char>)
    ensures
        chars@ == text@,
{
    let mut chars: Vec<char> = Vec::new();
    for c in it: text.chars()
        invariant
            it.seq() == text@,
            chars@ == it.seq().take(it.index() as int),
            it.index() == it.seq().len() ==> chars@ =~= it.seq(),
    {
        chars.push(c);
    }
    chars
}

/// The pieces of a text between separators.
pub fn split_pieces(text: &Vec<char>, separator: char) -> (pieces: Vec<Vec<char>>)
    ensures
        pieces@.len() == pieces_of(text@, separator).len(),
        forall|i: int|
            0 <= i < pieces@.len() ==> (#[trigger] pieces@[i])@ == pieces_of(text@, separator)[i],
{
    let mut pieces: Vec<Vec<char>> = Vec::new();
    let mut piece: Vec<char> = Vec::new();
    let mut i: usize = 0;
    assert(text@.take(0) =~= Seq::<char>::empty());
    while i < text.len()
        invariant
            i <= text@.len(),
            pieces@.len() + 1 == pieces_of(text@.take(i as int), separator).len(),
            forall|j: int|
                0 <= j < pieces@.len() ==> (#[trigger] pieces@[j])@ == pieces_of(
                    text@.take(i as int),
                    separator,
                )[j],
            piece@ == pieces_of(text@.take(i as int), separator).last(),
        decreases text@.len() - i,
    {
        assert(text@.take(i + 1).drop_last() =~= text@.take(i as int));
        if text[i] == separator {
            pieces.push(piece);
            piece = Vec::new();
        } else {
            piece.push(text[i]);
        }
        i = i + 1;
    }
    assert(text@.take(i as int) =~= text@);
    pieces.push(piece);
    pieces
}

/// The words of a line: its longest stretches without white space.
pub fn split_words(line: &Vec<char>) -> (words: Vec<String>)
    ensures
        string_views(words@) == words_of(line@),
{
    let mut words: Vec<String> = Vec::new();
    let mut i: usize = 0;
    assert(line@.take(0) =~= Seq::<char>::empty());
    assert(string_views(words@) =~= words_of(line@.take(0)));
    while i < line.len()
        invariant
            i <= line@.len(),
            string_views(words@) == words_of(line@.take(i as int)),
        decreases line@.len() - i,
    {
        let ghost before = string_views(words@);
        assert(line@.take(i + 1).drop_last() =~= line@.take(i as int));
        let c: char = line[i];
        if !is_space(c) {
            if i == 0 || is_space(line[i - 1]) {
                let mut word: String = String::new();
                word.push(c);
                assert(word@ =~= seq![c]);
                words.push(word);
                assert(string_views(words@) =~= before.push(seq![c]));
            } else {
                proof {
                    lemma_words(line@.take(i as int));
                    assert(line@.take(i as int).last() == line@[i - 1]);
                    assert(words@.len() == before.len());
                }
                match words.pop() {
                    Some(mut word) => {
                        word.push(c);
                        words.push(word);
                    },
                    None => {},
                }
                assert(string_views(words@) =~= before.drop_last().push(before.last().push(c)));
            }
        }
        i = i + 1;
    }
    assert(line@.take(i as int) =~= line@);
    words
}

/// The number that a word writes in decimal, if it does and the number fits.
pub fn parse_decimal(word: &str) -> (value: Option<u64>)
    ensures
        match value {
            Some(v) => decimal_model(word@, u64::MAX as nat) == Some(v as nat),
            None => decimal_model(word@, u64::MAX as nat) is None,
        },
{
    let chars: Vec<char> = chars_of(word);
    let ghost digits = unsigned_part(word@);
    let start: usize = if chars.len() > 0 && chars[0] == '+' {
        1
    } else {
        0
    };
    assert(digits =~= chars@.skip(start as int));
    if chars.len() == start {
        return None;
    }
    let mut value: u64 = 0;
    let mut i: usize = start;
    assert(digits.take(0) =~= Seq::<char>::empty());
    while i < chars.len()
        invariant
            start <= i <= chars@.len(),
            digits == chars@.skip(start as int),
            digits == unsigned_part(word@),
            digits.len() > 0,
            value == decimal_value(digits.take(i - start)),
            forall|j: int| 0 <= j < i - start ==> is_digit_model(#[trigger] digits[j]),
        decreases chars@.len() - i,
    {
        let c: char = chars[i];
        assert(digits[i - start] == c);
        let code: u32 = c as u32;
        if code < '0' as u32 || code > '9' as u32 {
            return None;
        }
        let digit: u64 = (code - '0' as u32) as u64;
        proof {
            assert(digits.take(i - start + 1).drop_last() =~= digits.take(i - start));
            assert(digits.take(i - start + 1).last() == c);
        }
        if value > (u64::MAX - digit) / 10 {
            proof {
                assert(value * 10 + digit > u64::MAX);
                if forall|j: int| 0 <= j < digits.len() ==> is_digit_model(#[trigger] digits[j]) {
                    lemma_decimal_grows(digits, i - start + 1);
                }
            }
            return None;
        }
        value = value * 10 + digit;
        i = i + 1;
    }
    assert(digits.take(i - start) =~= digits);
    Some(value)
}

/// What pieces are: the pieces of a text before a separator, and behind them those of the
/// text after it; and a text without separators is one piece.
pub proof fn law_pieces_lie_between_separators(
    before: Seq<char>,
    separator: char,
    after: Seq<char>,
)
    ensures
        pieces_of(before.push(separator) + after, separator) == pieces_of(before, separator)
            + pieces_of(after, separator),
        !before.contains(separator) ==> pieces_of(before, separator) == seq![before],
    decreases after.len(),
{
    let whole = before.push(separator) + after;
    let first = pieces_of(before, separator);
    if !before.contains(separator) {
        lemma_one_piece(before, separator);
    }
    if after.len() == 0 {
        assert(whole =~= before.push(separator));
        assert(whole.drop_last() =~= before);
        assert(first.push(Seq::empty()) =~= first + seq![Seq::empty()]);
    } else {
        let rest = after.drop_last();
        law_pieces_lie_between_separators(before, separator, rest);
        lemma_first_piece(rest, separator);
        assert(whole.drop_last() =~= before.push(separator) + rest);
        assert(whole.last() == after.last());
        let had = pieces_of(rest, separator);
        if after.last() == separator {
            assert((first + had).push(Seq::empty()) =~= first + had.push(Seq::empty()));
        } else {
            let longer = had.last().push(after.last());
            assert((first + had).last() == had.last());
            assert((first + had).drop_last().push(longer) =~= first + had.drop_last().push(longer));
        }
    }
}

/// Lines lie between line feeds, and nothing else parts them.
pub proof fn law_lines_end_at_line_feeds(before: Seq<char>, after: Seq<char>)
    ensures
        lines_of(before.push('\n') + after) == lines_of(before) + lines_of(after),
        !before.contains('\n') ==> lines_of(before) == seq![before],
{
    law_pieces_lie_between_separators(before, '\n', after);
}

/// What words are: the words of a line before a white space, and behind them those of the
/// line after it; a stretch without white space is one word, and nothing has none.
pub proof fn law_words_lie_between_spaces(before: Seq<char>, space: char, after: Seq<char>)
    requires
        is_space_model(space),
    ensures
        words_of(before.push(space) + after) == words_of(before) + words_of(after),
        before.len() > 0 && (forall|i: int|
            0 <= i < before.len() ==> !is_space_model(#[trigger] before[i])) ==> words_of(before)
            == seq![before],
        words_of(Seq::empty()).len() == 0,
    decreases after.len(),
{
    let whole = before.push(space) + after;
    let first = words_of(before);
    if before.len() > 0 && forall|i: int|
        0 <= i < before.len() ==> !is_space_model(#[trigger] before[i]) {
        lemma_one_word(before);
    }
    if after.len() == 0 {
        assert(whole =~= before.push(space));
        assert(whole.drop_last() =~= before);
        assert(first + words_of(after) =~= first);
    } else {
        let rest = after.drop_last();
        law_words_lie_between_spaces(before, space, rest);
        assert(whole.drop_last() =~= before.push(space) + rest);
        assert(whole.last() == after.last());
        let had = words_of(rest);
        let c = after.last();
        if !is_space_model(c) {
            if after.len() == 1 {
                assert(whole[whole.len() - 2] == space);
                assert((first + had).push(seq![c]) =~= first + had.push(seq![c]));
            } else {
                assert(whole[whole.len() - 2] == after[after.len() - 2]);
                if is_space_model(after[after.len() - 2]) {
                    assert((first + had).push(seq![c]) =~= first + had.push(seq![c]));
                } else {
                    assert(rest.last() == after[after.len() - 2]);
                    lemma_words(rest);
                    let longer = had.last().push(c);
                    assert((first + had).last() == had.last());
                    assert((first + had).drop_last().push(longer) =~= first
                        + had.drop_last().push(longer));
                }
            }
        }
    }
}

/// A stretch without white space is one word.
proof fn lemma_one_word(word: Seq<char>)
    requires
        word.len() > 0,
        forall|i: int| 0 <= i < word.len() ==> !is_space_model(#[trigger] word[i]),
    ensures
        words_of(word) == seq![word],
    decreases word.len(),
{
    let rest = word.drop_last();
    assert(word.last() == word[word.len() - 1]);
    if word.len() == 1 {
        assert(words_of(rest) =~= Seq::<Seq<char>>::empty());
        assert(word =~= seq![word.last()]);
        assert(words_of(word) =~= seq![word]);
    } else {
        assert forall|i: int| 0 <= i < rest.len() implies !is_space_model(#[trigger] rest[i]) by {
            assert(rest[i] == word[i]);
        }
        lemma_one_word(rest);
        assert(rest.push(word.last()) =~= word);
        assert(words_of(word) =~= seq![word]);
    }
}

/// Below the characters of two bytes, white space is the blank, the tab, the line feed, the
/// vertical tab, the form feed and the carriage return; above, the next-line character, the
/// spaces of various widths, the line and paragraph separators, and no other.
pub proof fn law_white_space(c: char)
    ensures
        (c as u32) < 128 ==> (is_space_model(c) <==> c == ' ' || c == '\t' || c == '\n' || c
            == '\r' || c as u32 == 11 || c as u32 == 12),
        c as u32 >= 128 ==> (is_space_model(c) <==> c as u32 == 133 || c as u32 == 160 || c as u32
            == 5760 || 8192 <= c as u32 <= 8202 || c as u32 == 8232 || c as u32 == 8233 || c as u32
            == 8239 || c as u32 == 8287 || c as u32 == 12288),
{
}

/// What numbers are: each digit counts ten times the next. A word writes a number in
/// decimal if it has digits, and nothing else but a plus sign in front; the number must be
/// no larger than it may be.
pub proof fn law_numbers_are_decimal(word: Seq<char>, digits: Seq<char>, digit: char, max: nat)
    requires
        word == digits && !(word.len() > 0 && word[0] == '+') || word == seq!['+'] + digits,
    ensures
        decimal_value(Seq::empty()) == 0,
        48 <= digit as u32 <= 57 ==> decimal_value(digits.push(digit)) == 10 * decimal_value(
            digits,
        ) + (digit as u32 - 48),
        decimal_model(word, max) is Some <==> digits.len() > 0 && decimal_value(digits) <= max
            && forall|i: int| 0 <= i < digits.len() ==> 48 <= #[trigger] digits[i] as u32 <= 57,
        decimal_model(word, max) matches Some(n) ==> n == decimal_value(digits),
{
    assert(digits.push(digit).drop_last() =~= digits);
    assert(unsigned_part(word) =~= digits);
}

/// Strings are seen as they are.
pub proof fn law_strings_are_seen_as_they_are(strings: Seq<String>, i: int)
    ensures
        string_views(strings).len() == strings.len(),
        0 <= i < strings.len() ==> string_views(strings)[i] == strings[i]@,
{
}

} // verus!
