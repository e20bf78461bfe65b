//! The words of a line of text, and the numbers that they spell.

use std::num::ParseIntError;
use std::str::FromStr;
use vstd::prelude::*;
use vstd::string::*;

verus! {

/// The error that the standard library reports for text that spells no number.
#[verifier::external_type_specification]
#[verifier::external_body]
pub struct ExParseIntError(ParseIntError);

/// Whether `c` separates words: a space, a tab, a line feed, a form feed or a
/// carriage return.
pub open spec fn is_space(c: char) -> bool {
    c == ' ' || c == '\t' || c == '\n' || c == '\x0C' || c == '\r'
}

/// The first position at or after `from` that holds no separator; the length
/// of the line where only separators follow.
pub open spec fn word_start(line: Seq<char>, from: int) -> int
    decreases line.len() - from,
{
    if 0 <= from < line.len() && is_space(line[from]) {
        word_start(line, from + 1)
    } else {
        from
    }
}

/// The first position at or after `from` that holds a separator; the length of
/// the line where none follows.
pub open spec fn word_end(line: Seq<char>, from: int) -> int
    decreases line.len() - from,
{
    if 0 <= from < line.len() && !is_space(line[from]) {
        word_end(line, from + 1)
    } else {
        from
    }
}

/// Where the word with index `k` starts, counting the words of the line from 0;
/// the length of the line where it has too few words.
pub open spec fn nth_word_start(line: Seq<char>, k: nat) -> int
    decreases k,
{
    if k == 0 {
        word_start(line, 0)
    } else {
        word_start(line, word_end(line, nth_word_start(line, (k - 1) as nat)))
    }
}

/// The word with index `k`: a longest run of characters that are no
/// separators. `None` where the line has `k` words or fewer.
pub open spec fn nth_word(line: Seq<char>, k: nat) -> Option<Seq<char>> {
    let start = nth_word_start(line, k);
    if 0 <= start < line.len() {
        Some(line.subrange(start, word_end(line, start)))
    } else {
        None
    }
}

/// Whether `c` is one of the ten decimal digits.
pub open spec fn is_digit(c: char) -> bool {
    '0' as u32 <= c as u32 <= '9' as u32
}

/// The number that a run of decimal digits spells; 0 for the empty run.
pub open spec fn digits_value(digits: Seq<char>) -> nat
    decreases digits.len(),
{
    if digits.len() == 0 {
        0
    } else {
        (digits_value(digits.drop_last()) * 10 + (digits.last() as u32 - '0' as u32)) as nat
    }
}

/// What is left of a word once one leading plus sign is taken off.
pub open spec fn without_sign(word: Seq<char>) -> Seq<char> {
    if word.len() > 0 && word[0] == '+' {
        word.drop_first()
    } else {
        word
    }
}

/// The number that a word spells: an optional plus sign, then one decimal digit
/// or more, and nothing else. `None` for any other word.
pub open spec fn decimal(word: Seq<char>) -> Option<nat> {
    let digits = without_sign(word);
    if digits.len() > 0 && (forall|i: int| 0 <= i < digits.len() ==> is_digit(#[trigger] digits[i])) {
        Some(digits_value(digits))
    } else {
        None
    }
}

/// The number that a word spells, where a `usize` can hold it.
pub open spec fn decimal_usize(word: Seq<char>) -> Option<usize> {
    match decimal(word) {
        Some(n) => if n <= usize::MAX {
            Some(n as usize)
        } else {
            None
        },
        None => None,
    }
}

/// The error that `usize::from_str` reports for a word that spells no `usize`.
pub uninterp spec fn parse_failure(word: Seq<char>) -> ParseIntError;

/// Calls `usize::from_str`. The contract claims what its documentation says: it
/// accepts an optional plus sign followed by decimal digits only, at least one,
/// and gives their value where that fits the type; for every other word it
/// fails, with an error that depends on the word alone.
#[verifier::external_body]
pub(crate) fn parse_usize(word: &str) -> (result: Result<usize, ParseIntError>)
    ensures
        match result {
            Ok(n) => decimal_usize(word@) == Some(n),
            Err(e) => decimal_usize(word@) is None && e == parse_failure(word@),
        },
{
    usize::from_str(word)
}

/// Whether `c` separates words.
pub fn is_separator(c: char) -> (result: bool)
    ensures
        result == is_space(c),
{
    c == ' ' || c == '\t' || c == '\n' || c == '\x0C' || c == '\r'
}

/// Walks over the separators that start at `from`.
pub fn skip_separators(line: &str, from: usize) -> (to: usize)
    requires
        from <= line@.len(),
    ensures
        to == word_start(line@, from as int),
        from <= to <= line@.len(),
        to < line@.len() ==> !is_space(line@[to as int]),
{
    let len = line.unicode_len();
    let mut at: usize = from;
    while at < len
        invariant
            from <= at <= len,
            len == line@.len(),
            word_start(line@, from as int) == word_start(line@, at as int),
        ensures
            from <= at <= len,
            at == word_start(line@, from as int),
            at < len ==> !is_space(line@[at as int]),
        decreases len - at,
    {
        if !is_separator(line.get_char(at)) {
            break ;
        }
        at += 1;
    }
    at
}

/// Walks over the word that starts at `from`.
pub fn skip_word(line: &str, from: usize) -> (to: usize)
    requires
        from <= line@.len(),
    ensures
        to == word_end(line@, from as int),
        from <= to <= line@.len(),
        to < line@.len() ==> is_space(line@[to as int]),
{
    let len = line.unicode_len();
    let mut at: usize = from;
    while at < len
        invariant
            from <= at <= len,
            len == line@.len(),
            word_end(line@, from as int) == word_end(line@, at as int),
        ensures
            from <= at <= len,
            at == word_end(line@, from as int),
            at < len ==> is_space(line@[at as int]),
        decreases len - at,
    {
        if is_separator(line.get_char(at)) {
            break ;
        }
        at += 1;
    }
    at
}

/// The bounds of the next word of a line.
#[derive(Clone, Copy, Debug)]
pub struct Word {
    /// Where the word starts.
    pub start: usize,
    /// Where the word ends: the position after its last character.
    pub end: usize,
}

/// Finds the word that follows the position `from`, where `from` is the start
/// of the line or the end of the word before.
pub fn next_word(line: &str, from: usize) -> (result: Option<Word>)
    requires
        from <= line@.len(),
    ensures
        match result {
            Some(word) => {
                &&& word.start == word_start(line@, from as int)
                &&& word.end == word_end(line@, word.start as int)
                &&& from <= word.start < word.end <= line@.len()
            },
            None => word_start(line@, from as int) == line@.len(),
        },
{
    let start = skip_separators(line, from);
    if start < line.unicode_len() {
        let end = skip_word(line, start);
        Some(Word { start, end })
    } else {
        None
    }
}

} // verus!
