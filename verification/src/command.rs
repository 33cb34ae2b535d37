//! Reading what the user typed: words and numbers.

use vstd::prelude::*;

verus! {

/// Why a choice could not be read.
#[derive(Debug, PartialEq, Eq, Clone, Copy, Structural)]
pub enum ChoiceError {
    /// The line holds no word.
    NoCommand,
    /// The first word is not a command.
    UnknownCommand,
    /// The command needs one more word.
    MissingArgument,
    /// A word that should be a number is none, or is out of range.
    BadNumber,
    /// No message is in flight at the given position.
    NoSuchMessage,
}

/// The characters that separate words.
pub open spec fn is_separator(c: char) -> bool {
    c == ' ' || c == '\t' || c == '\n' || c == '\u{c}' || c == '\r'
}

/// The characters that count as white space around a number.
pub open spec fn is_blank(c: char) -> bool {
    ||| '\u{9}' <= c <= '\u{d}'
    ||| c == ' '
    ||| c == '\u{85}'
    ||| c == '\u{a0}'
    ||| c == '\u{1680}'
    ||| '\u{2000}' <= c <= '\u{200a}'
    ||| c == '\u{2028}'
    ||| c == '\u{2029}'
    ||| c == '\u{202f}'
    ||| c == '\u{205f}'
    ||| c == '\u{3000}'
}

/// The words of a line: its longest pieces without separators.
pub open spec fn words(s: Seq<char>) -> Seq<Seq<char>>
    decreases s.len(),
{
    if s.len() == 0 {
        Seq::empty()
    } else {
        let front = s.drop_last();
        if is_separator(s.last()) {
            words(front)
        } else if front.len() == 0 || is_separator(front.last()) {
            words(front).push(seq![s.last()])
        } else {
            words(front).drop_last().push(words(front).last().push(s.last()))
        }
    }
}

/// The line without the white space that it starts with.
pub open spec fn trim_start(s: Seq<char>) -> Seq<char>
    decreases s.len(),
{
    if s.len() > 0 && is_blank(s[0]) {
        trim_start(s.skip(1))
    } else {
        s
    }
}

/// The line without the white space that it ends with.
pub open spec fn trim_end(s: Seq<char>) -> Seq<char>
    decreases s.len(),
{
    if s.len() > 0 && is_blank(s.last()) {
        trim_end(s.drop_last())
    } else {
        s
    }
}

/// The line without white space around it.
pub open spec fn trimmed(s: Seq<char>) -> Seq<char> {
    trim_end(trim_start(s))
}

pub open spec fn is_digit(c: char) -> bool {
    '0' <= c <= '9'
}

/// One or more decimal digits.
pub open spec fn is_numeral(s: Seq<char>) -> bool {
    s.len() > 0 && forall|i: int| 0 <= i < s.len() ==> is_digit(#[trigger] s[i])
}

/// The number that decimal digits stand for.
pub open spec fn numeral_value(s: Seq<char>) -> int
    decreases s.len(),
{
    if s.len() == 0 {
        0
    } else {
        numeral_value(s.drop_last()) * 10 + (s.last() as int - '0' as int)
    }
}

/// The number that digits with an optional sign stand for; `signed` allows a minus.
pub open spec fn number(s: Seq<char>, signed: bool) -> Option<int> {
    if signed && s.len() > 0 && s[0] == '-' {
        if is_numeral(s.skip(1)) {
            Some(-numeral_value(s.skip(1)))
        } else {
            None
        }
    } else {
        let digits = if s.len() > 0 && s[0] == '+' {
            s.skip(1)
        } else {
            s
        };
        if is_numeral(digits) {
            Some(numeral_value(digits))
        } else {
            None
        }
    }
}

/// The `i32` that a word stands for.
pub open spec fn i32_of(s: Seq<char>) -> Option<i32> {
    match number(s, true) {
        Some(x) => if i32::MIN <= x <= i32::MAX {
            Some(x as i32)
        } else {
            None
        },
        None => None,
    }
}

/// The `usize` that a word stands for.
pub open spec fn usize_of(s: Seq<char>) -> Option<usize> {
    match number(s, false) {
        Some(x) => if x <= usize::MAX {
            Some(x as usize)
        } else {
            None
        },
        None => None,
    }
}

/// The word at position `k`, read as a number.
pub open spec fn argument(words: Seq<Seq<char>>, k: int) -> Result<i32, ChoiceError> {
    if k >= words.len() {
        Err(ChoiceError::MissingArgument)
    } else {
        match i32_of(words[k]) {
            Some(x) => Ok(x),
            None => Err(ChoiceError::BadNumber),
        }
    }
}

/// The characters of a string.
pub fn chars_of(s: &str) -> (v: Vec<char>)
    ensures
        v@ == s@,
{
    let mut v: Vec<char> = Vec::new();
    for c in it: s.chars()
        invariant
            v@ == it.seq().take(it.index()),
            it.seq() == s@,
    {
        v.push(c);
        assert(it.seq().take(it.index() + 1) =~= it.seq().take(it.index()).push(c));
    }
    assert(s@.take(s@.len() as int) =~= s@);
    v
}

/// The views of a sequence of words.
pub open spec fn word_views(words: Seq<Vec<char>>) -> Seq<Seq<char>> {
    Seq::new(words.len(), |i: int| words[i]@)
}

/// Splits a line into its words.
pub fn split_words(line: &Vec<char>) -> (result: Vec<Vec<char>>)
    ensures
        word_views(result@) == words(line@),
{
    let mut result: Vec<Vec<char>> = Vec::new();
    let mut i: usize = 0;
    assert(word_views(result@) =~= words(line@.take(0)));
    while i < line.len()
        invariant
            i <= line@.len(),
            word_views(result@) == words(line@.take(i as int)),
        decreases line@.len() - i,
    {
        let c: char = line[i];
        let ghost front = line@.take(i as int);
        let ghost before = word_views(result@);
        assert(line@.take(i + 1).drop_last() =~= front);
        assert(line@.take(i + 1).last() == c);
        if !separates(c) {
            if i == 0 || separates(line[i - 1]) {
                let mut word: Vec<char> = Vec::new();
                word.push(c);
                assert(word@ =~= seq![c]);
                result.push(word);
                assert(word_views(result@) =~= before.push(seq![c]));
            } else {
                assert(words(front).len() > 0);
                let mut word: Vec<char> = result.pop().unwrap();
                word.push(c);
                result.push(word);
                assert(word_views(result@) =~= before.drop_last().push(before.last().push(c)));
            }
        }
        i = i + 1;
    }
    assert(line@.take(line@.len() as int) =~= line@);
    result
}

fn separates(c: char) -> (b: bool)
    ensures
        b == is_separator(c),
{
    c == ' ' || c == '\t' || c == '\n' || c == '\u{c}' || c == '\r'
}

/// Whether a character counts as white space around a number.
pub fn blank(c: char) -> (b: bool)
    ensures
        b == is_blank(c),
{
    ('\u{9}' <= c && c <= '\u{d}') || c == ' ' || c == '\u{85}' || c == '\u{a0}' || c == '\u{1680}'
        || ('\u{2000}' <= c && c <= '\u{200a}') || c == '\u{2028}' || c == '\u{2029}' || c
        == '\u{202f}' || c == '\u{205f}' || c == '\u{3000}'
}

/// Removes the white space around a line.
pub fn trim(line: &Vec<char>) -> (result: Vec<char>)
    ensures
        result@ == trimmed(line@),
{
    let len = line.len();
    let mut lo: usize = 0;
    assert(line@.skip(0) =~= line@);
    while lo < len && blank(line[lo])
        invariant
            lo <= len,
            len == line@.len(),
            trim_start(line@) == trim_start(line@.skip(lo as int)),
        decreases len - lo,
    {
        assert(line@.skip(lo as int).skip(1) =~= line@.skip(lo + 1));
        lo = lo + 1;
    }
    let ghost rest = line@.skip(lo as int);
    assert(trim_start(line@) == rest);
    let mut hi: usize = len;
    assert(line@.subrange(lo as int, hi as int) =~= rest);
    while hi > lo && blank(line[hi - 1])
        invariant
            lo <= hi <= len,
            len == line@.len(),
            trim_end(rest) == trim_end(line@.subrange(lo as int, hi as int)),
        decreases hi,
    {
        assert(line@.subrange(lo as int, hi as int).drop_last() =~= line@.subrange(
            lo as int,
            hi - 1,
        ));
        hi = hi - 1;
    }
    assert(trim_end(rest) == line@.subrange(lo as int, hi as int));
    copy_range(line, lo, hi)
}

/// The characters from position `lo` up to `hi`.
fn copy_range(line: &Vec<char>, lo: usize, hi: usize) -> (result: Vec<char>)
    requires
        lo <= hi <= line@.len(),
    ensures
        result@ == line@.subrange(lo as int, hi as int),
{
    let mut result: Vec<char> = Vec::new();
    let mut i: usize = lo;
    while i < hi
        invariant
            lo <= i <= hi <= line@.len(),
            result@ == line@.subrange(lo as int, i as int),
        decreases hi - i,
    {
        result.push(line[i]);
        assert(line@.subrange(lo as int, i + 1) =~= line@.subrange(lo as int, i as int).push(
            line@[i as int],
        ));
        i = i + 1;
    }
    result
}

/// Digits added on the right never make the number smaller.
proof fn lemma_numeral_grows(s: Seq<char>, k: int)
    requires
        0 <= k <= s.len(),
        forall|i: int| 0 <= i < s.len() ==> is_digit(#[trigger] s[i]),
    ensures
        0 <= numeral_value(s.take(k)) <= numeral_value(s),
    decreases s.len(),
{
    if k == s.len() {
        assert(s.take(k) =~= s);
        if s.len() > 0 {
            lemma_numeral_grows(s.drop_last(), k - 1);
            assert(s.drop_last().take(k - 1) =~= s.drop_last());
            assert(is_digit(s.last()));
        }
    } else {
        lemma_numeral_grows(s.drop_last(), k);
        assert(s.drop_last().take(k) =~= s.take(k));
        assert(is_digit(s.last()));
    }
}

/// Reads the decimal digits from position `from` on, as a number up to `max`.
fn read_numeral(word: &Vec<char>, from: usize, max: u64) -> (result: Option<u64>)
    requires
        from <= word@.len(),
    ensures
        match result {
            Some(x) => is_numeral(word@.skip(from as int)) && x == numeral_value(
                word@.skip(from as int),
            ) && x <= max,
            None => !(is_numeral(word@.skip(from as int)) && numeral_value(word@.skip(from as int))
                <= max),
        },
{
    let ghost digits = word@.skip(from as int);
    if from == word.len() {
        return None;
    }
    let mut value: u64 = 0;
    let mut i: usize = from;
    assert(digits.take(0) =~= Seq::<char>::empty());
    while i < word.len()
        invariant
            digits == word@.skip(from as int),
            from <= i <= word@.len(),
            value <= max,
            value == numeral_value(digits.take(i - from)),
            forall|j: int| 0 <= j < i - from ==> is_digit(#[trigger] digits[j]),
        decreases word@.len() - i,
    {
        let c: char = word[i];
        assert(digits[i - from] == c);
        if !('0' <= c && c <= '9') {
            assert(!is_digit(digits[i - from]));
            return None;
        }
        let next: u128 = value as u128 * 10 + (c as u32 - '0' as u32) as u128;
        assert(digits.take(i - from + 1).drop_last() =~= digits.take(i - from));
        assert(next == numeral_value(digits.take(i - from + 1)));
        if next > max as u128 {
            proof {
                if is_numeral(digits) {
                    lemma_numeral_grows(digits, i - from + 1);
                }
            }
            return None;
        }
        value = next as u64;
        i = i + 1;
    }
    assert(digits.take(i - from) =~= digits);
    Some(value)
}

/// Reads a word as an `i32`.
pub fn parse_i32(word: &Vec<char>) -> (result: Option<i32>)
    ensures
        result == i32_of(word@),
{
    if word.len() > 0 && word[0] == '-' {
        match read_numeral(word, 1, 2147483648) {
            Some(x) => Some((0 - x as i64) as i32),
            None => None,
        }
    } else {
        let from: usize = if word.len() > 0 && word[0] == '+' {
            1
        } else {
            0
        };
        assert(word@.skip(0) =~= word@);
        match read_numeral(word, from, 2147483647) {
            Some(x) => Some(x as i32),
            None => None,
        }
    }
}

/// Reads a word as a `usize`.
pub fn parse_usize(word: &Vec<char>) -> (result: Option<usize>)
    ensures
        result == usize_of(word@),
{
    let from: usize = if word.len() > 0 && word[0] == '+' {
        1
    } else {
        0
    };
    assert(word@.skip(0) =~= word@);
    match read_numeral(word, from, usize::MAX as u64) {
        Some(x) => Some(x as usize),
        None => None,
    }
}

/// Whether the word is the given one.
pub fn is_word(word: &Vec<char>, other: &str) -> (b: bool)
    ensures
        b == (word@ == other@),
{
    let chars = chars_of(other);
    if word.len() != chars.len() {
        return false;
    }
    let mut i: usize = 0;
    while i < word.len()
        invariant
            i <= word@.len(),
            word@.len() == chars@.len(),
            chars@ == other@,
            forall|j: int| 0 <= j < i ==> word@[j] == chars@[j],
        decreases word@.len() - i,
    {
        if word[i] != chars[i] {
            return false;
        }
        i = i + 1;
    }
    assert(word@ =~= other@);
    true
}

/// Reads the word at position `k` as a number.
pub fn read_argument(words: &Vec<Vec<char>>, k: usize) -> (result: Result<i32, ChoiceError>)
    ensures
        result == argument(word_views(words@), k as int),
{
    if k >= words.len() {
        return Err(ChoiceError::MissingArgument);
    }
    match parse_i32(&words[k]) {
        Some(x) => Ok(x),
        None => Err(ChoiceError::BadNumber),
    }
}

} // verus!
