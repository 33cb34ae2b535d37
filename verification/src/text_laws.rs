//! How what is shown and what is typed fit together.

use vstd::prelude::*;

use crate::command::{
    i32_of, is_blank, is_digit, is_numeral, is_separator, number, numeral_value, trim_end,
    trim_start, trimmed, usize_of, words, ChoiceError,
};
use crate::step::WorldStep;
use crate::text::{digit_text, int_text, nat_text};
use crate::world_model::WorldView;

verus! {

/// A digit is shown as one character, which reads back as the digit.
proof fn lemma_digit(d: u64)
    requires
        d < 10,
    ensures
        digit_text(d).len() == 1,
        is_digit(digit_text(d)[0]),
        digit_text(d)[0] as int - '0' as int == d,
{
    reveal_strlit("0");
    reveal_strlit("1");
    reveal_strlit("2");
    reveal_strlit("3");
    reveal_strlit("4");
    reveal_strlit("5");
    reveal_strlit("6");
    reveal_strlit("7");
    reveal_strlit("8");
    reveal_strlit("9");
}

/// A natural number is shown in digits that read back as the number.
pub proof fn nat_text_reads_back(x: nat)
    ensures
        is_numeral(nat_text(x)),
        numeral_value(nat_text(x)) == x,
    decreases x,
{
    let s = nat_text(x);
    lemma_digit((x % 10) as u64);
    let d = digit_text((x % 10) as u64);
    if x < 10 {
        assert(s.drop_last() =~= Seq::<char>::empty());
        assert(numeral_value(s.drop_last()) == 0);
        assert(s.last() == s[0]);
    } else {
        nat_text_reads_back(x / 10);
        let front = nat_text(x / 10);
        assert(s.drop_last() =~= front);
        assert(s.last() == d[0]);
        assert forall|i: int| 0 <= i < s.len() implies is_digit(#[trigger] s[i]) by {
            if i < front.len() {
                assert(s[i] == front[i]);
            } else {
                assert(s[i] == d[0]);
            }
        }
    }
}

/// Every number that is shown reads back as itself.
pub proof fn int_text_reads_back(x: i32)
    ensures
        i32_of(int_text(x as int)) == Some(x),
{
    let s = int_text(x as int);
    if x < 0 {
        let digits = nat_text((-x) as nat);
        nat_text_reads_back((-x) as nat);
        reveal_strlit("-");
        assert(s.skip(1) =~= digits);
        assert(s[0] == '-');
        assert(number(s, true) == Some(-(-x as int)));
    } else {
        nat_text_reads_back(x as nat);
        assert(is_digit(s[0]));
        assert(number(s, true) == Some(x as int));
    }
}

/// The number under which a step is shown picks that step.
pub proof fn shown_number_picks(w: WorldView, cand_steps: Seq<WorldStep>, k: usize)
    requires
        k < cand_steps.len(),
    ensures
        w.pick_of(cand_steps, int_text(k as int)) == Ok::<Option<int>, ChoiceError>(Some(k as int)),
{
    let s = int_text(k as int);
    nat_text_reads_back(k as nat);
    assert(is_digit(s[0]));
    assert(is_digit(s.last()));
    assert(trim_start(s) == s);
    assert(trim_end(s) == s);
    assert(number(s, false) == Some(k as int));
    assert(usize_of(trimmed(s)) == Some(k));
}

/// A line that picks a step picks one of those listed.
pub proof fn picks_are_listed(w: WorldView, cand_steps: Seq<WorldStep>, line: Seq<char>)
    ensures
        w.pick_of(cand_steps, line) matches Ok(Some(k)) ==> 0 <= k < cand_steps.len(),
{
    if let Ok(Some(step)) = w.choice_of(line) {
        cand_steps.index_of_first_ensures(step);
    }
}

/// A step that is listed is picked by every line that is a command for it and no number.
pub proof fn commands_pick_their_step(
    w: WorldView,
    cand_steps: Seq<WorldStep>,
    line: Seq<char>,
    step: WorldStep,
)
    requires
        w.choice_of(line) == Ok::<Option<WorldStep>, ChoiceError>(Some(step)),
        usize_of(trimmed(line)) is None,
        cand_steps.contains(step),
    ensures
        w.pick_of(cand_steps, line) matches Ok(Some(k)) && 0 <= k < cand_steps.len()
            && cand_steps[k] == step,
{
    cand_steps.index_of_first_ensures(step);
}

/// A piece without separators is one word.
pub proof fn a_piece_is_a_word(piece: Seq<char>)
    requires
        piece.len() > 0,
        forall|i: int| 0 <= i < piece.len() ==> !is_separator(#[trigger] piece[i]),
    ensures
        words(piece) == seq![piece],
    decreases piece.len(),
{
    let front = piece.drop_last();
    assert(!is_separator(piece.last()));
    if front.len() > 0 {
        assert(front.last() == piece[front.len() - 1]);
        a_piece_is_a_word(front);
        assert(front.push(piece.last()) =~= piece);
        assert(words(piece) =~= seq![piece]);
    } else {
        assert(words(front) =~= Seq::<Seq<char>>::empty());
        assert(piece =~= seq![piece.last()]);
        assert(words(piece) =~= seq![piece]);
    }
}

/// A separator parts the words before it from the words behind it.
pub proof fn separators_part_words(before: Seq<char>, c: char, behind: Seq<char>)
    requires
        is_separator(c),
    ensures
        words(before.push(c) + behind) == words(before) + words(behind),
    decreases behind.len(),
{
    let line = before.push(c) + behind;
    if behind.len() == 0 {
        assert(line =~= before.push(c));
        assert(line.drop_last() =~= before);
        assert(words(line) =~= words(before) + words(behind));
    } else {
        let rest = behind.drop_last();
        separators_part_words(before, c, rest);
        assert(line.drop_last() =~= before.push(c) + rest);
        assert(line.last() == behind.last());
        if rest.len() == 0 {
            assert(line.drop_last().last() == c);
        } else {
            assert(line.drop_last().last() == rest.last());
            if !is_separator(rest.last()) {
                assert(words(rest).len() > 0);
            }
        }
        assert(words(line) =~= words(before) + words(behind));
    }
}

/// Words are not empty and hold no separators.
pub proof fn words_hold_no_separators(line: Seq<char>, i: int)
    requires
        0 <= i < words(line).len(),
    ensures
        words(line)[i].len() > 0,
        forall|j: int| 0 <= j < words(line)[i].len() ==> !is_separator(#[trigger] words(line)[i][j]),
    decreases line.len(),
{
    let front = line.drop_last();
    let c = line.last();
    let before = words(front);
    if is_separator(c) {
        words_hold_no_separators(front, i);
    } else if front.len() == 0 || is_separator(front.last()) {
        if i < before.len() {
            words_hold_no_separators(front, i);
            assert(words(line)[i] == before[i]);
        }
    } else {
        if i < before.len() - 1 {
            words_hold_no_separators(front, i);
            assert(words(line)[i] == before[i]);
        } else {
            if before.len() > 0 {
                words_hold_no_separators(front, before.len() - 1);
            }
            let word = words(line)[i];
            assert(word == before.last().push(c));
            assert(before.len() > 0);
            assert forall|j: int| 0 <= j < word.len() implies !is_separator(#[trigger] word[j]) by {
                if j < before.last().len() {
                    assert(word[j] == before[before.len() - 1][j]);
                }
            }
        }
    }
}

/// Trimming leaves no white space at either end.
pub proof fn trimmed_ends_are_not_blank(line: Seq<char>)
    ensures
        trimmed(line).len() > 0 ==> !is_blank(trimmed(line)[0]) && !is_blank(trimmed(line).last()),
{
    lemma_trim_start(line);
    lemma_trim_end(trim_start(line));
}

proof fn lemma_trim_start(s: Seq<char>)
    ensures
        trim_start(s).len() > 0 ==> !is_blank(trim_start(s)[0]),
    decreases s.len(),
{
    if s.len() > 0 && is_blank(s[0]) {
        lemma_trim_start(s.skip(1));
    }
}

proof fn lemma_trim_end(s: Seq<char>)
    ensures
        trim_end(s).len() > 0 ==> !is_blank(trim_end(s).last()) && trim_end(s)[0] == s[0],
    decreases s.len(),
{
    if s.len() > 0 && is_blank(s.last()) {
        lemma_trim_end(s.drop_last());
    }
}

} // verus!
