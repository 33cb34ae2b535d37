//! What typed lines mean: words, numbers and commands.

use vstd::prelude::*;

use crate::command::{
    argument, i32_of, is_blank, is_digit, is_numeral, is_separator, number, numeral_value,
    trim_end, trim_start, trimmed, usize_of, word_views, words, ChoiceError,
};
use crate::step::WorldStep;
use crate::text::{int_text, nat_text};
use crate::text_laws::{
    a_piece_is_a_word, int_text_reads_back, nat_text_reads_back, separators_part_words,
};
use crate::world_model::WorldView;

verus! {

/// Words are separated by spaces, tabs, line feeds, form feeds and carriage returns, and by
/// nothing else.
pub proof fn separators_are_ascii_white_space(c: char)
    ensures
        is_separator(c) <==> (c as u32 == 32 || c as u32 == 9 || c as u32 == 10 || c as u32 == 12
            || c as u32 == 13),
        is_separator(c) ==> is_blank(c),
{
}

/// White space around a number is what has that property among all characters: the controls
/// from tab to carriage return, the space, the next line, and the spaces and separators of
/// other scripts.
pub proof fn blanks_are_white_space(c: char)
    ensures
        is_blank(c) <==> (9 <= c as u32 <= 13 || c as u32 == 32 || c as u32 == 133 || c as u32 == 160
            || c as u32 == 5760 || 8192 <= c as u32 <= 8202 || c as u32 == 8232 || c as u32 == 8233
            || c as u32 == 8239 || c as u32 == 8287 || c as u32 == 12288),
{
}

/// A line without characters has no words, and its trimmed form is itself.
pub proof fn empty_lines_hold_nothing()
    ensures
        words(Seq::empty()).len() == 0,
        trimmed(Seq::empty()).len() == 0,
{
}

/// The views of words are the words' characters.
pub proof fn word_models_hide_nothing(parts: Seq<Vec<char>>)
    ensures
        word_views(parts).len() == parts.len(),
        forall|i: int| 0 <= i < parts.len() ==> #[trigger] word_views(parts)[i] == parts[i]@,
{
}

/// Separators at either end of a line change no word.
pub proof fn separators_around_a_line(line: Seq<char>, c: char)
    requires
        is_separator(c),
    ensures
        words(line.push(c)) == words(line),
        words(seq![c] + line) == words(line),
{
    separators_part_words(line, c, Seq::empty());
    assert(line.push(c) + Seq::<char>::empty() =~= line.push(c));
    assert(words(Seq::<char>::empty()) =~= Seq::<Seq<char>>::empty());
    assert(words(line) + Seq::<Seq<char>>::empty() =~= words(line));
    separators_part_words(Seq::empty(), c, line);
    assert(Seq::<char>::empty().push(c) + line =~= seq![c] + line);
    assert(Seq::<Seq<char>>::empty() + words(line) =~= words(line));
}

proof fn lemma_trim_start_push(line: Seq<char>, c: char)
    requires
        is_blank(c),
    ensures
        trim_start(line.push(c)) == (if trim_start(line).len() == 0 {
            Seq::empty()
        } else {
            trim_start(line).push(c)
        }),
    decreases line.len(),
{
    let longer = line.push(c);
    if line.len() == 0 {
        assert(longer[0] == c);
        assert(longer.skip(1) =~= Seq::<char>::empty());
        assert(trim_start(longer) == trim_start(longer.skip(1)));
        assert(trim_start(line) =~= Seq::<char>::empty());
    } else if is_blank(line[0]) {
        lemma_trim_start_push(line.skip(1), c);
        assert(longer[0] == line[0]);
        assert(longer.skip(1) =~= line.skip(1).push(c));
    } else {
        assert(longer[0] == line[0]);
    }
}

/// Trimming takes away white space at either end of a line, as often as there is some, and
/// nothing else.
pub proof fn trimming_takes_blanks_away(line: Seq<char>, c: char)
    ensures
        is_blank(c) ==> trimmed(line.push(c)) == trimmed(line),
        is_blank(c) ==> trimmed(seq![c] + line) == trimmed(line),
        line.len() > 0 && !is_blank(line[0]) && !is_blank(line.last()) ==> trimmed(line) == line,
{
    if is_blank(c) {
        lemma_trim_start_push(line, c);
        let t = trim_start(line);
        if t.len() > 0 {
            assert(t.push(c).drop_last() =~= t);
            assert(trim_end(t.push(c)) == trim_end(t));
        } else {
            assert(t =~= Seq::<char>::empty());
        }
        assert((seq![c] + line).skip(1) =~= line);
        assert((seq![c] + line)[0] == c);
    }
}

/// Digits are the ten decimal digits; a numeral is one or more of them, and nothing else.
pub proof fn numerals_are_decimal_digits(s: Seq<char>, c: char)
    ensures
        is_digit(c) <==> 48 <= c as u32 <= 57,
        !is_numeral(Seq::empty()),
        is_numeral(seq![c]) <==> 48 <= c as u32 <= 57,
        s.len() > 0 ==> (is_numeral(s.push(c)) <==> is_numeral(s) && 48 <= c as u32 <= 57),
{
    let t = s.push(c);
    if s.len() > 0 {
        if is_numeral(t) {
            assert forall|i: int| 0 <= i < s.len() implies is_digit(#[trigger] s[i]) by {
                assert(is_digit(t[i]));
            }
            assert(is_digit(t[s.len() as int]));
        }
        if is_numeral(s) && is_digit(c) {
            assert forall|i: int| 0 <= i < t.len() implies is_digit(#[trigger] t[i]) by {
                if i < s.len() {
                    assert(is_digit(s[i]));
                }
            }
        }
    }
    if is_numeral(seq![c]) {
        assert(is_digit(seq![c][0]));
    }
}

/// A digit behind a numeral makes the number ten times as large, plus the digit.
pub proof fn digits_count_in_tens(s: Seq<char>, c: char)
    ensures
        numeral_value(Seq::empty()) == 0,
        numeral_value(s.push(c)) == 10 * numeral_value(s) + (c as u32 - 48),
{
    assert(s.push(c).drop_last() =~= s);
    assert(s.push(c).last() == c);
}

/// A numeral is read as its value, with a plus in front too; with a minus as the negative
/// value where one is allowed, and else not at all.
pub proof fn signs_are_read(s: Seq<char>)
    requires
        is_numeral(s),
    ensures
        number(s, true) == Some(numeral_value(s)),
        number(s, false) == Some(numeral_value(s)),
        number(seq!['+'] + s, true) == Some(numeral_value(s)),
        number(seq!['+'] + s, false) == Some(numeral_value(s)),
        number(seq!['-'] + s, true) == Some(-numeral_value(s)),
        number(seq!['-'] + s, false) is None,
{
    assert(is_digit(s[0]));
    assert((seq!['+'] + s).skip(1) =~= s);
    assert((seq!['-'] + s).skip(1) =~= s);
    assert((seq!['+'] + s)[0] == '+');
    assert((seq!['-'] + s)[0] == '-');
    assert(!is_digit((seq!['-'] + s)[0]));
}

/// What is read as a number is a numeral, or a numeral behind one sign.
pub proof fn numbers_are_numerals(s: Seq<char>, signed: bool)
    requires
        number(s, signed) is Some,
    ensures
        is_numeral(s) || (s.len() > 1 && is_numeral(s.skip(1)) && (s[0] == '+' || (s[0] == '-'
            && signed))),
{
}

/// A word stands for an `i32` if and only if it is a number in that range, and for a `usize`
/// likewise; a minus is not allowed there.
pub proof fn numbers_stay_in_range(s: Seq<char>)
    ensures
        match number(s, true) {
            Some(x) => if -2147483648 <= x <= 2147483647 {
                i32_of(s) matches Some(y) && y == x
            } else {
                i32_of(s) is None
            },
            None => i32_of(s) is None,
        },
        match number(s, false) {
            Some(x) => if x <= usize::MAX {
                usize_of(s) matches Some(y) && y == x
            } else {
                usize_of(s) is None
            },
            None => usize_of(s) is None,
        },
{
    if let Some(x) = number(s, false) {
        let digits = if s.len() > 0 && s[0] == '+' {
            s.skip(1)
        } else {
            s
        };
        lemma_numeral_positive(digits);
    }
}

proof fn lemma_numeral_positive(s: Seq<char>)
    requires
        forall|i: int| 0 <= i < s.len() ==> is_digit(#[trigger] s[i]),
    ensures
        numeral_value(s) >= 0,
    decreases s.len(),
{
    if s.len() > 0 {
        assert forall|i: int| 0 <= i < s.len() - 1 implies is_digit(#[trigger] s.drop_last()[i]) by {
            assert(is_digit(s[i]));
        }
        lemma_numeral_positive(s.drop_last());
        assert(is_digit(s[s.len() - 1]));
    }
}

/// An argument is the word at its place, read as an `i32`; it is missing where there are too
/// few words, and bad where the word is not such a number.
pub proof fn arguments_are_numbers(parts: Seq<Seq<char>>, k: int)
    requires
        0 <= k,
    ensures
        parts.len() <= k ==> argument(parts, k) == Err::<i32, ChoiceError>(
            ChoiceError::MissingArgument,
        ),
        k < parts.len() && i32_of(parts[k]) is None ==> argument(parts, k) == Err::<
            i32,
            ChoiceError,
        >(ChoiceError::BadNumber),
        k < parts.len() ==> (i32_of(parts[k]) matches Some(x) ==> argument(parts, k) == Ok::<
            i32,
            ChoiceError,
        >(x)),
{
}

proof fn lemma_keywords()
    ensures
        "crash"@.len() == 5,
        "restart"@.len() == 7,
        "timeout"@.len() == 7,
        "client"@.len() == 6,
        "ae"@.len() == 2,
        "appendentries"@.len() == 13,
        "rv"@.len() == 2,
        "requestvote"@.len() == 11,
        "recv"@.len() == 4,
        "restart"@[0] == 'r',
        "timeout"@[0] == 't',
        "ae"@[0] == 'a',
        "rv"@[0] == 'r',
{
    reveal_strlit("crash");
    reveal_strlit("restart");
    reveal_strlit("timeout");
    reveal_strlit("client");
    reveal_strlit("ae");
    reveal_strlit("appendentries");
    reveal_strlit("rv");
    reveal_strlit("requestvote");
    reveal_strlit("recv");
}

/// A command's name and one number: the step of that name, by the node with that number. A
/// client's value is the number of the step.
pub proof fn commands_with_one_number(w: WorldView, line: Seq<char>, id: i32)
    requires
        words(line).len() >= 2,
        i32_of(words(line)[1]) == Some(id),
    ensures
        words(line)[0] == "crash"@ ==> w.choice_of(line) == Ok::<Option<WorldStep>, ChoiceError>(
            Some(WorldStep::Crash { id }),
        ),
        words(line)[0] == "restart"@ ==> w.choice_of(line) == Ok::<Option<WorldStep>, ChoiceError>(
            Some(WorldStep::Restart { id }),
        ),
        words(line)[0] == "timeout"@ ==> w.choice_of(line) == Ok::<Option<WorldStep>, ChoiceError>(
            Some(WorldStep::HeartBeatTimeout { id }),
        ),
        words(line)[0] == "client"@ ==> w.choice_of(line) == Ok::<Option<WorldStep>, ChoiceError>(
            Some(WorldStep::ClientRequest { id, value: w.n_steps as i32 }),
        ),
{
    lemma_keywords();
}

/// A command's name and two numbers: the first is the sender, the second the destination. Both
/// commands have a short and a long name.
pub proof fn commands_with_two_numbers(w: WorldView, line: Seq<char>, id: i32, dest: i32)
    requires
        words(line).len() >= 3,
        i32_of(words(line)[1]) == Some(id),
        i32_of(words(line)[2]) == Some(dest),
    ensures
        words(line)[0] == "ae"@ || words(line)[0] == "appendentries"@ ==> w.choice_of(line) == Ok::<
            Option<WorldStep>,
            ChoiceError,
        >(Some(WorldStep::SendAppendEntries { id, dest })),
        words(line)[0] == "rv"@ || words(line)[0] == "requestvote"@ ==> w.choice_of(line) == Ok::<
            Option<WorldStep>,
            ChoiceError,
        >(Some(WorldStep::SendRequestVote { id, dest })),
{
    lemma_keywords();
}

/// The command to receive: the message at the given position, by its destination, with the
/// step for its kind. A position without a message is an error.
pub proof fn the_command_to_receive(w: WorldView, line: Seq<char>, k: i32)
    requires
        words(line).len() >= 2,
        words(line)[0] == "recv"@,
        i32_of(words(line)[1]) == Some(k),
    ensures
        k < 0 || k >= w.msgs.len() ==> w.choice_of(line) == Err::<Option<WorldStep>, ChoiceError>(
            ChoiceError::NoSuchMessage,
        ),
        0 <= k < w.msgs.len() ==> {
            let m = w.msgs[k as int];
            let msg_idx = k as usize;
            let id = m.to;
            w.choice_of(line) matches Ok(Some(step)) && {
                &&& m.data is RequestVoteRequest ==> step == (WorldStep::RecvRequestVoteRequest {
                    id,
                    msg_idx,
                })
                &&& m.data is RequestVoteResponse ==> step == (WorldStep::RecvRequestVoteResponse {
                    id,
                    msg_idx,
                })
                &&& m.data is AppendEntriesRequest ==> step == (
                WorldStep::RecvAppendEntriesRequest { id, msg_idx })
                &&& m.data is AppendEntriesResponse ==> step == (
                WorldStep::RecvAppendEntriesResponse { id, msg_idx })
            }
        },
{
    lemma_keywords();
}

/// A line without words is no command, and a first word that names none stands for nothing.
pub proof fn lines_without_a_command(w: WorldView, line: Seq<char>)
    ensures
        words(line).len() == 0 ==> w.choice_of(line) == Err::<Option<WorldStep>, ChoiceError>(
            ChoiceError::NoCommand,
        ),
        words(line).len() > 0 && words(line)[0] != "crash"@ && words(line)[0] != "restart"@
            && words(line)[0] != "timeout"@ && words(line)[0] != "client"@ && words(line)[0] != "ae"@
            && words(line)[0] != "appendentries"@ && words(line)[0] != "rv"@ && words(line)[0]
            != "requestvote"@ && words(line)[0] != "recv"@ ==> w.choice_of(line) == Ok::<
            Option<WorldStep>,
            ChoiceError,
        >(None),
{
}

/// A command is refused for a number that is missing, and for a word in its place that is
/// none; the first such place decides.
pub proof fn commands_without_their_numbers(w: WorldView, line: Seq<char>)
    requires
        words(line).len() > 0,
    ensures
        ({
            let name = words(line)[0];
            let missing = Err::<Option<WorldStep>, ChoiceError>(ChoiceError::MissingArgument);
            let bad = Err::<Option<WorldStep>, ChoiceError>(ChoiceError::BadNumber);
            let two = name == "ae"@ || name == "appendentries"@ || name == "rv"@ || name
                == "requestvote"@;
            let one = name == "crash"@ || name == "restart"@ || name == "timeout"@ || name
                == "client"@ || name == "recv"@;
            let given = words(line).len();
            &&& (one || two) && given == 1 ==> w.choice_of(line) == missing
            &&& (one || two) && given >= 2 && i32_of(words(line)[1]) is None ==> w.choice_of(line)
                == bad
            &&& two && given == 2 && i32_of(words(line)[1]) is Some ==> w.choice_of(line) == missing
            &&& two && given >= 3 && i32_of(words(line)[1]) is Some && i32_of(words(line)[2]) is None
                ==> w.choice_of(line) == bad
        }),
{
    lemma_keywords();
}

/// No digit, and no minus, is a separator.
proof fn lemma_number_is_word(x: i32)
    ensures
        words(int_text(x as int)) == seq![int_text(x as int)],
{
    let s = int_text(x as int);
    if x < 0 {
        nat_text_reads_back((-x) as nat);
        reveal_strlit("-");
        let digits = nat_text((-x) as nat);
        assert forall|i: int| 0 <= i < s.len() implies !is_separator(#[trigger] s[i]) by {
            if i > 0 {
                assert(is_digit(digits[i - 1]));
            }
        }
    } else {
        nat_text_reads_back(x as nat);
        assert forall|i: int| 0 <= i < s.len() implies !is_separator(#[trigger] s[i]) by {
            assert(is_digit(s[i]));
        }
    }
    a_piece_is_a_word(s);
}

/// The words of a name, a separator and a number.
proof fn lemma_name_and_number(name: Seq<char>, c: char, x: i32)
    requires
        name.len() > 0,
        forall|i: int| 0 <= i < name.len() ==> !is_separator(#[trigger] name[i]),
        is_separator(c),
    ensures
        words(name.push(c) + int_text(x as int)) == seq![name, int_text(x as int)],
{
    a_piece_is_a_word(name);
    lemma_number_is_word(x);
    separators_part_words(name, c, int_text(x as int));
    assert(seq![name] + seq![int_text(x as int)] =~= seq![name, int_text(x as int)]);
}

/// The words of a name, a separator, a number, a separator and a number.
proof fn lemma_name_and_numbers(name: Seq<char>, c: char, x: i32, y: i32)
    requires
        name.len() > 0,
        forall|i: int| 0 <= i < name.len() ==> !is_separator(#[trigger] name[i]),
        is_separator(c),
    ensures
        words((name.push(c) + int_text(x as int)).push(c) + int_text(y as int)) == seq![
            name,
            int_text(x as int),
            int_text(y as int),
        ],
{
    lemma_name_and_number(name, c, x);
    lemma_number_is_word(y);
    separators_part_words(name.push(c) + int_text(x as int), c, int_text(y as int));
    assert(seq![name, int_text(x as int)] + seq![int_text(y as int)] =~= seq![
        name,
        int_text(x as int),
        int_text(y as int),
    ]);
}

/// What is typed to make a node crash, restart, time out or take a client's request: the
/// command's name, white space, and the node's number as it is shown.
pub proof fn typed_commands_for_a_node(w: WorldView, c: char, id: i32)
    requires
        is_separator(c),
    ensures
        w.choice_of("crash"@.push(c) + int_text(id as int)) == Ok::<Option<WorldStep>, ChoiceError>(
            Some(WorldStep::Crash { id }),
        ),
        w.choice_of("restart"@.push(c) + int_text(id as int)) == Ok::<
            Option<WorldStep>,
            ChoiceError,
        >(Some(WorldStep::Restart { id })),
        w.choice_of("timeout"@.push(c) + int_text(id as int)) == Ok::<
            Option<WorldStep>,
            ChoiceError,
        >(Some(WorldStep::HeartBeatTimeout { id })),
        w.choice_of("client"@.push(c) + int_text(id as int)) == Ok::<
            Option<WorldStep>,
            ChoiceError,
        >(Some(WorldStep::ClientRequest { id, value: w.n_steps as i32 })),
{
    reveal_strlit("crash");
    reveal_strlit("restart");
    reveal_strlit("timeout");
    reveal_strlit("client");
    int_text_reads_back(id);
    lemma_name_and_number("crash"@, c, id);
    commands_with_one_number(w, "crash"@.push(c) + int_text(id as int), id);
    lemma_name_and_number("restart"@, c, id);
    commands_with_one_number(w, "restart"@.push(c) + int_text(id as int), id);
    lemma_name_and_number("timeout"@, c, id);
    commands_with_one_number(w, "timeout"@.push(c) + int_text(id as int), id);
    lemma_name_and_number("client"@, c, id);
    commands_with_one_number(w, "client"@.push(c) + int_text(id as int), id);
}

/// What is typed to send: the command's name, the sender's number and the destination's, with
/// white space between them.
pub proof fn typed_commands_to_send(w: WorldView, c: char, id: i32, dest: i32)
    requires
        is_separator(c),
    ensures
        w.choice_of(("ae"@.push(c) + int_text(id as int)).push(c) + int_text(dest as int)) == Ok::<
            Option<WorldStep>,
            ChoiceError,
        >(Some(WorldStep::SendAppendEntries { id, dest })),
        w.choice_of(
            ("appendentries"@.push(c) + int_text(id as int)).push(c) + int_text(dest as int),
        ) == Ok::<Option<WorldStep>, ChoiceError>(Some(WorldStep::SendAppendEntries { id, dest })),
        w.choice_of(("rv"@.push(c) + int_text(id as int)).push(c) + int_text(dest as int)) == Ok::<
            Option<WorldStep>,
            ChoiceError,
        >(Some(WorldStep::SendRequestVote { id, dest })),
        w.choice_of(
            ("requestvote"@.push(c) + int_text(id as int)).push(c) + int_text(dest as int),
        ) == Ok::<Option<WorldStep>, ChoiceError>(Some(WorldStep::SendRequestVote { id, dest })),
{
    reveal_strlit("ae");
    reveal_strlit("appendentries");
    reveal_strlit("rv");
    reveal_strlit("requestvote");
    int_text_reads_back(id);
    int_text_reads_back(dest);
    lemma_name_and_numbers("ae"@, c, id, dest);
    commands_with_two_numbers(
        w,
        ("ae"@.push(c) + int_text(id as int)).push(c) + int_text(dest as int),
        id,
        dest,
    );
    lemma_name_and_numbers("appendentries"@, c, id, dest);
    commands_with_two_numbers(
        w,
        ("appendentries"@.push(c) + int_text(id as int)).push(c) + int_text(dest as int),
        id,
        dest,
    );
    lemma_name_and_numbers("rv"@, c, id, dest);
    commands_with_two_numbers(
        w,
        ("rv"@.push(c) + int_text(id as int)).push(c) + int_text(dest as int),
        id,
        dest,
    );
    lemma_name_and_numbers("requestvote"@, c, id, dest);
    commands_with_two_numbers(
        w,
        ("requestvote"@.push(c) + int_text(id as int)).push(c) + int_text(dest as int),
        id,
        dest,
    );
}

/// What is typed to receive a message: the command's name and the message's position. It
/// stands for a step that receives that message, where it is in flight to a node that is up.
pub proof fn typed_commands_to_receive(w: WorldView, c: char, k: i32)
    requires
        is_separator(c),
        0 <= k < w.msgs.len(),
    ensures
        w.choice_of("recv"@.push(c) + int_text(k as int)) matches Ok(Some(step)) && step.actor()
            == w.msgs[k as int].to && step.detail() == k && (w.enabled(step)
            <==> !w.crashed.contains(step.actor())),
{
    reveal_strlit("recv");
    int_text_reads_back(k);
    lemma_name_and_number("recv"@, c, k);
    the_command_to_receive(w, "recv"@.push(c) + int_text(k as int), k);
}

/// White space at the end of a line, such as the line's own end, does not change what it stands
/// for.
pub proof fn line_ends_do_not_matter(w: WorldView, line: Seq<char>, c: char)
    requires
        is_separator(c),
    ensures
        w.choice_of(line.push(c)) == w.choice_of(line),
        w.choice_of(seq![c] + line) == w.choice_of(line),
{
    separators_around_a_line(line, c);
}

/// A number picks the step that is listed under it, whatever the white space around it.
pub proof fn numbers_pick_by_position(
    w: WorldView,
    cand_steps: Seq<WorldStep>,
    line: Seq<char>,
    k: usize,
)
    requires
        usize_of(trimmed(line)) == Some(k),
        k < cand_steps.len(),
    ensures
        w.pick_of(cand_steps, line) == Ok::<Option<int>, ChoiceError>(Some(k as int)),
{
}

/// A line that is no number of a listed step is read as a command: one for a listed step picks
/// it, at its first place; one for a step that is not listed picks none; a first word that
/// names no command is an error, and so is everything that is an error in a command.
pub proof fn commands_pick_by_step(w: WorldView, cand_steps: Seq<WorldStep>, line: Seq<char>)
    requires
        usize_of(trimmed(line)) matches Some(k) ==> k >= cand_steps.len(),
    ensures
        match w.choice_of(line) {
            Ok(Some(step)) => match w.pick_of(cand_steps, line) {
                Ok(Some(k)) => 0 <= k < cand_steps.len() && cand_steps[k] == step && forall|j: int|
                    0 <= j < k ==> cand_steps[j] != step,
                Ok(None) => !cand_steps.contains(step),
                Err(_) => false,
            },
            Ok(None) => w.pick_of(cand_steps, line) == Err::<Option<int>, ChoiceError>(
                ChoiceError::UnknownCommand,
            ),
            Err(e) => w.pick_of(cand_steps, line) == Err::<Option<int>, ChoiceError>(e),
        },
{
    if let Ok(Some(step)) = w.choice_of(line) {
        cand_steps.index_of_first_ensures(step);
    }
}

} // verus!
