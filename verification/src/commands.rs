//! Reading the to-do tool's commands and task priorities from typed lines.

use vstd::prelude::*;
use crate::text::{chars_of, is_white_space, parse_i32, parse_i32_chars, trim, trimmed};

verus! {

/// What a typed command line asks for.
#[derive(PartialEq, Eq, Structural, Clone, Copy, Debug)]
pub enum Command {
    /// `l` or `list`: show the tasks.
    List,
    /// `a` or `add`: enter a new task.
    Add,
    /// `e` or `exit`: save and quit.
    Exit,
    /// anything else: show the help text.
    Help,
}

/// ASCII upper-case letters to lower case; every other character unchanged.
pub open spec fn ascii_lower(c: char) -> char {
    if 'A' <= c <= 'Z' {
        ((c as u32) + 32) as char
    } else {
        c
    }
}

/// Whether `s`, with ASCII letters folded to lower case, equals `word`
/// (which is written in lower case).
pub open spec fn folds_to(s: Seq<char>, word: Seq<char>) -> bool {
    s.len() == word.len() && forall|i: int| 0 <= i < s.len() ==> ascii_lower(#[trigger] s[i])
        == word[i]
}

/// The command that a line names once it is lower-cased and trimmed. No
/// character outside ASCII lower-cases into one of the command words, so
/// folding ASCII letters decides it.
pub open spec fn command_of(line: Seq<char>) -> Command {
    let t = trimmed(line);
    if folds_to(t, seq!['l']) || folds_to(t, seq!['l', 'i', 's', 't']) {
        Command::List
    } else if folds_to(t, seq!['a']) || folds_to(t, seq!['a', 'd', 'd']) {
        Command::Add
    } else if folds_to(t, seq!['e']) || folds_to(t, seq!['e', 'x', 'i', 't']) {
        Command::Exit
    } else {
        Command::Help
    }
}

/// Capital ASCII letters fold onto the small letter 32 code points above
/// them; every other character is left as it is.
pub proof fn law_ascii_lower_folds(c: char)
    ensures
        'A' <= c <= 'Z' ==> ascii_lower(c) as u32 == c as u32 + 32 && 'a' <= ascii_lower(c) <= 'z',
        !('A' <= c <= 'Z') ==> ascii_lower(c) == c,
{
}

/// Two characters that are equal, or are the capital and small form of the
/// same ASCII letter.
pub open spec fn same_letter_up_to_case(a: char, b: char) -> bool {
    ||| a == b
    ||| 'A' <= a <= 'Z' && b as u32 == a as u32 + 32
    ||| 'A' <= b <= 'Z' && a as u32 == b as u32 + 32
}

/// Two lines that differ only in the case of ASCII letters.
pub open spec fn same_up_to_case(a: Seq<char>, b: Seq<char>) -> bool {
    a.len() == b.len() && forall|i: int| 0 <= i < a.len() ==> same_letter_up_to_case(
        #[trigger] a[i],
        b[i],
    )
}

proof fn lemma_same_case_white_space(a: char, b: char)
    requires
        same_letter_up_to_case(a, b),
    ensures
        is_white_space(a) == is_white_space(b),
        ascii_lower(a) == ascii_lower(b),
{
}

proof fn lemma_trimmed_same_up_to_case(a: Seq<char>, b: Seq<char>)
    requires
        same_up_to_case(a, b),
    ensures
        same_up_to_case(trimmed(a), trimmed(b)),
    decreases a.len(),
{
    if a.len() > 0 {
        lemma_same_case_white_space(a[0], b[0]);
        lemma_same_case_white_space(a.last(), b.last());
        if is_white_space(a[0]) {
            assert(same_up_to_case(a.drop_first(), b.drop_first())) by {
                assert forall|i: int| 0 <= i < a.len() - 1 implies same_letter_up_to_case(
                    #[trigger] a.drop_first()[i],
                    b.drop_first()[i],
                ) by {
                    assert(a.drop_first()[i] == a[i + 1]);
                    assert(b.drop_first()[i] == b[i + 1]);
                }
            }
            lemma_trimmed_same_up_to_case(a.drop_first(), b.drop_first());
        } else if is_white_space(a.last()) {
            assert(same_up_to_case(a.drop_last(), b.drop_last())) by {
                assert forall|i: int| 0 <= i < a.len() - 1 implies same_letter_up_to_case(
                    #[trigger] a.drop_last()[i],
                    b.drop_last()[i],
                ) by {
                    assert(a.drop_last()[i] == a[i]);
                    assert(b.drop_last()[i] == b[i]);
                }
            }
            lemma_trimmed_same_up_to_case(a.drop_last(), b.drop_last());
        }
    }
}

proof fn lemma_folds_same_up_to_case(a: Seq<char>, b: Seq<char>, word: Seq<char>)
    requires
        same_up_to_case(a, b),
    ensures
        folds_to(a, word) == folds_to(b, word),
{
    assert forall|i: int| 0 <= i < a.len() implies ascii_lower(#[trigger] a[i]) == ascii_lower(b[i]) by {
        lemma_same_case_white_space(a[i], b[i]);
    }
    if folds_to(a, word) {
        assert forall|i: int| 0 <= i < b.len() implies ascii_lower(#[trigger] b[i]) == word[i] by {
            assert(ascii_lower(a[i]) == word[i]);
        }
    }
    if folds_to(b, word) {
        assert forall|i: int| 0 <= i < a.len() implies ascii_lower(#[trigger] a[i]) == word[i] by {
            assert(ascii_lower(b[i]) == word[i]);
        }
    }
}

/// Changing the case of ASCII letters in a line never changes the command it
/// names.
pub proof fn law_command_ignores_case(a: Seq<char>, b: Seq<char>)
    requires
        same_up_to_case(a, b),
    ensures
        command_of(a) == command_of(b),
{
    lemma_trimmed_same_up_to_case(a, b);
    let ta = trimmed(a);
    let tb = trimmed(b);
    lemma_folds_same_up_to_case(ta, tb, seq!['l']);
    lemma_folds_same_up_to_case(ta, tb, seq!['l', 'i', 's', 't']);
    lemma_folds_same_up_to_case(ta, tb, seq!['a']);
    lemma_folds_same_up_to_case(ta, tb, seq!['a', 'd', 'd']);
    lemma_folds_same_up_to_case(ta, tb, seq!['e']);
    lemma_folds_same_up_to_case(ta, tb, seq!['e', 'x', 'i', 't']);
}

/// A line holding just a command word, in any mix of upper and lower case
/// and with any white space around it, names that command.
pub proof fn law_command_words(s: Seq<char>)
    ensures
        folds_to(trimmed(s), seq!['a', 'd', 'd']) ==> command_of(s) == Command::Add,
        folds_to(trimmed(s), seq!['l', 'i', 's', 't']) ==> command_of(s) == Command::List,
        folds_to(trimmed(s), seq!['e', 'x', 'i', 't']) ==> command_of(s) == Command::Exit,
{
    let t = trimmed(s);
    if folds_to(t, seq!['a', 'd', 'd']) {
        assert(!folds_to(t, seq!['l']) && !folds_to(t, seq!['l', 'i', 's', 't'])) by {
            assert(ascii_lower(t[0]) == 'a');
        }
    }
    if folds_to(t, seq!['e', 'x', 'i', 't']) {
        assert(ascii_lower(t[0]) == 'e');
        assert(!folds_to(t, seq!['a', 'd', 'd']));
    }
}

fn lower(c: char) -> (d: char)
    ensures
        d == ascii_lower(c),
{
    if 'A' <= c && c <= 'Z' {
        let b: u32 = (c as u32) + 32;
        let b8: u8 = b as u8;
        b8 as char
    } else {
        c
    }
}

fn matches_word(t: &Vec<char>, word: &Vec<char>) -> (b: bool)
    ensures
        b == folds_to(t@, word@),
{
    if t.len() != word.len() {
        return false;
    }
    let n = t.len();
    for i in 0..n
        invariant
            n == t@.len(),
            n == word@.len(),
            forall|k: int| 0 <= k < i ==> ascii_lower(#[trigger] t@[k]) == word@[k],
    {
        if lower(t[i]) != word[i] {
            return false;
        }
    }
    true
}

/// Reads a command from a typed line.
pub fn parse_command(line: &str) -> (c: Command)
    ensures
        c == command_of(line@),
{
    let t = trim(&chars_of(line));
    if matches_word(&t, &vec!['l']) || matches_word(&t, &vec!['l', 'i', 's', 't']) {
        Command::List
    } else if matches_word(&t, &vec!['a']) || matches_word(&t, &vec!['a', 'd', 'd']) {
        Command::Add
    } else if matches_word(&t, &vec!['e']) || matches_word(&t, &vec!['e', 'x', 'i', 't']) {
        Command::Exit
    } else {
        Command::Help
    }
}

/// Why a typed priority was refused.
#[derive(PartialEq, Eq, Structural, Clone, Copy, Debug)]
pub enum PriorityError {
    /// The trimmed text is not a 32-bit integer.
    NotANumber,
    /// The number is below 1.
    NotPositive,
}

/// The outcome of reading a priority from a typed line.
pub open spec fn priority_of(input: Seq<char>) -> Result<i32, PriorityError> {
    match parse_i32(trimmed(input)) {
        None => Err(PriorityError::NotANumber),
        Some(p) => if p < 1 {
            Err(PriorityError::NotPositive)
        } else {
            Ok(p)
        },
    }
}

/// Reads a task priority: the trimmed line must be an `i32` of at least 1.
pub fn parse_priority(input: &str) -> (r: Result<i32, PriorityError>)
    ensures
        r == priority_of(input@),
{
    let t = trim(&chars_of(input));
    match parse_i32_chars(&t) {
        None => Err(PriorityError::NotANumber),
        Some(p) => if p < 1 {
            Err(PriorityError::NotPositive)
        } else {
            Ok(p)
        },
    }
}

} // verus!
