//! Reading a problem from words: which of them are operands, which is the
//! target.

use crate::operation::fits;
use vstd::prelude::*;
use vstd::string::StrSliceExecFns;

verus! {

/// Why the words hold no problem.
#[derive(Clone, Copy, Debug, PartialEq, Eq, Structural)]
pub enum InputError {
    /// No word is a number greater than 100: there is nothing to find.
    NothingToFind,
    /// Fewer than two words are operands.
    TooFewNumbers,
}

/// The value of a decimal digit; nothing for any other character.
pub open spec fn digit_value(c: char) -> Option<int> {
    if c == '0' {
        Some(0)
    } else if c == '1' {
        Some(1)
    } else if c == '2' {
        Some(2)
    } else if c == '3' {
        Some(3)
    } else if c == '4' {
        Some(4)
    } else if c == '5' {
        Some(5)
    } else if c == '6' {
        Some(6)
    } else if c == '7' {
        Some(7)
    } else if c == '8' {
        Some(8)
    } else if c == '9' {
        Some(9)
    } else {
        None
    }
}

/// Every character is a decimal digit.
pub open spec fn all_digits(cs: Seq<char>) -> bool {
    forall|i: int| 0 <= i < cs.len() ==> digit_value(#[trigger] cs[i]) is Some
}

/// The number that the digits `cs` write.
pub open spec fn number_of(cs: Seq<char>) -> int
    decreases cs.len(),
{
    if cs.len() == 0 {
        0
    } else {
        number_of(cs.drop_last()) * 10 + match digit_value(cs.last()) {
            Some(d) => d,
            None => 0,
        }
    }
}

/// The integer that a word writes: an optional sign, then one decimal digit
/// or more, and a value of the integer width. Any other word writes none.
pub open spec fn parse_spec(word: Seq<char>) -> Option<i32> {
    let signed = word.len() > 0 && (word[0] == '-' || word[0] == '+');
    let body = if signed { word.skip(1) } else { word };
    let value = if word.len() > 0 && word[0] == '-' { -number_of(body) } else { number_of(body) };
    if body.len() == 0 || !all_digits(body) || !fits(value) {
        None
    } else {
        Some(value as i32)
    }
}

/// What the digits write only grows with more digits.
proof fn lemma_number_grows(cs: Seq<char>, k: int)
    requires
        0 <= k <= cs.len(),
    ensures
        0 <= number_of(cs.take(k)) <= number_of(cs),
    decreases cs.len() - k,
{
    lemma_number_nonnegative(cs.take(k));
    if k < cs.len() {
        lemma_number_grows(cs, k + 1);
        assert(cs.take(k + 1).drop_last() =~= cs.take(k));
    } else {
        assert(cs.take(k) =~= cs);
    }
}

/// Digits write no negative number.
proof fn lemma_number_nonnegative(cs: Seq<char>)
    ensures
        number_of(cs) >= 0,
    decreases cs.len(),
{
    if cs.len() > 0 {
        lemma_number_nonnegative(cs.drop_last());
    }
}

/// The value of a decimal digit.
fn digit_of(c: char) -> (d: Option<i64>)
    ensures
        match d {
            Some(v) => digit_value(c) == Some(v as int),
            None => digit_value(c) is None,
        },
{
    if c == '0' {
        Some(0)
    } else if c == '1' {
        Some(1)
    } else if c == '2' {
        Some(2)
    } else if c == '3' {
        Some(3)
    } else if c == '4' {
        Some(4)
    } else if c == '5' {
        Some(5)
    } else if c == '6' {
        Some(6)
    } else if c == '7' {
        Some(7)
    } else if c == '8' {
        Some(8)
    } else if c == '9' {
        Some(9)
    } else {
        None
    }
}

/// Reads a word as an integer in decimal notation.
pub fn parse_number(word: &str) -> (n: Option<i32>)
    ensures
        n == parse_spec(word@),
{
    let len = word.unicode_len();
    if len == 0 {
        return None;
    }
    let first = word.get_char(0);
    let negative = first == '-';
    let start: usize = if first == '-' || first == '+' { 1 } else { 0 };
    let ghost body = if start == 1 { word@.skip(1) } else { word@ };
    if start == len {
        return None;
    }
    let mut acc: i64 = 0;
    let mut i: usize = start;
    assert(body.take(0) =~= Seq::<char>::empty());
    while i < len
        invariant
            start <= i <= len,
            len == word@.len(),
            start <= 1,
            len > 0,
            (start == 1) == (word@[0] == '-' || word@[0] == '+'),
            body == (if start == 1 { word@.skip(1) } else { word@ }),
            all_digits(body.take(i - start)),
            acc == number_of(body.take(i - start)),
            0 <= acc <= 0x8000_0000,
        decreases len - i,
    {
        let c = word.get_char(i);
        assert(body[i - start] == c);
        assert(body.take(i - start + 1).drop_last() =~= body.take(i - start));
        match digit_of(c) {
            None => {
                assert(digit_value(body[i - start]) is None);
                return None;
            },
            Some(d) => {
                acc = acc * 10 + d;
                assert(acc == number_of(body.take(i - start + 1)));
                if acc > 0x8000_0000 {
                    proof {
                        if all_digits(body) {
                            lemma_number_grows(body, i - start + 1);
                        }
                    }
                    return None;
                }
            },
        }
        i += 1;
    }
    assert(body.take(i - start) =~= body);
    if negative {
        Some((-acc) as i32)
    } else if acc > i32::MAX as i64 {
        None
    } else {
        Some(acc as i32)
    }
}

/// The operands among the candidates: the numbers from 1 to 100, in their
/// order.
pub open spec fn operands_of(candidates: Seq<Option<i32>>) -> Seq<i32>
    decreases candidates.len(),
{
    if candidates.len() == 0 {
        Seq::empty()
    } else {
        let before = operands_of(candidates.drop_last());
        match candidates.last() {
            Some(v) => if 1 <= v <= 100 {
                before.push(v)
            } else {
                before
            },
            None => before,
        }
    }
}

/// The target among the candidates: the last number greater than 100.
pub open spec fn target_of(candidates: Seq<Option<i32>>) -> Option<i32>
    decreases candidates.len(),
{
    if candidates.len() == 0 {
        None
    } else {
        match candidates.last() {
            Some(v) => if v > 100 {
                Some(v)
            } else {
                target_of(candidates.drop_last())
            },
            None => target_of(candidates.drop_last()),
        }
    }
}

/// The problem that the candidates hold: operands and target, where there is
/// a target and there are two operands at least.
pub open spec fn select_spec(candidates: Seq<Option<i32>>) -> Result<(Seq<i32>, i32), InputError> {
    match target_of(candidates) {
        None => Err(InputError::NothingToFind),
        Some(target) => if operands_of(candidates).len() < 2 {
            Err(InputError::TooFewNumbers)
        } else {
            Ok((operands_of(candidates), target))
        },
    }
}

/// Sorts the candidates into operands and target. A candidate that is no
/// number, or a number below 1, is passed over.
pub fn select_inputs(candidates: &Vec<Option<i32>>) -> (problem: Result<(Vec<i32>, i32), InputError>)
    ensures
        match problem {
            Ok((numbers, target)) => select_spec(candidates@) == Ok::<
                (Seq<i32>, i32),
                InputError,
            >((numbers@, target)),
            Err(e) => select_spec(candidates@) == Err::<(Seq<i32>, i32), InputError>(e),
        },
{
    let mut numbers: Vec<i32> = Vec::new();
    let mut find_me: Option<i32> = None;
    let mut i: usize = 0;
    while i < candidates.len()
        invariant
            i <= candidates.len(),
            numbers@ == operands_of(candidates@.take(i as int)),
            find_me == target_of(candidates@.take(i as int)),
        decreases candidates.len() - i,
    {
        assert(candidates@.take(i + 1).drop_last() =~= candidates@.take(i as int));
        match candidates[i] {
            Some(number) => {
                if number > 100 {
                    find_me = Some(number);
                } else if number >= 1 {
                    numbers.push(number);
                }
            },
            None => {},
        }
        i += 1;
    }
    assert(candidates@.take(i as int) =~= candidates@);
    match find_me {
        None => Err(InputError::NothingToFind),
        Some(target) => {
            if numbers.len() < 2 {
                Err(InputError::TooFewNumbers)
            } else {
                Ok((numbers, target))
            }
        },
    }
}

/// The candidates that the words write.
pub open spec fn candidates_of(args: Seq<String>) -> Seq<Option<i32>> {
    args.map_values(|word: String| parse_spec(word@))
}

/// Reads a problem from the words of a command line: every number greater
/// than 100 is a target, of which the last one counts; every number from 1 to
/// 100 is an operand; every other word is passed over.
pub fn parse_args(args: &Vec<String>) -> (problem: Result<(Vec<i32>, i32), InputError>)
    ensures
        match problem {
            Ok((numbers, target)) => select_spec(candidates_of(args@)) == Ok::<
                (Seq<i32>, i32),
                InputError,
            >((numbers@, target)),
            Err(e) => select_spec(candidates_of(args@)) == Err::<(Seq<i32>, i32), InputError>(e),
        },
{
    let mut candidates: Vec<Option<i32>> = Vec::with_capacity(args.len());
    let mut i: usize = 0;
    while i < args.len()
        invariant
            i <= args.len(),
            candidates@ == candidates_of(args@).take(i as int),
        decreases args.len() - i,
    {
        let n = parse_number(args[i].as_str());
        candidates.push(n);
        assert(candidates@ =~= candidates_of(args@).take(i + 1));
        i += 1;
    }
    assert(candidates@ =~= candidates_of(args@));
    select_inputs(&candidates)
}

} // verus!
