//! The weeks in which a class meets, read from the week line of its cell:
//! single weeks and ranges of weeks, with commas between them.

use crate::error::ParseError;
use crate::text::{
    decimal_text, is_digit, is_space, lemma_decimal_text, lemma_parse_decimal, lemma_split_pair,
    lemma_split_plain, lemma_trim_unspaced, parse_number, parse_number_text, pieces_of,
    split_chars, split_text, trim_chars, trim_text,
};
use vstd::prelude::*;

verus! {

/// The number of academic weeks in a semester.
pub const WEEK_COUNT: usize = 14;

/// A week bitmap without any week.
pub open spec fn no_weeks() -> Seq<bool> {
    Seq::new(WEEK_COUNT as nat, |i: int| false)
}

/// The bitmap `weeks` with the weeks `first` to `last` added, both counted
/// from 1 and both included.
pub open spec fn mark_weeks(weeks: Seq<bool>, first: int, last: int) -> Seq<bool> {
    Seq::new(weeks.len(), |i: int| weeks[i] || first - 1 <= i <= last - 1)
}

/// The weeks that one token of a week line names, as the first and the last
/// of them. A token is a single week or two weeks with a hyphen between them.
pub open spec fn week_token_range(token: Seq<char>, row: usize, column: usize) -> Result<
    (usize, usize),
    ParseError,
> {
    let parts = split_text(trim_text(token), '-');
    if parts.len() == 1 {
        match parse_number_text(parts[0]) {
            Some(week) => if 1 <= week <= WEEK_COUNT {
                Ok((week, week))
            } else {
                Err(ParseError::Range { row, column })
            },
            None => Err(ParseError::Range { row, column }),
        }
    } else if parts.len() == 2 {
        match (parse_number_text(parts[0]), parse_number_text(parts[1])) {
            (Some(first), Some(last)) => if 1 <= first <= last <= WEEK_COUNT {
                Ok((first, last))
            } else {
                Err(ParseError::Range { row, column })
            },
            _ => Err(ParseError::Range { row, column }),
        }
    } else {
        Err(ParseError::ContentFormat { row, column })
    }
}

/// The bitmap that the tokens of a week line give, or the error of the first
/// token that names no weeks.
pub open spec fn weeks_of_tokens(tokens: Seq<Seq<char>>, row: usize, column: usize) -> Result<
    Seq<bool>,
    ParseError,
>
    decreases tokens.len(),
{
    if tokens.len() == 0 {
        Ok(no_weeks())
    } else {
        match weeks_of_tokens(tokens.drop_last(), row, column) {
            Err(e) => Err(e),
            Ok(weeks) => match week_token_range(tokens.last(), row, column) {
                Err(e) => Err(e),
                Ok((first, last)) => Ok(mark_weeks(weeks, first as int, last as int)),
            },
        }
    }
}

/// The bitmap that the list of weeks `text` gives: tokens with commas between
/// them.
pub open spec fn weeks_of_text(text: Seq<char>, row: usize, column: usize) -> Result<
    Seq<bool>,
    ParseError,
> {
    weeks_of_tokens(split_text(trim_text(text), ','), row, column)
}

/// Reads one token of a week line.
pub fn parse_week_token(token: &Vec<char>, row: usize, column: usize) -> (range: Result<
    (usize, usize),
    ParseError,
>)
    ensures
        range == week_token_range(token@, row, column),
{
    let trimmed = trim_chars(token);
    let parts = split_chars(&trimmed, '-');
    proof {
        assert(pieces_of(parts@).len() == parts.len());
        if parts.len() >= 1 {
            assert(pieces_of(parts@)[0] == parts@[0]@);
        }
        if parts.len() >= 2 {
            assert(pieces_of(parts@)[1] == parts@[1]@);
        }
    }
    if parts.len() == 1 {
        match parse_number(&parts[0]) {
            Some(week) => {
                if 1 <= week && week <= WEEK_COUNT {
                    Ok((week, week))
                } else {
                    Err(ParseError::Range { row, column })
                }
            },
            None => Err(ParseError::Range { row, column }),
        }
    } else if parts.len() == 2 {
        let first = parse_number(&parts[0]);
        let last = parse_number(&parts[1]);
        match (first, last) {
            (Some(first), Some(last)) => {
                if 1 <= first && first <= last && last <= WEEK_COUNT {
                    Ok((first, last))
                } else {
                    Err(ParseError::Range { row, column })
                }
            },
            _ => Err(ParseError::Range { row, column }),
        }
    } else {
        Err(ParseError::ContentFormat { row, column })
    }
}

/// Reads a list of weeks into a bitmap.
pub fn parse_weeks(text: &Vec<char>, row: usize, column: usize) -> (weeks: Result<
    [bool; 14],
    ParseError,
>)
    ensures
        match weeks {
            Ok(w) => weeks_of_text(text@, row, column) == Ok::<Seq<bool>, ParseError>(w@),
            Err(e) => weeks_of_text(text@, row, column) == Err::<Seq<bool>, ParseError>(e),
        },
{
    let trimmed = trim_chars(text);
    let tokens = split_chars(&trimmed, ',');
    let mut weeks: [bool; 14] = [false; 14];
    proof {
        assert(weeks@ =~= no_weeks());
        assert(pieces_of(tokens@).take(0) =~= Seq::<Seq<char>>::empty());
    }
    let mut k: usize = 0;
    while k < tokens.len()
        invariant
            k <= tokens.len(),
            weeks_of_tokens(pieces_of(tokens@).take(k as int), row, column) == Ok::<
                Seq<bool>,
                ParseError,
            >(weeks@),
            pieces_of(tokens@) == split_text(trim_text(text@), ','),
        decreases tokens.len() - k,
    {
        let ghost upto = pieces_of(tokens@).take(k + 1);
        proof {
            assert(upto.drop_last() == pieces_of(tokens@).take(k as int));
            assert(upto.last() == tokens@[k as int]@);
        }
        match parse_week_token(&tokens[k], row, column) {
            Err(e) => {
                proof {
                    lemma_weeks_error_stays(pieces_of(tokens@), k + 1, row, column);
                }
                return Err(e);
            },
            Ok((first, last)) => {
                let ghost before = weeks@;
                let mut i: usize = first - 1;
                while i < last
                    invariant
                        1 <= first <= last <= WEEK_COUNT,
                        first - 1 <= i <= last,
                        weeks@ == Seq::new(
                            WEEK_COUNT as nat,
                            |j: int| before[j] || first - 1 <= j < i,
                        ),
                        before.len() == WEEK_COUNT,
                    decreases last - i,
                {
                    weeks[i] = true;
                    i += 1;
                }
                proof {
                    assert(weeks@ == mark_weeks(before, first as int, last as int));
                }
            },
        }
        k += 1;
    }
    proof {
        assert(pieces_of(tokens@).take(tokens.len() as int) == pieces_of(tokens@));
    }
    Ok(weeks)
}

/// Once the tokens up to some point give an error, all the tokens give it.
proof fn lemma_weeks_error_stays(tokens: Seq<Seq<char>>, k: int, row: usize, column: usize)
    requires
        0 <= k <= tokens.len(),
        weeks_of_tokens(tokens.take(k), row, column) is Err,
    ensures
        weeks_of_tokens(tokens, row, column) == weeks_of_tokens(tokens.take(k), row, column),
    decreases tokens.len() - k,
{
    if k == tokens.len() {
        assert(tokens.take(k) == tokens);
    } else {
        assert(tokens.drop_last().take(k) == tokens.take(k));
        lemma_weeks_error_stays(tokens.drop_last(), k, row, column);
    }
}

/// Whether the token names weeks, and the given week among them.
pub open spec fn token_names_week(token: Seq<char>, row: usize, column: usize, week: int) -> bool {
    match week_token_range(token, row, column) {
        Ok((first, last)) => first <= week <= last,
        Err(_) => false,
    }
}

/// Whether one of the tokens names the given week.
pub open spec fn some_token_names_week(
    tokens: Seq<Seq<char>>,
    row: usize,
    column: usize,
    week: int,
) -> bool {
    exists|k: int|
        0 <= k < tokens.len() && token_names_week(#[trigger] tokens[k], row, column, week)
}

/// Where every token of a week line names weeks, the bitmap of the line marks
/// the weeks that some token names, and no others. Where a token names none,
/// the line is refused.
pub proof fn lemma_weeks_of_tokens(tokens: Seq<Seq<char>>, row: usize, column: usize)
    ensures
        weeks_of_tokens(tokens, row, column) is Ok <==> forall|k: int|
            0 <= k < tokens.len() ==> week_token_range(#[trigger] tokens[k], row, column) is Ok,
        weeks_of_tokens(tokens, row, column) matches Ok(weeks) ==> weeks.len() == WEEK_COUNT
            && forall|i: int|
            0 <= i < WEEK_COUNT ==> (#[trigger] weeks[i] <==> some_token_names_week(
                tokens,
                row,
                column,
                i + 1,
            )),
    decreases tokens.len(),
{
    if tokens.len() > 0 {
        let before = tokens.drop_last();
        lemma_weeks_of_tokens(before, row, column);
        assert forall|k: int| 0 <= k < before.len() implies before[k] == tokens[k] by {}
        if weeks_of_tokens(before, row, column) is Ok {
            assert forall|k: int| 0 <= k < before.len() implies week_token_range(
                #[trigger] tokens[k],
                row,
                column,
            ) is Ok by {
                assert(week_token_range(before[k], row, column) is Ok);
            }
        } else {
            let bad = choose|k: int|
                0 <= k < before.len() && !(week_token_range(#[trigger] before[k], row, column)
                    is Ok);
            assert(!(week_token_range(tokens[bad], row, column) is Ok));
        }
        if let Ok(weeks) = weeks_of_tokens(tokens, row, column) {
            let earlier = weeks_of_tokens(before, row, column)->Ok_0;
            assert forall|i: int| 0 <= i < WEEK_COUNT implies (#[trigger] weeks[i]
                <==> some_token_names_week(tokens, row, column, i + 1)) by {
                if earlier[i] {
                    let k = choose|k: int|
                        0 <= k < before.len() && token_names_week(
                            #[trigger] before[k],
                            row,
                            column,
                            i + 1,
                        );
                    assert(token_names_week(tokens[k], row, column, i + 1));
                } else if weeks[i] {
                    assert(token_names_week(tokens[tokens.len() - 1], row, column, i + 1));
                }
                if some_token_names_week(tokens, row, column, i + 1) {
                    let k = choose|k: int|
                        0 <= k < tokens.len() && token_names_week(
                            #[trigger] tokens[k],
                            row,
                            column,
                            i + 1,
                        );
                    if k < before.len() {
                        assert(token_names_week(before[k], row, column, i + 1));
                    }
                }
            }
        }
    }
}

/// The number of weeks that a bitmap marks.
pub open spec fn marked_count(weeks: Seq<bool>) -> nat
    decreases weeks.len(),
{
    if weeks.len() == 0 {
        0
    } else if weeks.last() {
        marked_count(weeks.drop_last()) + 1
    } else {
        marked_count(weeks.drop_last())
    }
}

/// Up to any point, a range of weeks marks what lies of it before that point.
proof fn lemma_marked_until(first: int, last: int, upto: int)
    requires
        1 <= first <= last <= WEEK_COUNT,
        0 <= upto <= WEEK_COUNT,
    ensures
        marked_count(mark_weeks(no_weeks(), first, last).take(upto)) == if upto < first {
            0
        } else if upto <= last {
            upto - first + 1
        } else {
            last - first + 1
        },
    decreases upto,
{
    let weeks = mark_weeks(no_weeks(), first, last);
    if upto > 0 {
        lemma_marked_until(first, last, upto - 1);
        assert(weeks.take(upto).drop_last() == weeks.take(upto - 1));
        assert(weeks.take(upto).last() == weeks[upto - 1]);
    }
}

/// A range of weeks marks the weeks from its first to its last, and no
/// others: as many as the range is long.
pub proof fn lemma_week_range_marks(first: int, last: int)
    requires
        1 <= first <= last <= WEEK_COUNT,
    ensures
        mark_weeks(no_weeks(), first, last).len() == WEEK_COUNT,
        forall|i: int|
            0 <= i < WEEK_COUNT ==> (#[trigger] mark_weeks(no_weeks(), first, last)[i] <==> first
                - 1 <= i <= last - 1),
        marked_count(mark_weeks(no_weeks(), first, last)) == last - first + 1,
{
    let weeks = mark_weeks(no_weeks(), first, last);
    lemma_marked_until(first, last, WEEK_COUNT as int);
    assert(weeks.take(WEEK_COUNT as int) == weeks);
}

/// A decimal number holds no white space, no comma, no hyphen and no sign.
proof fn lemma_decimal_is_plain(n: nat)
    ensures
        decimal_text(n).len() >= 1,
        forall|i: int|
            0 <= i < decimal_text(n).len() ==> {
                let c = #[trigger] decimal_text(n)[i];
                !is_space(c) && c != ',' && c != '-' && c != '+'
            },
{
    lemma_decimal_text(n);
    assert forall|i: int| 0 <= i < decimal_text(n).len() implies {
        let c = #[trigger] decimal_text(n)[i];
        !is_space(c) && c != ',' && c != '-' && c != '+'
    } by {
        assert(is_digit(decimal_text(n)[i]));
    }
}

/// A week line that names one week in decimal digits gives that week; where
/// the number is no week of the semester, the line is refused.
pub proof fn lemma_single_week_text(week: nat, row: usize, column: usize)
    requires
        week <= usize::MAX,
    ensures
        weeks_of_text(decimal_text(week), row, column) == if 1 <= week <= WEEK_COUNT {
            Ok::<Seq<bool>, ParseError>(mark_weeks(no_weeks(), week as int, week as int))
        } else {
            Err::<Seq<bool>, ParseError>(ParseError::Range { row, column })
        },
{
    let token = decimal_text(week);
    lemma_decimal_is_plain(week);
    lemma_parse_decimal(week);
    lemma_trim_unspaced(token);
    lemma_split_plain(token, ',');
    lemma_split_plain(token, '-');
    let tokens = seq![token];
    assert(tokens.drop_last() == Seq::<Seq<char>>::empty());
    assert(weeks_of_tokens(tokens.drop_last(), row, column) == Ok::<Seq<bool>, ParseError>(
        no_weeks(),
    ));
}

/// A week line that names a range of weeks, as two decimal numbers with a
/// hyphen between them, gives the weeks of the range. Where one of the
/// numbers is no week of the semester, or the second is less than the first,
/// the line is refused.
pub proof fn lemma_week_range_text(first: nat, last: nat, row: usize, column: usize)
    requires
        first <= usize::MAX,
        last <= usize::MAX,
    ensures
        weeks_of_text(decimal_text(first) + seq!['-'] + decimal_text(last), row, column) == if 1
            <= first <= last <= WEEK_COUNT {
            Ok::<Seq<bool>, ParseError>(mark_weeks(no_weeks(), first as int, last as int))
        } else {
            Err::<Seq<bool>, ParseError>(ParseError::Range { row, column })
        },
{
    let token = decimal_text(first) + seq!['-'] + decimal_text(last);
    lemma_decimal_is_plain(first);
    lemma_decimal_is_plain(last);
    lemma_parse_decimal(first);
    lemma_parse_decimal(last);
    assert(token[0] == decimal_text(first)[0]);
    assert(token.last() == decimal_text(last).last());
    lemma_trim_unspaced(token);
    assert forall|i: int| 0 <= i < token.len() implies token[i] != ',' by {
        if i < decimal_text(first).len() {
            assert(token[i] == decimal_text(first)[i]);
        } else if i > decimal_text(first).len() {
            assert(token[i] == decimal_text(last)[i - decimal_text(first).len() - 1]);
        }
    }
    lemma_split_plain(token, ',');
    lemma_split_pair(decimal_text(first), decimal_text(last), '-');
    let tokens = seq![token];
    assert(tokens.drop_last() == Seq::<Seq<char>>::empty());
    assert(weeks_of_tokens(tokens.drop_last(), row, column) == Ok::<Seq<bool>, ParseError>(
        no_weeks(),
    ));
}

} // verus!
