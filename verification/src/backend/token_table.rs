//! The `token id` line format of the exported token tables.
use vstd::prelude::*;
use crate::text::{chars_of, string_of};

verus! {

/// Why a token table was refused.
#[derive(Debug, Clone, Copy, PartialEq, Eq, Structural)]
pub enum TokenTableError {
    /// The line (counted from zero) has no separator.
    InvalidLine { line_index: usize },
    /// The id on the line (counted from zero) is not a decimal `usize`.
    InvalidId { line_index: usize },
    /// The id is outside the model vocabulary.
    IdOutOfRange { id: usize },
    /// Two lines name the same id.
    DuplicateId { id: usize },
    /// Some id of the vocabulary has no line.
    NotContiguous,
    /// A special token is not the one the model contract fixes.
    SpecialTokenMismatch { id: usize },
}

/// Where a line is split into token and id.
#[derive(Debug, Clone, Copy, PartialEq, Eq, Structural)]
pub enum TokenSeparator {
    /// At the last space.
    Space,
    /// At the last tab, or at the last space when the line has no tab.
    TabOrSpace,
}

/// A line without the carriage return of a `\r\n` ending.
pub open spec fn strip_carriage_return(line: Seq<char>) -> Seq<char> {
    if line.len() > 0 && line.last() == '\r' {
        line.drop_last()
    } else {
        line
    }
}

/// The lines ended so far and the unfinished line after the first `count`
/// characters of `text`.
pub open spec fn lines_state(text: Seq<char>, count: int) -> (Seq<Seq<char>>, Seq<char>)
    decreases count,
{
    if count <= 0 {
        (Seq::empty(), Seq::empty())
    } else {
        let (done, current) = lines_state(text, count - 1);
        if text[count - 1] == '\n' {
            (done.push(strip_carriage_return(current)), Seq::empty())
        } else {
            (done, current.push(text[count - 1]))
        }
    }
}

/// The lines of `text` as `str::lines` yields them: split after each `\n`,
/// the `\n` and a `\r` before it dropped, and a final line kept only when it
/// is not empty.
pub open spec fn text_lines(text: Seq<char>) -> Seq<Seq<char>> {
    let (done, current) = lines_state(text, text.len() as int);
    if current.len() > 0 {
        done.push(current)
    } else {
        done
    }
}

/// The index of the last `c` in `s`.
pub open spec fn last_index_of(s: Seq<char>, c: char) -> Option<int>
    decreases s.len(),
{
    if s.len() == 0 {
        None
    } else if s.last() == c {
        Some(s.len() - 1)
    } else {
        last_index_of(s.drop_last(), c)
    }
}

proof fn lemma_last_index_in_range(s: Seq<char>, c: char)
    ensures
        last_index_of(s, c) matches Some(i) ==> 0 <= i < s.len() && s[i] == c,
    decreases s.len(),
{
    if s.len() > 0 && s.last() != c {
        lemma_last_index_in_range(s.drop_last(), c);
    }
}

/// `s` split around its last `c`, as `str::rsplit_once` does.
pub open spec fn split_at_last(s: Seq<char>, c: char) -> Option<(Seq<char>, Seq<char>)> {
    match last_index_of(s, c) {
        Some(i) => Some((s.take(i), s.skip(i + 1))),
        None => None,
    }
}

pub open spec fn split_entry(line: Seq<char>, separator: TokenSeparator) -> Option<
    (Seq<char>, Seq<char>),
> {
    match separator {
        TokenSeparator::Space => split_at_last(line, ' '),
        TokenSeparator::TabOrSpace => if last_index_of(line, '\t') is Some {
            split_at_last(line, '\t')
        } else {
            split_at_last(line, ' ')
        },
    }
}

pub open spec fn is_ascii_digit(c: char) -> bool {
    '0' <= c <= '9'
}

/// The value of a string of decimal digits.
pub open spec fn decimal_value(digits: Seq<char>) -> nat
    decreases digits.len(),
{
    if digits.len() == 0 {
        0
    } else {
        decimal_value(digits.drop_last()) * 10 + (digits.last() as nat - '0' as nat) as nat
    }
}

/// `s` parsed as `usize` does: an optional `+`, at least one ASCII digit,
/// nothing else, and a value that fits.
pub open spec fn parse_usize(s: Seq<char>) -> Option<usize> {
    if usize_digits(s).len() > 0 && (forall|i: int|
        0 <= i < usize_digits(s).len() ==> is_ascii_digit(#[trigger] usize_digits(s)[i]))
        && decimal_value(usize_digits(s)) <= usize::MAX {
        Some(decimal_value(usize_digits(s)) as usize)
    } else {
        None
    }
}

/// The digits of a `usize` literal: everything after an optional `+`.
pub open spec fn usize_digits(s: Seq<char>) -> Seq<char> {
    if s.len() > 0 && s[0] == '+' {
        s.drop_first()
    } else {
        s
    }
}

/// The table after the first `count` lines, or the first refusal.
pub open spec fn fill_table(
    lines: Seq<Seq<char>>,
    size: nat,
    separator: TokenSeparator,
    count: int,
) -> Result<Seq<Option<Seq<char>>>, TokenTableError>
    decreases count,
{
    if count <= 0 {
        Ok(Seq::new(size, |i: int| None::<Seq<char>>))
    } else {
        match fill_table(lines, size, separator, count - 1) {
            Err(e) => Err(e),
            Ok(table) => {
                let line_index = (count - 1) as usize;
                match split_entry(lines[count - 1], separator) {
                    None => Err(TokenTableError::InvalidLine { line_index }),
                    Some((token, raw_id)) => match parse_usize(raw_id) {
                        None => Err(TokenTableError::InvalidId { line_index }),
                        Some(id) => if id >= size {
                            Err(TokenTableError::IdOutOfRange { id })
                        } else if table[id as int] is Some {
                            Err(TokenTableError::DuplicateId { id })
                        } else {
                            Ok(table.update(id as int, Some(token)))
                        },
                    },
                }
            },
        }
    }
}

/// The tokens of a table with one line for each id below `size`.
pub open spec fn spec_parse_token_table(
    text: Seq<char>,
    size: nat,
    separator: TokenSeparator,
) -> Result<Seq<Seq<char>>, TokenTableError> {
    let lines = text_lines(text);
    match fill_table(lines, size, separator, lines.len() as int) {
        Err(e) => Err(e),
        Ok(table) => if exists|i: int| 0 <= i < size && table[i] is None {
            Err(TokenTableError::NotContiguous)
        } else {
            Ok(table.map_values(|entry: Option<Seq<char>>| entry.unwrap()))
        },
    }
}

pub open spec fn strings_view(strings: Seq<String>) -> Seq<Seq<char>> {
    strings.map_values(|s: String| s@)
}

pub open spec fn lines_view(lines: Seq<Vec<char>>) -> Seq<Seq<char>> {
    lines.map_values(|line: Vec<char>| line@)
}

pub open spec fn table_view(table: Seq<Option<Vec<char>>>) -> Seq<Option<Seq<char>>> {
    table.map_values(
        |entry: Option<Vec<char>>|
            match entry {
                Some(token) => Some(token@),
                None => None,
            },
    )
}

fn strip_cr(line: Vec<char>) -> (r: Vec<char>)
    ensures
        r@ == strip_carriage_return(line@),
{
    let mut line = line;
    if line.len() > 0 && line[line.len() - 1] == '\r' {
        line.pop();
    }
    line
}

/// Splits text into lines as `str::lines` does.
fn split_lines(text: &Vec<char>) -> (r: Vec<Vec<char>>)
    ensures
        lines_view(r@) == text_lines(text@),
{
    let mut done: Vec<Vec<char>> = Vec::new();
    let mut current: Vec<char> = Vec::new();
    let mut k: usize = 0;
    while k < text.len()
        invariant
            k <= text.len(),
            (lines_view(done@), current@) == lines_state(text@, k as int),
        decreases text.len() - k,
    {
        if text[k] == '\n' {
            let finished = strip_cr(current);
            let ghost before = done@;
            done.push(finished);
            assert(lines_view(done@) =~= lines_view(before).push(finished@));
            current = Vec::new();
        } else {
            current.push(text[k]);
        }
        k = k + 1;
    }
    if current.len() > 0 {
        let ghost before = done@;
        done.push(current);
        assert(lines_view(done@) =~= lines_view(before).push(current@));
    }
    done
}

fn find_last(line: &Vec<char>, c: char) -> (r: Option<usize>)
    ensures
        match last_index_of(line@, c) {
            Some(i) => r == Some(i as usize) && 0 <= i < line.len(),
            None => r is None,
        },
        r matches Some(i) ==> i < line.len(),
{
    proof {
        lemma_last_index_in_range(line@, c);
    }
    assert(line@.take(line.len() as int) =~= line@);
    let mut k: usize = line.len();
    while k > 0
        invariant
            k <= line.len(),
            last_index_of(line@, c) == last_index_of(line@.take(k as int), c),
        decreases k,
    {
        assert(line@.take(k as int).last() == line@[k - 1]);
        if line[k - 1] == c {
            return Some(k - 1);
        }
        assert(line@.take(k as int).drop_last() =~= line@.take(k - 1));
        k = k - 1;
    }
    assert(line@.take(line.len() as int) =~= line@);
    None
}

fn copy_range(line: &Vec<char>, from: usize, to: usize) -> (r: Vec<char>)
    requires
        from <= to <= line.len(),
    ensures
        r@ == line@.subrange(from as int, to as int),
{
    let mut r: Vec<char> = Vec::new();
    let mut k: usize = from;
    while k < to
        invariant
            from <= k <= to <= line.len(),
            r@ == line@.subrange(from as int, k as int),
        decreases to - k,
    {
        r.push(line[k]);
        assert(line@.subrange(from as int, k + 1) =~= line@.subrange(from as int, k as int).push(
            line@[k as int],
        ));
        k = k + 1;
    }
    r
}

fn split_line(line: &Vec<char>, separator: TokenSeparator) -> (r: Option<(Vec<char>, Vec<char>)>)
    ensures
        match split_entry(line@, separator) {
            Some((token, raw_id)) => r matches Some(parts) && parts.0@ == token && parts.1@ == raw_id,
            None => r is None,
        },
{
    let at = match separator {
        TokenSeparator::Space => find_last(line, ' '),
        TokenSeparator::TabOrSpace => match find_last(line, '\t') {
            Some(i) => Some(i),
            None => find_last(line, ' '),
        },
    };
    match at {
        Some(i) => {
            let token = copy_range(line, 0, i);
            let raw_id = copy_range(line, i + 1, line.len());
            assert(line@.take(i as int) =~= line@.subrange(0, i as int));
            assert(line@.skip(i + 1) =~= line@.subrange(i + 1, line.len() as int));
            proof {
                match separator {
                    TokenSeparator::Space => {
                        assert(last_index_of(line@, ' ') == Some(i as int));
                    },
                    TokenSeparator::TabOrSpace => {
                        if last_index_of(line@, '\t') is Some {
                            assert(last_index_of(line@, '\t') == Some(i as int));
                        } else {
                            assert(last_index_of(line@, ' ') == Some(i as int));
                        }
                    },
                }
            }
            Some((token, raw_id))
        },
        None => None,
    }
}

/// A prefix of a digit string has no larger value.
proof fn lemma_decimal_prefix_bound(digits: Seq<char>, k: int)
    requires
        0 <= k <= digits.len(),
    ensures
        decimal_value(digits.take(k)) <= decimal_value(digits),
    decreases digits.len() - k,
{
    if k < digits.len() {
        lemma_decimal_prefix_bound(digits, k + 1);
        assert(digits.take(k + 1).drop_last() =~= digits.take(k));
    } else {
        assert(digits.take(k) =~= digits);
    }
}

/// Parses a decimal `usize` as `str::parse` does.
fn parse_decimal(s: &Vec<char>) -> (r: Option<usize>)
    ensures
        r == parse_usize(s@),
{
    let start: usize = if s.len() > 0 && s[0] == '+' { 1 } else { 0 };
    let ghost digits = usize_digits(s@);
    assert(digits =~= s@.skip(start as int));
    if start >= s.len() {
        return None;
    }
    let mut value: usize = 0;
    let mut k: usize = start;
    while k < s.len()
        invariant
            start <= k <= s.len(),
            digits =~= s@.skip(start as int),
            digits == usize_digits(s@),
            value == decimal_value(digits.take(k - start)),
            forall|i: int| 0 <= i < k - start ==> is_ascii_digit(#[trigger] digits[i]),
        decreases s.len() - k,
    {
        let c = s[k];
        assert(digits[k - start] == c);
        if !('0' <= c && c <= '9') {
            assert(!is_ascii_digit(digits[k - start]));
            assert(!(forall|i: int| 0 <= i < digits.len() ==> is_ascii_digit(#[trigger] digits[i])));
            assert(parse_usize(s@) is None);
            return None;
        }
        let d = (c as u32 - '0' as u32) as usize;
        assert(d == c as nat - '0' as nat);
        assert(digits.take(k + 1 - start).drop_last() =~= digits.take(k - start));
        assert(digits.take(k + 1 - start).last() == c);
        assert(decimal_value(digits.take(k + 1 - start)) == value * 10 + d);
        match value.checked_mul(10) {
            None => {
                proof {
                    lemma_decimal_prefix_bound(digits, k + 1 - start);
                }
                return None;
            },
            Some(shifted) => match shifted.checked_add(d) {
                None => {
                    proof {
                        lemma_decimal_prefix_bound(digits, k + 1 - start);
                    }
                    return None;
                },
                Some(next) => {
                    value = next;
                },
            },
        }
        k = k + 1;
    }
    assert(digits.take(k - start) =~= digits);
    Some(value)
}

/// Once a line is refused, later lines do not change the outcome.
proof fn lemma_refusal_is_final(
    lines: Seq<Seq<char>>,
    size: nat,
    separator: TokenSeparator,
    count: int,
    last: int,
)
    requires
        0 <= count <= last,
        fill_table(lines, size, separator, count) is Err,
    ensures
        fill_table(lines, size, separator, last) == fill_table(lines, size, separator, count),
    decreases last - count,
{
    if count < last {
        lemma_refusal_is_final(lines, size, separator, count, last - 1);
    }
}

/// Parses a token table: every line is a token, a separator and its id;
/// each id below `size` must occur exactly once.
pub fn parse_token_table(contents: &str, size: usize, separator: TokenSeparator) -> (r: Result<
    Vec<String>,
    TokenTableError,
>)
    ensures
        match spec_parse_token_table(contents@, size as nat, separator) {
            Ok(tokens) => r is Ok && strings_view(r->Ok_0@) == tokens,
            Err(e) => r == Err::<Vec<String>, TokenTableError>(e),
        },
{
    let text = chars_of(contents);
    let lines = split_lines(&text);
    let ghost all = lines_view(lines@);
    assert(all == text_lines(contents@));
    let mut table: Vec<Option<Vec<char>>> = Vec::new();
    let mut k: usize = 0;
    while k < size
        invariant
            k <= size,
            table.len() == k,
            forall|i: int| 0 <= i < k ==> (#[trigger] table@[i]) is None,
        decreases size - k,
    {
        table.push(None);
        k = k + 1;
    }
    assert(table_view(table@) =~= Seq::new(size as nat, |i: int| None::<Seq<char>>));
    let mut index: usize = 0;
    while index < lines.len()
        invariant
            index <= lines.len(),
            all == lines_view(lines@),
            all == text_lines(contents@),
            table.len() == size,
            fill_table(all, size as nat, separator, index as int) == Ok::<
                Seq<Option<Seq<char>>>,
                TokenTableError,
            >(table_view(table@)),
        decreases lines.len() - index,
    {
        let ghost before = table_view(table@);
        assert(all[index as int] == lines@[index as int]@);
        let refusal = match split_line(&lines[index], separator) {
            None => Some(TokenTableError::InvalidLine { line_index: index }),
            Some((token, raw_id)) => match parse_decimal(&raw_id) {
                None => Some(TokenTableError::InvalidId { line_index: index }),
                Some(id) => {
                    if id >= size {
                        Some(TokenTableError::IdOutOfRange { id })
                    } else if table[id].is_some() {
                        Some(TokenTableError::DuplicateId { id })
                    } else {
                        table.set(id, Some(token));
                        assert(table_view(table@) =~= before.update(id as int, Some(token@)));
                        None
                    }
                },
            },
        };
        if let Some(error) = refusal {
            proof {
                lemma_refusal_is_final(all, size as nat, separator, index + 1, all.len() as int);
            }
            return Err(error);
        }
        index = index + 1;
    }
    let ghost filled = table_view(table@);
    let mut tokens: Vec<String> = Vec::new();
    let mut id: usize = 0;
    while id < size
        invariant
            id <= size,
            table.len() == size,
            filled == table_view(table@),
            all == text_lines(contents@),
            fill_table(all, size as nat, separator, all.len() as int) == Ok::<
                Seq<Option<Seq<char>>>,
                TokenTableError,
            >(filled),
            forall|i: int| 0 <= i < id ==> (#[trigger] filled[i]) is Some,
            strings_view(tokens@) == filled.take(id as int).map_values(
                |entry: Option<Seq<char>>| entry.unwrap(),
            ),
        decreases size - id,
    {
        match &table[id] {
            None => {
                assert(filled[id as int] is None);
                return Err(TokenTableError::NotContiguous);
            },
            Some(token) => {
                let ghost before = tokens@;
                tokens.push(string_of(token));
                assert(strings_view(tokens@) =~= strings_view(before).push(token@));
                assert(filled.take(id + 1).map_values(|entry: Option<Seq<char>>| entry.unwrap())
                    =~= filled.take(id as int).map_values(
                    |entry: Option<Seq<char>>| entry.unwrap(),
                ).push(token@));
            },
        }
        id = id + 1;
    }
    assert(filled.take(size as int) =~= filled);
    Ok(tokens)
}

/// A parsed table whose token `id` must be `expected`.
pub open spec fn with_special_token(
    parsed: Result<Seq<Seq<char>>, TokenTableError>,
    id: usize,
    expected: Seq<char>,
) -> Result<Seq<Seq<char>>, TokenTableError> {
    match parsed {
        Ok(tokens) => if id < tokens.len() && tokens[id as int] == expected {
            Ok(tokens)
        } else {
            Err(TokenTableError::SpecialTokenMismatch { id })
        },
        Err(e) => Err(e),
    }
}

/// The outcome `parsed` as the executable result `r` reports it.
pub open spec fn reports(
    r: Result<Vec<String>, TokenTableError>,
    parsed: Result<Seq<Seq<char>>, TokenTableError>,
) -> bool {
    match parsed {
        Ok(tokens) => r is Ok && strings_view(r->Ok_0@) == tokens,
        Err(e) => r == Err::<Vec<String>, TokenTableError>(e),
    }
}

/// Refuses a parsed table whose token `id` is not `expected`.
pub fn require_special_token(
    parsed: Result<Vec<String>, TokenTableError>,
    id: usize,
    expected: &str,
) -> (r: Result<Vec<String>, TokenTableError>)
    ensures
        forall|outcome: Result<Seq<Seq<char>>, TokenTableError>|
            reports(parsed, outcome) ==> reports(r, with_special_token(outcome, id, expected@)),
{
    match parsed {
        Err(e) => Err(e),
        Ok(tokens) => {
            if id < tokens.len() && tokens[id] == expected.to_owned() {
                Ok(tokens)
            } else {
                Err(TokenTableError::SpecialTokenMismatch { id })
            }
        },
    }
}

/// A table of `size` tokens separated from their ids by a space, whose
/// `blank_id` token is `<blk>`.
pub open spec fn spec_parse_blank_table(text: Seq<char>, size: nat, blank_id: usize) -> Result<
    Seq<Seq<char>>,
    TokenTableError,
> {
    with_special_token(spec_parse_token_table(text, size, TokenSeparator::Space), blank_id, "<blk>"@)
}

pub fn parse_blank_table(contents: &str, size: usize, blank_id: usize) -> (r: Result<
    Vec<String>,
    TokenTableError,
>)
    ensures
        reports(r, spec_parse_blank_table(contents@, size as nat, blank_id)),
{
    let parsed = parse_token_table(contents, size, TokenSeparator::Space);
    assert(reports(parsed, spec_parse_token_table(contents@, size as nat, TokenSeparator::Space)));
    require_special_token(parsed, blank_id, "<blk>")
}

} // verus!
