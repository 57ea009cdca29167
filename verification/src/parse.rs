//! The text form of a problem: a header line, then one line for each job
//! with pairs of machine number and duration, set apart by white space. The
//! text is taken as UTF-8, and white space is what Unicode calls so.

use crate::cfg::check_jobs;
use crate::cfg::jobs_view;
use crate::cfg::Config;
use crate::cfg::InputError;
use crate::cfg::Operation;
use vstd::prelude::*;

verus! {

/// A white-space character of one byte: a blank, a tab, a line feed, a
/// vertical tab, a form feed or a carriage return.
pub open spec fn is_space(byte: u8) -> bool {
    byte == 0x20 || (0x09 <= byte && byte <= 0x0d)
}

/// A white-space character of two bytes: the next-line character U+0085 or
/// the no-break space U+00A0.
pub open spec fn is_space_pair(first: u8, second: u8) -> bool {
    first == 0xc2 && (second == 0x85 || second == 0xa0)
}

/// A white-space character of three bytes: U+1680, one of U+2000 to U+200A,
/// U+2028, U+2029, U+202F, U+205F or U+3000.
pub open spec fn is_space_triple(first: u8, second: u8, third: u8) -> bool {
    ||| first == 0xe1 && second == 0x9a && third == 0x80
    ||| first == 0xe2 && second == 0x80 && ((0x80 <= third && third <= 0x8a) || third == 0xa8
        || third == 0xa9 || third == 0xaf)
    ||| first == 0xe2 && second == 0x81 && third == 0x9f
    ||| first == 0xe3 && second == 0x80 && third == 0x80
}

/// How many bytes the white-space character takes that starts at position
/// `i` and ends before `to`; zero where none starts there.
pub open spec fn space_len(text: Seq<u8>, i: int, to: int) -> int {
    if i < to && is_space(text[i]) {
        1
    } else if i + 1 < to && is_space_pair(text[i], text[i + 1]) {
        2
    } else if i + 2 < to && is_space_triple(text[i], text[i + 1], text[i + 2]) {
        3
    } else {
        0
    }
}

/// One of the ten decimal digits.
pub open spec fn is_digit(byte: u8) -> bool {
    0x30 <= byte && byte <= 0x39
}

/// The first position from `from` on and before `to` at which no white
/// space starts, with nothing but white space before it; `to` if white space
/// fills the rest.
pub open spec fn skip_spaces(text: Seq<u8>, from: int, to: int) -> int
    decreases to - from,
{
    if from >= to {
        to
    } else if space_len(text, from, to) > 0 {
        skip_spaces(text, from + space_len(text, from, to), to)
    } else {
        from
    }
}

/// The first position from `from` on and before `to` at which white space
/// starts, or `to` if there is none.
pub open spec fn token_end(text: Seq<u8>, from: int, to: int) -> int
    decreases to - from,
{
    if from >= to {
        to
    } else if space_len(text, from, to) > 0 {
        from
    } else {
        token_end(text, from + 1, to)
    }
}

/// The first position from `from` on that holds a line feed, or the length
/// of the text if there is none.
pub open spec fn line_end(text: Seq<u8>, from: int) -> int
    decreases text.len() - from,
{
    if from >= text.len() {
        text.len() as int
    } else if text[from] == 0x0a {
        from
    } else {
        line_end(text, from + 1)
    }
}

/// The bytes from `from` up to `to` are digits.
pub open spec fn all_digits(text: Seq<u8>, from: int, to: int) -> bool {
    forall|i: int| from <= i < to ==> is_digit(#[trigger] text[i])
}

/// The number that the digits from `from` up to `to` denote.
pub open spec fn digits_value(text: Seq<u8>, from: int, to: int) -> int
    decreases to - from,
{
    if from >= to {
        0
    } else {
        digits_value(text, from, to - 1) * 10 + (text[to - 1] - 0x30)
    }
}

/// The number that the token from `from` up to `to` denotes: digits, at
/// least one, with or without a plus sign before them.
pub open spec fn number(text: Seq<u8>, from: int, to: int) -> Option<int> {
    let first = if from < to && text[from] == 0x2b {
        from + 1
    } else {
        from
    };
    if first < to && all_digits(text, first, to) {
        Some(digits_value(text, first, to))
    } else {
        None
    }
}

/// The machine number that the token from `from` up to `to` denotes.
pub open spec fn machine_of(text: Seq<u8>, from: int, to: int) -> Result<usize, InputError> {
    match number(text, from, to) {
        Some(value) => if value > usize::MAX {
            Err(InputError::BadMachine { start: from as usize, end: to as usize })
        } else if value == usize::MAX {
            Err(InputError::MachineTooLarge)
        } else {
            Ok(value as usize)
        },
        None => Err(InputError::BadMachine { start: from as usize, end: to as usize }),
    }
}

/// The duration that the token from `from` up to `to` denotes.
pub open spec fn duration_of(text: Seq<u8>, from: int, to: int) -> Result<u64, InputError> {
    match number(text, from, to) {
        Some(value) => if value > u64::MAX {
            Err(InputError::BadDuration { start: from as usize, end: to as usize })
        } else if value == 0 {
            Err(InputError::ZeroDuration)
        } else {
            Ok(value as u64)
        },
        None => Err(InputError::BadDuration { start: from as usize, end: to as usize }),
    }
}

/// The operations that the bytes from `from` up to `to` of one line denote,
/// or the first error in them.
pub open spec fn job_from(text: Seq<u8>, from: int, to: int) -> Result<Seq<Operation>, InputError>
    decreases to - from,
{
    let machine_start = skip_spaces(text, from, to);
    let machine_end = token_end(text, machine_start, to);
    let duration_start = skip_spaces(text, machine_end, to);
    let duration_end = token_end(text, duration_start, to);
    if machine_start >= to {
        Ok(Seq::empty())
    } else {
        match machine_of(text, machine_start, machine_end) {
            Err(e) => Err(e),
            Ok(machine) => if duration_start >= to {
                Err(InputError::MissingDuration)
            } else {
                match duration_of(text, duration_start, duration_end) {
                    Err(e) => Err(e),
                    Ok(duration) => {
                        proof {
                            lemma_skip_spaces(text, from, to);
                            lemma_token_end(text, machine_start, to);
                            lemma_skip_spaces(text, machine_end, to);
                            lemma_token_end(text, duration_start, to);
                        }
                        match job_from(text, duration_end, to) {
                            Err(e) => Err(e),
                            Ok(rest) => Ok(seq![Operation { duration, machine }] + rest),
                        }
                    },
                }
            },
        }
    }
}

/// The jobs that the lines from position `from` on denote, one job for each
/// line, or the first error in them.
pub open spec fn jobs_from(text: Seq<u8>, from: int) -> Result<Seq<Seq<Operation>>, InputError>
    decreases text.len() + 1 - from,
{
    if from >= text.len() {
        Ok(Seq::empty())
    } else {
        let end = line_end(text, from);
        match job_from(text, from, end) {
            Err(e) => Err(e),
            Ok(job) => {
                proof {
                    lemma_line_end(text, from);
                }
                match jobs_from(text, end + 1) {
                    Err(e) => Err(e),
                    Ok(rest) => Ok(seq![job] + rest),
                }
            },
        }
    }
}

/// The jobs that a text denotes: its first line is a header and is passed
/// over, each further line is one job.
pub open spec fn parse_text(text: Seq<u8>) -> Result<Seq<Seq<Operation>>, InputError> {
    if text.len() == 0 {
        Err(InputError::Empty)
    } else {
        jobs_from(text, line_end(text, 0) + 1)
    }
}

/// What loading a text answers: the first error in the text, or else what
/// `check_jobs` says of its jobs.
pub open spec fn load_outcome(text: Seq<u8>) -> Result<(), InputError> {
    match parse_text(text) {
        Err(e) => Err(e),
        Ok(jobs) => check_jobs(jobs),
    }
}

/// Where `skip_spaces` stops: between `from` and `to`, and where it stops
/// before `to`, no white space starts.
pub proof fn lemma_skip_spaces(text: Seq<u8>, from: int, to: int)
    requires
        from <= to,
    ensures
        from <= skip_spaces(text, from, to) <= to,
        space_len(text, skip_spaces(text, from, to), to) == 0,
    decreases to - from,
{
    if from < to && space_len(text, from, to) > 0 {
        lemma_skip_spaces(text, from + space_len(text, from, to), to);
    }
}

/// Where `token_end` stops: between `from` and `to`, behind positions at
/// which no white space starts, and, where it stops before `to`, at the start
/// of white space. It passes at least one byte where no white space starts at
/// `from`.
pub proof fn lemma_token_end(text: Seq<u8>, from: int, to: int)
    requires
        from <= to,
    ensures
        from <= token_end(text, from, to) <= to,
        forall|i: int|
            from <= i < token_end(text, from, to) ==> #[trigger] space_len(text, i, to) == 0,
        token_end(text, from, to) < to ==> space_len(text, token_end(text, from, to), to) > 0,
        from < to && space_len(text, from, to) == 0 ==> from < token_end(text, from, to),
    decreases to - from,
{
    if from < to && space_len(text, from, to) == 0 {
        lemma_token_end(text, from + 1, to);
    }
}

/// Where `line_end` stops: from `from` on, within the text, behind bytes
/// that are no line feed, and before a line feed.
pub proof fn lemma_line_end(text: Seq<u8>, from: int)
    requires
        from <= text.len(),
    ensures
        from <= line_end(text, from) <= text.len(),
        forall|i: int| from <= i < line_end(text, from) ==> #[trigger] text[i] != 0x0a,
        line_end(text, from) < text.len() ==> text[line_end(text, from)] == 0x0a,
    decreases text.len() - from,
{
    if from < text.len() && text[from] != 0x0a {
        lemma_line_end(text, from + 1);
    }
}

/// Digits denote a number that is not negative.
proof fn lemma_digits_value(text: Seq<u8>, from: int, to: int)
    requires
        all_digits(text, from, to),
    ensures
        0 <= digits_value(text, from, to),
    decreases to - from,
{
    if from < to {
        lemma_digits_value(text, from, to - 1);
        assert(is_digit(text[to - 1]));
    }
}

/// More digits denote no smaller number.
proof fn lemma_digits_grow(text: Seq<u8>, from: int, mid: int, to: int)
    requires
        from <= mid <= to,
        all_digits(text, from, to),
    ensures
        0 <= digits_value(text, from, mid) <= digits_value(text, from, to),
    decreases to - mid,
{
    lemma_digits_value(text, from, mid);
    if mid < to {
        lemma_digits_grow(text, from, mid, to - 1);
        assert(is_digit(text[to - 1]));
    }
}

/// The position of the first byte from `from` on that is a line feed, or
/// the length of the text.
fn find_line_end(text: &[u8], from: usize) -> (end: usize)
    requires
        from <= text@.len(),
    ensures
        end == line_end(text@, from as int),
        from <= end <= text@.len(),
{
    let mut pos = from;
    while pos < text.len() && text[pos] != 0x0a
        invariant
            from <= pos <= text@.len(),
            line_end(text@, from as int) == line_end(text@, pos as int),
        decreases text@.len() - pos,
    {
        pos += 1;
    }
    pos
}

/// The position at which the line begins that holds position `at`: behind
/// the last line feed before `at`, or at the start of the text.
pub fn line_start(text: &[u8], at: usize) -> (start: usize)
    requires
        at <= text@.len(),
    ensures
        start <= at,
        start == 0 || text@[start - 1] == 0x0a,
        forall|i: int| start <= i < at ==> #[trigger] text@[i] != 0x0a,
{
    let mut start = at;
    while start > 0 && text[start - 1] != 0x0a
        invariant
            start <= at <= text@.len(),
            forall|i: int| start <= i < at ==> #[trigger] text@[i] != 0x0a,
        decreases start,
    {
        start -= 1;
    }
    start
}

/// How many bytes the white-space character takes that starts at `i` and
/// ends before `to`; zero where none starts there.
fn space_at(text: &[u8], i: usize, to: usize) -> (len: usize)
    requires
        i <= to <= text@.len(),
    ensures
        len == space_len(text@, i as int, to as int),
{
    if i >= to {
        return 0;
    }
    let first = text[i];
    if first == 0x20 || (0x09 <= first && first <= 0x0d) {
        return 1;
    }
    if to - i < 2 {
        return 0;
    }
    let second = text[i + 1];
    if first == 0xc2 && (second == 0x85 || second == 0xa0) {
        return 2;
    }
    if to - i < 3 {
        return 0;
    }
    let third = text[i + 2];
    if first == 0xe1 && second == 0x9a && third == 0x80 {
        return 3;
    }
    if first == 0xe2 && second == 0x80 && ((0x80 <= third && third <= 0x8a) || third == 0xa8
        || third == 0xa9 || third == 0xaf) {
        return 3;
    }
    if first == 0xe2 && second == 0x81 && third == 0x9f {
        return 3;
    }
    if first == 0xe3 && second == 0x80 && third == 0x80 {
        return 3;
    }
    0
}

/// The first position from `from` on and before `to` at which no white
/// space starts, with nothing but white space before it, or `to`.
fn find_token(text: &[u8], from: usize, to: usize) -> (start: usize)
    requires
        from <= to <= text@.len(),
    ensures
        start == skip_spaces(text@, from as int, to as int),
        from <= start <= to,
{
    let mut pos = from;
    loop
        invariant
            from <= pos <= to <= text@.len(),
            skip_spaces(text@, from as int, to as int) == skip_spaces(text@, pos as int, to as int),
        decreases to - pos,
    {
        let len = space_at(text, pos, to);
        if len == 0 {
            return pos;
        }
        pos += len;
    }
}

/// The first position from `from` on and before `to` at which white space
/// starts, or `to`.
fn find_token_end(text: &[u8], from: usize, to: usize) -> (end: usize)
    requires
        from <= to <= text@.len(),
    ensures
        end == token_end(text@, from as int, to as int),
        from <= end <= to,
{
    let mut pos = from;
    while pos < to && space_at(text, pos, to) == 0
        invariant
            from <= pos <= to <= text@.len(),
            token_end(text@, from as int, to as int) == token_end(text@, pos as int, to as int),
        decreases to - pos,
    {
        pos += 1;
    }
    pos
}

/// The number that the token from `from` up to `to` denotes, if it denotes
/// one and `u64` can hold it.
fn parse_number(text: &[u8], from: usize, to: usize) -> (value: Option<u64>)
    requires
        from <= to <= text@.len(),
    ensures
        match value {
            Some(v) => number(text@, from as int, to as int) == Some(v as int),
            None => match number(text@, from as int, to as int) {
                Some(v) => v > u64::MAX,
                None => true,
            },
        },
{
    let first = if from < to && text[from] == 0x2b {
        from + 1
    } else {
        from
    };
    if first >= to {
        return None;
    }
    let mut value: u64 = 0;
    let mut pos = first;
    while pos < to
        invariant
            first <= pos <= to <= text@.len(),
            first < to,
            first == if from < to && text@[from as int] == 0x2b {
                from + 1
            } else {
                from as int
            },
            all_digits(text@, first as int, pos as int),
            value == digits_value(text@, first as int, pos as int),
        decreases to - pos,
    {
        let byte = text[pos];
        if byte < 0x30 || byte > 0x39 {
            assert(!is_digit(text@[pos as int]));
            assert(!all_digits(text@, first as int, to as int));
            return None;
        }
        assert(is_digit(text@[pos as int]));
        assert(digits_value(text@, first as int, pos + 1) == value * 10 + (byte - 0x30));
        let digit = (byte - 0x30) as u64;
        let next = match value.checked_mul(10) {
            Some(tens) => tens.checked_add(digit),
            None => None,
        };
        match next {
            Some(n) => {
                value = n;
            },
            None => {
                proof {
                    if all_digits(text@, first as int, to as int) {
                        lemma_digits_grow(text@, first as int, pos + 1, to as int);
                    }
                }
                return None;
            },
        }
        pos += 1;
    }
    Some(value)
}

/// The operations of the line from `from` up to `to`, or the first error
/// in it.
fn parse_job(text: &[u8], from: usize, to: usize) -> (r: Result<Vec<Operation>, InputError>)
    requires
        from <= to <= text@.len(),
    ensures
        match r {
            Ok(job) => job_from(text@, from as int, to as int) == Ok::<Seq<Operation>, InputError>(
                job@,
            ),
            Err(e) => job_from(text@, from as int, to as int) == Err::<Seq<Operation>, InputError>(
                e,
            ),
        },
{
    let ghost whole = job_from(text@, from as int, to as int);
    let mut job: Vec<Operation> = Vec::new();
    let mut pos = from;
    loop
        invariant
            from <= pos <= to <= text@.len(),
            whole == job_from(text@, from as int, to as int),
            whole == match job_from(text@, pos as int, to as int) {
                Ok(rest) => Ok::<Seq<Operation>, InputError>(job@ + rest),
                Err(e) => Err(e),
            },
        decreases to - pos,
    {
        proof {
            lemma_skip_spaces(text@, pos as int, to as int);
        }
        let machine_start = find_token(text, pos, to);
        if machine_start >= to {
            assert(job@ + Seq::<Operation>::empty() =~= job@);
            return Ok(job);
        }
        proof {
            lemma_token_end(text@, machine_start as int, to as int);
        }
        let machine_end = find_token_end(text, machine_start, to);
        let machine = match parse_number(text, machine_start, machine_end) {
            None => {
                return Err(InputError::BadMachine { start: machine_start, end: machine_end });
            },
            Some(value) => {
                if value > usize::MAX as u64 {
                    return Err(InputError::BadMachine { start: machine_start, end: machine_end });
                }
                if value == usize::MAX as u64 {
                    return Err(InputError::MachineTooLarge);
                }
                value as usize
            },
        };
        proof {
            lemma_skip_spaces(text@, machine_end as int, to as int);
        }
        let duration_start = find_token(text, machine_end, to);
        if duration_start >= to {
            return Err(InputError::MissingDuration);
        }
        proof {
            lemma_token_end(text@, duration_start as int, to as int);
        }
        let duration_end = find_token_end(text, duration_start, to);
        let duration = match parse_number(text, duration_start, duration_end) {
            None => {
                return Err(InputError::BadDuration { start: duration_start, end: duration_end });
            },
            Some(value) => {
                if value == 0 {
                    return Err(InputError::ZeroDuration);
                }
                value
            },
        };
        proof {
            let ghost before = job@;
            match job_from(text@, duration_end as int, to as int) {
                Ok(rest) => {
                    assert(before + (seq![Operation { duration, machine }] + rest) =~= before.push(
                        Operation { duration, machine },
                    ) + rest);
                },
                Err(_) => {},
            }
        }
        job.push(Operation { duration, machine });
        pos = duration_end;
    }
}

/// The jobs that `text` denotes, or the first error in it.
pub fn parse_jobs(text: &[u8]) -> (r: Result<Vec<Vec<Operation>>, InputError>)
    ensures
        match r {
            Ok(jobs) => parse_text(text@) == Ok::<Seq<Seq<Operation>>, InputError>(
                jobs_view(jobs@),
            ),
            Err(e) => parse_text(text@) == Err::<Seq<Seq<Operation>>, InputError>(e),
        },
{
    if text.len() == 0 {
        return Err(InputError::Empty);
    }
    let ghost whole = parse_text(text@);
    let mut jobs: Vec<Vec<Operation>> = Vec::new();
    let header_end = find_line_end(text, 0);
    if header_end == text.len() {
        assert(jobs_view(jobs@) =~= Seq::<Seq<Operation>>::empty());
        return Ok(jobs);
    }
    let mut pos = header_end + 1;
    while pos < text.len()
        invariant
            pos <= text@.len(),
            whole == parse_text(text@),
            whole == match jobs_from(text@, pos as int) {
                Ok(rest) => Ok::<Seq<Seq<Operation>>, InputError>(jobs_view(jobs@) + rest),
                Err(e) => Err(e),
            },
        decreases text@.len() - pos,
    {
        let end = find_line_end(text, pos);
        match parse_job(text, pos, end) {
            Err(e) => {
                assert(jobs_from(text@, pos as int) == Err::<Seq<Seq<Operation>>, InputError>(e));
                return Err(e);
            },
            Ok(job) => {
                proof {
                    let ghost before = jobs_view(jobs@);
                    assert(jobs_view(jobs@.push(job)) =~= before.push(job@));
                    match jobs_from(text@, end + 1) {
                        Ok(rest) => {
                            assert(before + (seq![job@] + rest) =~= before.push(job@) + rest);
                        },
                        Err(_) => {},
                    }
                }
                jobs.push(job);
            },
        }
        if end == text.len() {
            pos = end;
        } else {
            pos = end + 1;
        }
    }
    assert(jobs_view(jobs@) + Seq::<Seq<Operation>>::empty() =~= jobs_view(jobs@));
    Ok(jobs)
}

impl Config {
    /// Loads the problem that `text` denotes. Answers the first error in the
    /// text, or else what `check_jobs` says of its jobs, and changes nothing
    /// when that is an error.
    pub fn load_text(&mut self, text: &[u8]) -> (r: Result<(), InputError>)
        ensures
            r == load_outcome(text@),
            r is Ok ==> {
                &&& parse_text(text@) == Ok::<Seq<Seq<Operation>>, InputError>(
                    final(self).problem(),
                )
                &&& final(self).problem_wf()
                &&& final(self).population == old(self).population
                &&& final(self).couples == old(self).couples
                &&& final(self).mutation_dist == old(self).mutation_dist
            },
            r is Err ==> *final(self) == *old(self),
    {
        match parse_jobs(text) {
            Err(e) => Err(e),
            Ok(jobs) => self.load_jobs(jobs),
        }
    }
}

} // verus!
