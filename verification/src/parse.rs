//! Line tokenizer: the extraction grammar for the fixed layout
//! `TIMESTAMP NUMBER | LEVEL | MESSAGE`, producing a typed record per line
//! or signaling "no match".

use vstd::prelude::*;
use vstd::string::StrSliceExecFns;
use crate::text::{
    is_digit, is_alpha, char_is_digit, find_char_from, find_char_at, first_non_alpha,
    first_non_space, scan_alpha_end, scan_space_end, lemma_find_char_from,
};
use crate::timestamp::{Timestamp, timestamp_shape, parse_timestamp, is_timestamp_shape};

verus! {

/// Severity of one log line; the set is closed.
#[derive(Clone, Copy, PartialEq, Eq, Structural, Debug)]
pub enum Level {
    Trace,
    Debug,
    Info,
    Warn,
    Error,
}

/// `a` is `b` (an uppercase ASCII letter) up to ASCII case.
pub open spec fn eqi_char(a: char, b: char) -> bool {
    a == b || (a as u32) == (b as u32) + 32
}

/// `s` is `pat` (uppercase ASCII letters) up to ASCII case.
pub open spec fn seq_eqi(s: Seq<char>, pat: Seq<char>) -> bool {
    s.len() == pat.len() && (forall|i: int| 0 <= i < s.len() ==> eqi_char(s[i], pat[i]))
}

/// The severity named by `s`, compared case-insensitively; `None` for any
/// text outside the closed set.
pub open spec fn level_of(s: Seq<char>) -> Option<Level> {
    if seq_eqi(s, "TRACE"@) {
        Some(Level::Trace)
    } else if seq_eqi(s, "DEBUG"@) {
        Some(Level::Debug)
    } else if seq_eqi(s, "INFO"@) {
        Some(Level::Info)
    } else if seq_eqi(s, "WARN"@) {
        Some(Level::Warn)
    } else if seq_eqi(s, "ERROR"@) {
        Some(Level::Error)
    } else {
        None
    }
}

fn eq_ignore_case(s: &str, pat: &str) -> (r: bool)
    ensures
        r == seq_eqi(s@, pat@),
{
    let slen = s.unicode_len();
    let plen = pat.unicode_len();
    if slen != plen {
        return false;
    }
    let mut i: usize = 0;
    while i < slen
        invariant
            slen == s@.len(),
            plen == pat@.len(),
            slen == plen,
            i <= slen,
            forall|j: int| 0 <= j < i ==> eqi_char(s@[j], pat@[j]),
        decreases slen - i,
    {
        let a = s.get_char(i);
        let b = pat.get_char(i);
        if !(a == b || (a as u32) == (b as u32).wrapping_add(32)) {
            return false;
        }
        i += 1;
    }
    true
}

impl Level {
    /// The severity named by `input`, matched case-insensitively; `None` for
    /// any other text.
    pub fn from_str(input: &str) -> (r: Option<Level>)
        ensures
            r == level_of(input@),
    {
        if eq_ignore_case(input, "TRACE") {
            Some(Level::Trace)
        } else if eq_ignore_case(input, "DEBUG") {
            Some(Level::Debug)
        } else if eq_ignore_case(input, "INFO") {
            Some(Level::Info)
        } else if eq_ignore_case(input, "WARN") {
            Some(Level::Warn)
        } else if eq_ignore_case(input, "ERROR") {
            Some(Level::Error)
        } else {
            None
        }
    }
}

/// One tokenized log line. The tokenizer only ever returns fully populated
/// records; the fields stay optional to make the empty state explicit.
#[derive(Debug, PartialEq)]
pub struct LogLine {
    pub timestamp: Option<Timestamp>,
    pub level: Option<Level>,
    pub message: Option<String>,
}

/// Fatal tokenizer failures: the grammar matched but a field does not parse,
/// which means grammar and data format have drifted apart.
#[derive(Clone, Copy, PartialEq, Eq, Structural, Debug)]
pub enum ParserError {
    /// The timestamp text names an impossible date or time.
    InvalidTimestamp,
    /// The level text is outside the closed severity set.
    InvalidLevel,
}

/// Every character of the number field is a digit, sign or decimal point.
pub open spec fn number_shape(s: Seq<char>) -> bool {
    s.len() >= 1 && (forall|i: int|
        0 <= i < s.len() ==> is_digit(s[i]) || s[i] == '.' || s[i] == '-' || s[i] == '+')
}

/// The extraction grammar. A line matches when it reads
/// `TS NUM | LEVEL | MESSAGE`: a timestamp-shaped field, a space, a number
/// field, the literal ` | `, a non-empty run of letters, optional whitespace,
/// the literal `| `, and the message (possibly empty, to the end of line).
/// The result is the raw text of the timestamp, level and message fields.
pub open spec fn line_match(s: Seq<char>) -> Option<(Seq<char>, Seq<char>, Seq<char>)> {
    match find_char_from(s, ' ', 0) {
        Option::None => None,
        Option::Some(i1) => {
            let ts = s.subrange(0, i1);
            if !timestamp_shape(ts) {
                None
            } else {
                match find_char_from(s, ' ', i1 + 1) {
                    Option::None => None,
                    Option::Some(i2) => {
                        let num = s.subrange(i1 + 1, i2);
                        if !number_shape(num) {
                            None
                        } else if !(i2 + 2 < s.len() && s[i2 + 1] == '|' && s[i2 + 2] == ' ') {
                            None
                        } else {
                            let l0 = i2 + 3;
                            let l1 = first_non_alpha(s, l0);
                            if l1 == l0 {
                                None
                            } else {
                                let k = first_non_space(s, l1);
                                if !(k + 1 < s.len() && s[k] == '|' && s[k + 1] == ' ') {
                                    None
                                } else {
                                    Some(
                                        (ts, s.subrange(l0, l1), s.subrange(k + 2, s.len() as int)),
                                    )
                                }
                            }
                        }
                    },
                }
            }
        },
    }
}

/// The tokenizer: a compiled instance of the extraction grammar, immutable
/// and shared read-only across invocations.
pub struct Parser {}

impl Parser {
    /// Compile the fixed extraction grammar.
    pub fn new() -> (r: Result<Parser, ParserError>)
        ensures
            r is Ok,
    {
        Ok(Parser {  })
    }

    /// Tokenize one line. A line the grammar does not match yields
    /// `Ok(None)` (a silent skip); a matching line yields a fully populated
    /// record, or a fatal error when its timestamp or level text does not
    /// parse.
    pub fn parse(&self, input: &str) -> (r: Result<Option<LogLine>, ParserError>)
        ensures
            match line_match(input@) {
                Option::None => r matches Ok(o) && o is None,
                Option::Some(fields) => {
                    match parse_timestamp(fields.0) {
                        Option::None => r == Result::<Option<LogLine>, ParserError>::Err(
                            ParserError::InvalidTimestamp,
                        ),
                        Option::Some(t) => match level_of(fields.1) {
                            Option::None => r == Result::<Option<LogLine>, ParserError>::Err(
                                ParserError::InvalidLevel,
                            ),
                            Option::Some(l) => r matches Ok(o) && o matches Some(line)
                                && line.timestamp == Some(t) && line.level == Some(l) && (
                            line.message matches Some(m) && m@ == fields.2),
                        },
                    }
                },
            },
    {
        let len = input.unicode_len();
        let i1 = match find_char_at(input, ' ', 0) {
            None => {
                return Ok(None);
            },
            Some(i) => i,
        };
        proof {
            lemma_find_char_from(input@, ' ', 0);
        }
        let ts_str = input.substring_char(0, i1);
        if !is_timestamp_shape(ts_str) {
            return Ok(None);
        }
        let i2 = match find_char_at(input, ' ', i1 + 1) {
            None => {
                return Ok(None);
            },
            Some(i) => i,
        };
        proof {
            lemma_find_char_from(input@, ' ', i1 + 1);
        }
        // number field between the two spaces
        if i2 == i1 + 1 {
            return Ok(None);
        }
        let mut j: usize = i1 + 1;
        while j < i2
            invariant
                len == input@.len(),
                i1 + 1 <= j <= i2 < len,
                find_char_from(input@, ' ', 0) == Some(i1 as int),
                find_char_from(input@, ' ', i1 + 1) == Some(i2 as int),
                timestamp_shape(input@.subrange(0, i1 as int)),
                forall|m: int|
                    i1 + 1 <= m < j ==> is_digit(input@[m]) || input@[m] == '.' || input@[m] == '-'
                        || input@[m] == '+',
            decreases i2 - j,
        {
            let c = input.get_char(j);
            if !(char_is_digit(c) || c == '.' || c == '-' || c == '+') {
                proof {
                    assert(input@.subrange(i1 + 1, i2 as int)[j - (i1 + 1)] == input@[j as int]);
                }
                return Ok(None);
            }
            j += 1;
        }
        proof {
            assert(number_shape(input@.subrange(i1 + 1, i2 as int))) by {
                assert(forall|m: int|
                    0 <= m < i2 - (i1 + 1) ==> #[trigger] input@.subrange(i1 + 1, i2 as int)[m]
                        == input@[m + (i1 + 1)]);
            }
        }
        // the literal ` | ` after the number field
        if !(len - i2 > 2) {
            return Ok(None);
        }
        if !(input.get_char(i2 + 1) == '|' && input.get_char(i2 + 2) == ' ') {
            return Ok(None);
        }
        // the level: a non-empty run of letters
        let l0 = i2 + 3;
        let l1 = scan_alpha_end(input, l0);
        if l1 == l0 {
            return Ok(None);
        }
        // optional whitespace, then the literal `| `, then the message
        let k = scan_space_end(input, l1);
        if !(len - k > 1) {
            return Ok(None);
        }
        if !(input.get_char(k) == '|' && input.get_char(k + 1) == ' ') {
            return Ok(None);
        }
        let level_str = input.substring_char(l0, l1);
        let msg_str = input.substring_char(k + 2, len);
        let t = match Timestamp::parse(ts_str) {
            None => {
                return Err(ParserError::InvalidTimestamp);
            },
            Some(t) => t,
        };
        let l = match Level::from_str(level_str) {
            None => {
                return Err(ParserError::InvalidLevel);
            },
            Some(l) => l,
        };
        Ok(Some(LogLine { timestamp: Some(t), level: Some(l), message: Some(msg_str.to_owned()) }))
    }
}

} // verus!
