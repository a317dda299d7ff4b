//! One physical line of the file body: a key/value pair with an optional
//! inline comment, a verbatim comment line, or a blank line; and the
//! classifier that turns raw line text into such an entry.

use vstd::prelude::*;

use crate::text::{
    find_char, find_char_in, lemma_find_char_none, lemma_find_char_some, trim, trim_str,
};

verus! {

/// The header text a pre-key comment line contributes: the trimmed line with
/// its leading `'#'` removed, and one following space removed if present.
pub open spec fn header_content(line: Seq<char>) -> Seq<char> {
    let after = trim(line).drop_first();
    if after.len() > 0 && after[0] == ' ' {
        after.drop_first()
    } else {
        after
    }
}

/// Mathematical form of an [`Entry`]: the same three cases over character
/// sequences.
pub ghost enum SpecEntry {
    KeyValue { key: Seq<char>, value: Seq<char>, comment: Option<Seq<char>> },
    Comment(Seq<char>),
    Blank,
}

/// One line of the file body after the header block.
#[derive(Debug, Clone, PartialEq)]
pub enum Entry {
    KeyValue { key: String, value: String, comment: Option<String> },
    Comment(String),
    Blank,
}

/// The character sequence an optional string denotes.
pub open spec fn opt_view(o: Option<String>) -> Option<Seq<char>> {
    match o {
        Some(s) => Some(s@),
        None => None,
    }
}

impl View for Entry {
    type V = SpecEntry;

    open spec fn view(&self) -> SpecEntry {
        match self {
            Entry::KeyValue { key, value, comment } => SpecEntry::KeyValue {
                key: key@,
                value: value@,
                comment: opt_view(*comment),
            },
            Entry::Comment(c) => SpecEntry::Comment(c@),
            Entry::Blank => SpecEntry::Blank,
        }
    }
}

/// Mathematical form of a [`ParseError`].
pub ghost enum SpecParseError {
    InvalidHeaderLine { line: Seq<char> },
    InvalidLine { line: Seq<char> },
}

/// Why a parse failed: the offending raw line, and whether it stood before
/// or after the first key/value line.
#[derive(Debug, Clone, PartialEq)]
pub enum ParseError {
    InvalidHeaderLine { line: String },
    InvalidLine { line: String },
}

impl View for ParseError {
    type V = SpecParseError;

    open spec fn view(&self) -> SpecParseError {
        match self {
            ParseError::InvalidHeaderLine { line } => SpecParseError::InvalidHeaderLine {
                line: line@,
            },
            ParseError::InvalidLine { line } => SpecParseError::InvalidLine { line: line@ },
        }
    }
}

/// The key/value reading of `line`, if it has one: the text before the first
/// `'='`, trimmed, is the key (empty means no reading); the remainder up to
/// an optional first `'#'` is the value, trimmed; what follows that `'#'` is
/// the comment, trimmed, or absent when that trim is empty.
pub open spec fn spec_parse_key_value(line: Seq<char>) -> Option<
    (Seq<char>, Seq<char>, Option<Seq<char>>),
> {
    match find_char(line, '=') {
        None => None,
        Some(e) => {
            let key = trim(line.subrange(0, e));
            if key.len() == 0 {
                None
            } else {
                let rest = line.subrange(e + 1, line.len() as int);
                match find_char(rest, '#') {
                    Some(h) => {
                        let value = trim(rest.subrange(0, h));
                        let comment = trim(rest.subrange(h + 1, rest.len() as int));
                        if comment.len() == 0 {
                            Some((key, value, None))
                        } else {
                            Some((key, value, Some(comment)))
                        }
                    }
                    None => Some((key, trim(rest), None)),
                }
            }
        }
    }
}

/// How one body line is classified: blank after trimming, a verbatim comment
/// line, a key/value line, or nothing (an invalid line).
pub open spec fn spec_parse_line(line: Seq<char>) -> Option<SpecEntry> {
    if trim(line).len() == 0 {
        Some(SpecEntry::Blank)
    } else if trim(line)[0] == '#' {
        Some(SpecEntry::Comment(line))
    } else {
        match spec_parse_key_value(line) {
            Some(kvc) => Some(SpecEntry::KeyValue { key: kvc.0, value: kvc.1, comment: kvc.2 }),
            None => None,
        }
    }
}

/// The key/value reading of `line`, as `spec_parse_key_value` states it.
pub fn parse_key_value(line: &str) -> (r: Option<(String, String, Option<String>)>)
    ensures
        match r {
            Some(t) => spec_parse_key_value(line@) == Some((t.0@, t.1@, opt_view(t.2))),
            None => spec_parse_key_value(line@) is None,
        },
{
    let n = line.unicode_len();
    let eq = match find_char_in(line, '=', 0) {
        Some(e) => e,
        None => {
            proof {
                lemma_find_char_none(line@, '=');
            }
            return None;
        }
    };
    proof {
        lemma_find_char_some(line@, '=', eq as int);
    }
    let key = trim_str(line.substring_char(0, eq));
    if key.unicode_len() == 0 {
        return None;
    }
    let rest = line.substring_char(eq + 1, n);
    match find_char_in(rest, '#', 0) {
        Some(h) => {
            proof {
                lemma_find_char_some(rest@, '#', h as int);
            }
            let value = trim_str(rest.substring_char(0, h));
            let comment = trim_str(rest.substring_char(h + 1, rest.unicode_len()));
            if comment.unicode_len() == 0 {
                Some((String::from_str(key), String::from_str(value), None))
            } else {
                Some(
                    (
                        String::from_str(key),
                        String::from_str(value),
                        Some(String::from_str(comment)),
                    ),
                )
            }
        }
        None => {
            proof {
                lemma_find_char_none(rest@, '#');
            }
            let value = trim_str(rest);
            Some((String::from_str(key), String::from_str(value), None))
        }
    }
}

/// One body line turned into an entry, as `spec_parse_line` states it; an
/// invalid line is reported with its raw text.
pub fn parse_line(line: &str) -> (r: Result<Entry, ParseError>)
    ensures
        match r {
            Ok(e) => spec_parse_line(line@) == Some(e@),
            Err(pe) => spec_parse_line(line@) is None && pe@ == (SpecParseError::InvalidLine {
                line: line@,
            }),
        },
{
    let t = trim_str(line);
    if t.unicode_len() == 0 {
        return Ok(Entry::Blank);
    }
    if t.get_char(0) == '#' {
        return Ok(Entry::Comment(String::from_str(line)));
    }
    match parse_key_value(line) {
        Some((k, v, c)) => Ok(Entry::KeyValue { key: k, value: v, comment: c }),
        None => Err(ParseError::InvalidLine { line: String::from_str(line) }),
    }
}

/// The header text of one pre-key comment line, as `header_content` states
/// it.
pub fn header_line_content(line: &str) -> (r: String)
    requires
        trim(line@).len() > 0,
        trim(line@)[0] == '#',
    ensures
        r@ == header_content(line@),
{
    let t = trim_str(line);
    let n = t.unicode_len();
    let after = t.substring_char(1, n);
    proof {
        assert(after@ =~= trim(line@).drop_first());
    }
    let m = after.unicode_len();
    if m > 0 && after.get_char(0) == ' ' {
        let res = after.substring_char(1, m);
        proof {
            assert(res@ =~= trim(line@).drop_first().drop_first());
        }
        String::from_str(res)
    } else {
        String::from_str(after)
    }
}

} // verus!
