//! Reading `key = value` lines.
//!
//! A text is read line by line. White space around a line, a key or a value
//! does not count. Empty lines and lines that begin with `#` are passed
//! over. Every other line needs a `=`, and something before the first one.

use vstd::prelude::*;
use vstd::string::StringExecFns;
use crate::text::{
    characters, find_char, first_index, lemma_first_index, string_of, trim, trim_range,
};

verus! {

/// Why a text could not be read.
#[derive(Debug, PartialEq, Eq)]
pub enum ConfigError {
    /// A line has nothing before its `=`.
    EmptyKey,
    /// A line has no `=`; it is carried here without the white space around
    /// it.
    InvalidLine(String),
}

/// One setting.
#[derive(Debug, PartialEq, Eq)]
pub struct ConfigEntry {
    pub key: String,
    pub value: String,
}

/// `ConfigError`, with the line as a sequence of characters.
pub enum Failure {
    EmptyKey,
    InvalidLine(Seq<char>),
}

/// What one line says.
pub enum Line {
    /// Nothing: it is empty or a comment.
    Blank,
    /// A key and its value.
    Entry(Seq<char>, Seq<char>),
    /// Nothing that can be read.
    Bad(Failure),
}

impl View for ConfigError {
    type V = Failure;

    open spec fn view(&self) -> Failure {
        match self {
            ConfigError::EmptyKey => Failure::EmptyKey,
            ConfigError::InvalidLine(line) => Failure::InvalidLine(line@),
        }
    }
}

impl View for ConfigEntry {
    type V = (Seq<char>, Seq<char>);

    open spec fn view(&self) -> (Seq<char>, Seq<char>) {
        (self.key@, self.value@)
    }
}

/// The keys and values of a vector of entries.
pub open spec fn settings(entries: Seq<ConfigEntry>) -> Seq<(Seq<char>, Seq<char>)> {
    entries.map_values(|entry: ConfigEntry| entry@)
}

/// What `line` says.
pub open spec fn read_line(line: Seq<char>) -> Line {
    let body = trim(line);
    let at = first_index(body, '=');
    if body.len() == 0 || body[0] == '#' {
        Line::Blank
    } else if at == body.len() {
        Line::Bad(Failure::InvalidLine(body))
    } else if trim(body.take(at)).len() == 0 {
        Line::Bad(Failure::EmptyKey)
    } else {
        Line::Entry(trim(body.take(at)), trim(body.skip(at + 1)))
    }
}

/// What `text` says: the settings of its lines from top to bottom, or what
/// is wrong with the first line that cannot be read.
pub open spec fn read_text(text: Seq<char>) -> Result<Seq<(Seq<char>, Seq<char>)>, Failure>
    decreases text.len(),
{
    let end = first_index(text, '\n');
    let below = if 0 <= end < text.len() {
        read_text(text.skip(end + 1))
    } else {
        Ok(Seq::empty())
    };
    match read_line(text.take(end)) {
        Line::Bad(failure) => Err(failure),
        Line::Blank => below,
        Line::Entry(key, value) => match below {
            Ok(rest) => Ok(seq![(key, value)] + rest),
            Err(failure) => Err(failure),
        },
    }
}

/// `found` settings, followed by what the rest of a text says.
pub open spec fn followed_by(
    found: Seq<(Seq<char>, Seq<char>)>,
    below: Result<Seq<(Seq<char>, Seq<char>)>, Failure>,
) -> Result<Seq<(Seq<char>, Seq<char>)>, Failure> {
    match below {
        Ok(rest) => Ok(found + rest),
        Err(failure) => Err(failure),
    }
}

impl ConfigError {
    /// The error in words.
    pub fn message(&self) -> (s: String)
        ensures
            s@ == match self@ {
                Failure::EmptyKey => "key cannot be empty"@,
                Failure::InvalidLine(line) => "invalid line: "@ + line,
            },
    {
        match self {
            ConfigError::EmptyKey => String::from_str("key cannot be empty"),
            ConfigError::InvalidLine(line) => String::from_str("invalid line: ").concat(
                line.as_str(),
            ),
        }
    }
}

/// What the line of `text` between `from` and `to` says.
fn parse_line(text: &Vec<char>, from: usize, to: usize) -> (r: Result<Option<ConfigEntry>, ConfigError>)
    requires
        from <= to <= text.len(),
    ensures
        match r {
            Ok(None) => read_line(text@.subrange(from as int, to as int)) == Line::Blank,
            Ok(Some(entry)) => read_line(text@.subrange(from as int, to as int)) == Line::Entry(
                entry.key@,
                entry.value@,
            ),
            Err(error) => read_line(text@.subrange(from as int, to as int)) == Line::Bad(error@),
        },
{
    let (start, end) = trim_range(text, from, to);
    let ghost body = text@.subrange(start as int, end as int);
    if start == end || text[start] == '#' {
        return Ok(None);
    }
    let at = find_char(text, start, end, '=');
    if at == end {
        return Err(ConfigError::InvalidLine(string_of(text, start, end)));
    }
    proof {
        assert(body.take(at - start) =~= text@.subrange(start as int, at as int));
        assert(body.skip(at - start + 1) =~= text@.subrange(at + 1, end as int));
    }
    let (key_start, key_end) = trim_range(text, start, at);
    if key_start == key_end {
        return Err(ConfigError::EmptyKey);
    }
    let (value_start, value_end) = trim_range(text, at + 1, end);
    Ok(
        Some(
            ConfigEntry {
                key: string_of(text, key_start, key_end),
                value: string_of(text, value_start, value_end),
            },
        ),
    )
}

/// Reads the settings of `input`.
///
/// The result holds one entry for each line that has a key, from top to
/// bottom. The first line that cannot be read stops the reading and is
/// reported.
pub fn parse_config(input: &str) -> (r: Result<Vec<ConfigEntry>, ConfigError>)
    ensures
        match r {
            Ok(entries) => read_text(input@) == Ok::<Seq<(Seq<char>, Seq<char>)>, Failure>(
                settings(entries@),
            ),
            Err(error) => read_text(input@) == Err::<Seq<(Seq<char>, Seq<char>)>, Failure>(error@),
        },
{
    let text = characters(input);
    let mut entries: Vec<ConfigEntry> = Vec::new();
    let mut from: usize = 0;
    proof {
        assert(text@.skip(0) =~= text@);
        lemma_followed_by_nothing(read_text(text@));
    }
    loop
        invariant
            text@ == input@,
            from <= text.len(),
            read_text(text@) == followed_by(settings(entries@), read_text(text@.skip(from as int))),
        decreases text.len() - from,
    {
        let to = find_char(&text, from, text.len(), '\n');
        let ghost rest = text@.skip(from as int);
        let ghost found = settings(entries@);
        let ghost below = if to < text.len() {
            read_text(text@.skip(to + 1))
        } else {
            Ok(Seq::empty())
        };
        proof {
            assert(rest =~= text@.subrange(from as int, text.len() as int));
            assert(rest.take(to - from) =~= text@.subrange(from as int, to as int));
            if to < text.len() {
                assert(rest.skip(to - from + 1) =~= text@.skip(to + 1));
            }
            lemma_read_text_unfolds(rest);
        }
        match parse_line(&text, from, to) {
            Err(error) => {
                return Err(error);
            },
            Ok(None) => {},
            Ok(Some(entry)) => {
                entries.push(entry);
                proof {
                    assert(settings(entries@) =~= found.push(entry@));
                    if let Ok(more) = below {
                        assert(found + (seq![entry@] + more) =~= found.push(entry@) + more);
                    }
                }
            },
        }
        assert(read_text(text@) == followed_by(settings(entries@), below));
        if to >= text.len() {
            proof {
                assert(settings(entries@) + Seq::<(Seq<char>, Seq<char>)>::empty() =~= settings(
                    entries@,
                ));
            }
            return Ok(entries);
        }
        from = to + 1;
    }
}

/// Nothing, followed by what a text says, is what the text says.
proof fn lemma_followed_by_nothing(below: Result<Seq<(Seq<char>, Seq<char>)>, Failure>)
    ensures
        followed_by(Seq::empty(), below) == below,
{
    if let Ok(rest) = below {
        assert(Seq::<(Seq<char>, Seq<char>)>::empty() + rest =~= rest);
    }
}

/// What a text says is what its first line says, followed by what the text
/// below that line says.
proof fn lemma_read_text_unfolds(text: Seq<char>)
    ensures
        ({
            let end = first_index(text, '\n');
            let below = if end < text.len() {
                read_text(text.skip(end + 1))
            } else {
                Ok(Seq::empty())
            };
            &&& 0 <= end <= text.len()
            &&& read_text(text) == match read_line(text.take(end)) {
                Line::Bad(failure) => Err(failure),
                Line::Blank => below,
                Line::Entry(key, value) => followed_by(seq![(key, value)], below),
            }
        }),
{
    lemma_first_index(text, '\n');
}

} // verus!
