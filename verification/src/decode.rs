//! From one line of the runtime's output to a sample.
//!
//! A line is one JSON object. Its syntax is left to `serde_json`; which
//! members a sample needs, and what is reported when one is not there, is
//! decided here.

use crate::stat::{DockerStat, StatView};
use vstd::prelude::*;

verus! {

/// `serde_json::Value`, taken as it is: nothing is known of what one holds
/// but what `value_text_members` tells.
#[verifier::external_type_specification]
#[verifier::external_body]
pub struct ExJsonValue(serde_json::Value);

/// The members with a string for their value that the JSON text `text` gives
/// to its object, each under its key; no members where the text is JSON but
/// no object; `None` where the text is not JSON.
///
/// This is what `serde_json::from_str` makes of `text`, as far as this
/// library looks at it. What counts as JSON is for `serde_json` to say: a
/// key that stands twice has its last value, and a text that nests deeper
/// than it follows, or holds a number beyond its range, is none.
pub uninterp spec fn json_text_members(text: Seq<char>) -> Option<Map<Seq<char>, Seq<char>>>;

/// The members of `value` that have a string for their value, each under its
/// key; no members where `value` is no object.
pub uninterp spec fn value_text_members(value: serde_json::Value) -> Map<Seq<char>, Seq<char>>;

/// Calls `serde_json::from_str` for a `serde_json::Value`.
///
/// Not proved: that the call fails exactly on the texts for which
/// `json_text_members` is `None`, and that the value it gives otherwise holds
/// the members that `json_text_members` tells. Since nothing else is said of
/// `json_text_members`, this claims no more than that the outcome depends on
/// the text alone.
#[verifier::external_body]
fn json_value(line: &str) -> (r: Option<serde_json::Value>)
    ensures
        match r {
            Some(value) => json_text_members(line@) == Some(value_text_members(value)),
            None => json_text_members(line@) is None,
        },
{
    serde_json::from_str::<serde_json::Value>(line).ok()
}

/// Calls `serde_json::Value::get` with a key, and takes the string out of
/// what it finds.
///
/// Not proved: that the call finds a string exactly under the keys of
/// `value_text_members`, and that it is the string kept there.
#[verifier::external_body]
fn text_member<'a>(value: &'a serde_json::Value, key: &str) -> (r: Option<&'a str>)
    ensures
        match r {
            Some(text) => value_text_members(*value).contains_key(key@) && value_text_members(
                *value,
            )[key@] == text@,
            None => !value_text_members(*value).contains_key(key@),
        },
{
    match value.get(key) {
        Some(serde_json::Value::String(text)) => Some(text.as_str()),
        _ => None,
    }
}

/// The members that a line must hold, each with a string for its value.
#[derive(Clone, Copy, PartialEq, Eq, Structural, Debug)]
pub enum Field {
    Name,
    CpuPerc,
    MemUsage,
    NetIo,
    BlockIo,
}

impl Field {
    /// The key under which the runtime writes the member.
    pub open spec fn key(self) -> Seq<char> {
        match self {
            Field::Name => "Name"@,
            Field::CpuPerc => "CPUPerc"@,
            Field::MemUsage => "MemUsage"@,
            Field::NetIo => "NetIO"@,
            Field::BlockIo => "BlockIO"@,
        }
    }

    /// The key under which the runtime writes the member.
    pub fn key_str(self) -> (key: &'static str)
        ensures
            key@ == self.key(),
    {
        match self {
            Field::Name => "Name",
            Field::CpuPerc => "CPUPerc",
            Field::MemUsage => "MemUsage",
            Field::NetIo => "NetIO",
            Field::BlockIo => "BlockIO",
        }
    }
}

/// Why a line gave no sample.
#[derive(Clone, Copy, PartialEq, Eq, Structural, Debug)]
pub enum ParseError {
    /// The line is not JSON.
    Syntax,
    /// The line holds no string under the key of this member. Where several
    /// are missing, this is the first of them in the order of `Field`.
    Missing(Field),
}

/// What `text` stands for in contracts.
pub open spec fn text_view(text: Option<&str>) -> Option<Seq<char>> {
    match text {
        Some(t) => Some(t@),
        None => None,
    }
}

/// What the outcome of reading a line stands for in contracts.
pub open spec fn outcome_view(r: Result<DockerStat, ParseError>) -> Result<StatView, ParseError> {
    match r {
        Ok(stat) => Ok(stat@),
        Err(e) => Err(e),
    }
}

/// The sample made of five members, or the first of them that is missing.
pub open spec fn assembled(
    name: Option<Seq<char>>,
    cpu_perc: Option<Seq<char>>,
    mem_usage: Option<Seq<char>>,
    net_io: Option<Seq<char>>,
    block_io: Option<Seq<char>>,
) -> Result<StatView, ParseError> {
    if name is None {
        Err(ParseError::Missing(Field::Name))
    } else if cpu_perc is None {
        Err(ParseError::Missing(Field::CpuPerc))
    } else if mem_usage is None {
        Err(ParseError::Missing(Field::MemUsage))
    } else if net_io is None {
        Err(ParseError::Missing(Field::NetIo))
    } else if block_io is None {
        Err(ParseError::Missing(Field::BlockIo))
    } else {
        Ok(
            StatView {
                name: name->0,
                cpu_perc: cpu_perc->0,
                mem_usage: mem_usage->0,
                net_io: net_io->0,
                block_io: block_io->0,
            },
        )
    }
}

/// The string that `members` hold for `field`, if any.
pub open spec fn member(members: Map<Seq<char>, Seq<char>>, field: Field) -> Option<Seq<char>> {
    if members.contains_key(field.key()) {
        Some(members[field.key()])
    } else {
        None
    }
}

/// What reading the line `line` gives: the sample made of its five members,
/// or the reason why there is none.
pub open spec fn decoded(line: Seq<char>) -> Result<StatView, ParseError> {
    match json_text_members(line) {
        None => Err(ParseError::Syntax),
        Some(members) => assembled(
            member(members, Field::Name),
            member(members, Field::CpuPerc),
            member(members, Field::MemUsage),
            member(members, Field::NetIo),
            member(members, Field::BlockIo),
        ),
    }
}

/// Makes a sample of the five members that a line must hold, each given as
/// the string found for it. Where any is missing there is no sample, and the
/// first that is missing, in the order of `Field`, is reported.
pub fn assemble(
    name: Option<&str>,
    cpu_perc: Option<&str>,
    mem_usage: Option<&str>,
    net_io: Option<&str>,
    block_io: Option<&str>,
) -> (r: Result<DockerStat, ParseError>)
    ensures
        outcome_view(r) == assembled(
            text_view(name),
            text_view(cpu_perc),
            text_view(mem_usage),
            text_view(net_io),
            text_view(block_io),
        ),
{
    match (name, cpu_perc, mem_usage, net_io, block_io) {
        (None, _, _, _, _) => Err(ParseError::Missing(Field::Name)),
        (_, None, _, _, _) => Err(ParseError::Missing(Field::CpuPerc)),
        (_, _, None, _, _) => Err(ParseError::Missing(Field::MemUsage)),
        (_, _, _, None, _) => Err(ParseError::Missing(Field::NetIo)),
        (_, _, _, _, None) => Err(ParseError::Missing(Field::BlockIo)),
        (Some(name), Some(cpu_perc), Some(mem_usage), Some(net_io), Some(block_io)) => Ok(
            DockerStat {
                name: name.to_owned(),
                cpu_perc: cpu_perc.to_owned(),
                mem_usage: mem_usage.to_owned(),
                net_io: net_io.to_owned(),
                block_io: block_io.to_owned(),
            },
        ),
    }
}

/// The string that `value` holds for `field`, if any.
fn field_of<'a>(value: &'a serde_json::Value, field: Field) -> (r: Option<&'a str>)
    ensures
        text_view(r) == member(value_text_members(*value), field),
{
    text_member(value, field.key_str())
}

/// Reads one line of the runtime's output: a JSON object with a string under
/// each of the keys `Name`, `CPUPerc`, `MemUsage`, `NetIO` and `BlockIO`.
/// Other members are passed over.
pub fn decode(line: &str) -> (r: Result<DockerStat, ParseError>)
    ensures
        outcome_view(r) == decoded(line@),
{
    match json_value(line) {
        None => Err(ParseError::Syntax),
        Some(value) => assemble(
            field_of(&value, Field::Name),
            field_of(&value, Field::CpuPerc),
            field_of(&value, Field::MemUsage),
            field_of(&value, Field::NetIo),
            field_of(&value, Field::BlockIo),
        ),
    }
}

} // verus!
