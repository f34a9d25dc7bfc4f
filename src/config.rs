//! Reading the cooldown an administrator types, such as `1h 30m`.

use vstd::prelude::*;

use crate::records::Error;

verus! {

/// The words joined into one text, a single space between two words.
pub open spec fn joined(words: Seq<Seq<char>>) -> Seq<char>
    decreases words.len(),
{
    if words.len() == 0 {
        Seq::empty()
    } else if words.len() == 1 {
        words[0]
    } else {
        joined(words.drop_last()) + seq![' '] + words.last()
    }
}

/// The texts of the words.
pub open spec fn texts(words: Seq<String>) -> Seq<Seq<char>> {
    words.map_values(|w: String| w@)
}

/// The whole seconds of the duration that `duration_str::parse` reads from
/// `text`, or `None` where it reports an error.
pub uninterp spec fn parsed_duration_secs(text: Seq<char>) -> Option<u64>;

/// Relies on `<[String]>::join`: the words with the separator between each
/// two of them.
#[verifier::external_body]
fn join_with_spaces(words: &Vec<String>) -> (r: String)
    ensures
        r@ == joined(texts(words@)),
{
    words.join(" ")
}

/// Relies on `duration_str::parse` for the duration a text spells out,
/// taking its whole seconds (`Duration::as_secs`); the parser reports an
/// error on empty text.
#[verifier::external_body]
fn parse_duration_secs(text: &str) -> (r: Option<u64>)
    ensures
        r == parsed_duration_secs(text@),
        text@.len() == 0 ==> r is None,
{
    match duration_str::parse(text) {
        Ok(d) => Some(d.as_secs()),
        Err(_) => None,
    }
}

/// The cooldown to store for what the duration parser made of the text:
/// its seconds, or `ConfigInvalid` where it could not read it.
pub fn cooldown_setting(parsed: Option<u64>) -> (r: Result<u64, Error>)
    ensures
        r == match parsed {
            Some(secs) => Ok::<u64, Error>(secs),
            None => Err::<u64, Error>(Error::ConfigInvalid),
        },
{
    match parsed {
        Some(secs) => Ok(secs),
        None => Err(Error::ConfigInvalid),
    }
}

/// The cooldown, in seconds, that the words of an administrator's command
/// spell out together (`1h 30m`, `45s`); `ConfigInvalid` when they spell no
/// duration, as when there are none.
pub fn parse_cooldown(words: &Vec<String>) -> (r: Result<u64, Error>)
    ensures
        r == match parsed_duration_secs(joined(texts(words@))) {
            Some(secs) => Ok::<u64, Error>(secs),
            None => Err::<u64, Error>(Error::ConfigInvalid),
        },
        words@.len() == 0 ==> r == Err::<u64, Error>(Error::ConfigInvalid),
{
    let text = join_with_spaces(words);
    let parsed = parse_duration_secs(text.as_str());
    cooldown_setting(parsed)
}

} // verus!
