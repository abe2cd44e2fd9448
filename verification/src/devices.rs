//! Sound devices: which one a user means, and whether it can be used.

use crate::text::{contains_word, decimal, format_id, has_text};
use vstd::prelude::*;
use vstd::string::*;

verus! {

/// The channels of all streams.
pub const STEREO: u16 = 2;

/// What `str::to_lowercase` makes of a text.
pub uninterp spec fn lowercased(s: Seq<char>) -> Seq<char>;

/// `str::to_lowercase`: the text in lower case, by the rules of Unicode. What those rules make
/// of a text is named and not spelled out.
#[verifier::external_body]
fn to_lowercase(s: &str) -> (r: String)
    ensures
        r@ == lowercased(s@),
{
    s.to_lowercase()
}

/// Whether a device that tells its name has a pattern in it.
pub open spec fn names_pattern(name: Option<String>, pattern: Seq<char>) -> bool {
    name matches Some(n) && has_text(n@, pattern)
}

/// The first of some names that has a pattern in it, both in the same case. A device that does
/// not tell its name is passed over.
pub fn first_naming(names: &Vec<Option<String>>, pattern: &str) -> (r: Option<usize>)
    ensures
        match r {
            Some(i) => i < names@.len() && names_pattern(names@[i as int], pattern@) && forall|
                j: int,
            |
                0 <= j < i ==> !names_pattern(#[trigger] names@[j], pattern@),
            None => forall|j: int|
                0 <= j < names@.len() ==> !names_pattern(#[trigger] names@[j], pattern@),
        },
{
    let mut i: usize = 0;
    while i < names.len()
        invariant
            i <= names@.len(),
            forall|j: int| 0 <= j < i ==> !names_pattern(#[trigger] names@[j], pattern@),
        decreases names@.len() - i,
    {
        if let Some(name) = &names[i] {
            if contains_word(name.as_str(), pattern) {
                return Some(i);
            }
        }
        i = i + 1;
    }
    None
}

/// Whether a device that tells its name has a pattern in it, whatever their case.
pub open spec fn matches_pattern(name: Option<String>, pattern: Seq<char>) -> bool {
    name matches Some(n) && has_text(lowercased(n@), lowercased(pattern))
}

/// The first of some devices whose name contains the pattern, whatever their case.
pub fn find_device(names: &Vec<Option<String>>, name_pattern: &str) -> (r: Option<usize>)
    ensures
        match r {
            Some(i) => i < names@.len() && matches_pattern(names@[i as int], name_pattern@)
                && forall|j: int|
                0 <= j < i ==> !matches_pattern(#[trigger] names@[j], name_pattern@),
            None => forall|j: int|
                0 <= j < names@.len() ==> !matches_pattern(#[trigger] names@[j], name_pattern@),
        },
{
    let pattern = to_lowercase(name_pattern);
    let mut lower: Vec<Option<String>> = Vec::new();
    while lower.len() < names.len()
        invariant
            lower@.len() <= names@.len(),
            pattern@ == lowercased(name_pattern@),
            forall|j: int|
                0 <= j < lower@.len() ==> names_pattern(#[trigger] lower@[j], pattern@)
                    == matches_pattern(names@[j], name_pattern@),
        decreases names@.len() - lower@.len(),
    {
        let i: usize = lower.len();
        let item = match &names[i] {
            Some(name) => Some(to_lowercase(name.as_str())),
            None => None,
        };
        assert(names_pattern(item, pattern@) == matches_pattern(names@[i as int], name_pattern@));
        lower.push(item);
    }
    let r = first_naming(&lower, pattern.as_str());
    proof {
        assert forall|j: int| 0 <= j < names@.len() implies names_pattern(lower@[j], pattern@)
            == #[trigger] matches_pattern(names@[j], name_pattern@) by {}
    }
    r
}

/// What is said where no device matches.
pub fn no_device_matching(is_input: bool, name_pattern: &str) -> (r: String)
    ensures
        r@ == (if is_input {
            "No input device matching \""@
        } else {
            "No output device matching \""@
        }) + name_pattern@ + "\""@,
{
    let mut r = if is_input {
        String::from_str("No input device matching \"")
    } else {
        String::from_str("No output device matching \"")
    };
    r.append(name_pattern);
    r.append("\"");
    r
}

/// A range of stream settings that a device supports.
#[derive(Debug, Clone, Copy, PartialEq, Eq)]
pub struct StreamRange {
    pub channels: u16,
    pub min_rate: u32,
    pub max_rate: u32,
    /// Whether samples are binary32 numbers.
    pub is_float: bool,
}

/// Whether a range takes in stereo sound at a sample rate.
pub open spec fn takes(range: StreamRange, sample_rate: u32) -> bool {
    range.channels >= STEREO && range.is_float && range.min_rate <= sample_rate <= range.max_rate
}

/// Whether a device supports stereo sound at a sample rate.
pub fn supports(ranges: &Vec<StreamRange>, sample_rate: u32) -> (r: bool)
    ensures
        r == exists|i: int| 0 <= i < ranges@.len() && takes(#[trigger] ranges@[i], sample_rate),
{
    let mut i: usize = 0;
    while i < ranges.len()
        invariant
            i <= ranges@.len(),
            forall|j: int| 0 <= j < i ==> !takes(#[trigger] ranges@[j], sample_rate),
        decreases ranges@.len() - i,
    {
        let range = ranges[i];
        if range.channels >= STEREO && range.is_float && range.min_rate <= sample_rate
            && range.max_rate >= sample_rate {
            assert(takes(ranges@[i as int], sample_rate));
            return true;
        }
        i = i + 1;
    }
    false
}

/// A range of stream settings in words; `format` names the kind of samples.
pub fn describe(range: &StreamRange, format: &str) -> (r: String)
    ensures
        r@ == "ch="@ + decimal(range.channels as nat) + " rate="@ + decimal(range.min_rate as nat)
            + "–"@ + decimal(range.max_rate as nat) + " fmt="@ + format@,
{
    let mut r = String::from_str("ch=");
    r.append(format_id(range.channels as u32).as_str());
    r.append(" rate=");
    r.append(format_id(range.min_rate).as_str());
    r.append("–");
    r.append(format_id(range.max_rate).as_str());
    r.append(" fmt=");
    r.append(format);
    r
}

/// What is said where a device does not support stereo sound at a sample rate.
pub fn not_supported(sample_rate: u32) -> (r: String)
    ensures
        r@ == "Device does not support stereo f32 at "@ + decimal(sample_rate as nat)
            + " Hz. Supported configs: "@,
{
    let mut r = String::from_str("Device does not support stereo f32 at ");
    r.append(format_id(sample_rate).as_str());
    r.append(" Hz. Supported configs: ");
    r
}

} // verus!
