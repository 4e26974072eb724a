//! How the entry named by a command-line argument is looked up.
use vstd::prelude::*;

use crate::csv::{parse_id, parse_u32, trim_chars, trimmed};
use crate::text::chars_of;

verus! {

/// The entry that an argument names: by id when the argument reads as an
/// id, else by description.
#[derive(Debug)]
pub enum Target {
    Id(u32),
    Description(String),
}

/// Reads an argument as an id (an unsigned 32-bit decimal number, white space
/// around it ignored) where it can, and as a description otherwise.
pub fn target_of(arg: String) -> (r: Target)
    ensures
        match r {
            Target::Id(id) => parse_u32(trimmed(arg@)) == Some(id),
            Target::Description(d) => parse_u32(trimmed(arg@)) is None && d@ == arg@,
        },
{
    let chars = chars_of(arg.as_str());
    match parse_id(&trim_chars(&chars)) {
        Some(id) => Target::Id(id),
        None => Target::Description(arg),
    }
}

} // verus!
