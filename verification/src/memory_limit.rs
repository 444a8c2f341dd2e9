//! A limit on the memory that a process may use, and the test whether a
//! measured use exceeds it.

use vstd::prelude::*;
use vstd::string::StringExecFns;

verus! {

/// What `re_format::parse_bytes` makes of a text such as `16GB` or `4MiB`:
/// the number of bytes, or `None` if the text is no whole number followed by
/// a unit of bytes.
pub uninterp spec fn parsed_bytes(text: Seq<char>) -> Option<i64>;

/// The text in double quotes with its special characters escaped, as `{:?}`
/// formats a string.
pub uninterp spec fn quoted(text: Seq<char>) -> Seq<char>;

/// `re_format::parse_bytes`. Trusted: that the result depends on the text
/// alone. The texts of more than eight characters are left out: among them
/// are those whose number of bytes does not fit into an `i64`, on which the
/// function overflows.
#[verifier::external_body]
fn parse_bytes(text: &str) -> (bytes: Option<i64>)
    requires
        text@.len() <= 8,
    ensures
        bytes == parsed_bytes(text@),
{
    re_format::parse_bytes(text)
}

/// `format!` with `{:?}` on a string. Trusted: that the result depends on
/// the text alone.
#[verifier::external_body]
fn quote(text: &str) -> (formatted: String)
    ensures
        formatted@ == quoted(text@),
{
    format!("{text:?}")
}

/// A measured use of memory, in bytes.
#[derive(Clone, Copy, Debug, PartialEq, Eq, Structural)]
pub struct MemoryUse {
    /// What the operating system counts as resident, if known.
    pub resident: Option<i64>,
    /// What the process's own allocator has counted, if it counts.
    pub counted: Option<i64>,
}

/// A limit on the use of memory.
#[derive(Clone, Copy, Debug, PartialEq, Eq, Structural)]
pub struct MemoryLimit {
    /// The limit in bytes, or `None` where memory is not limited.
    pub limit: Option<i64>,
}

impl Default for MemoryLimit {
    fn default() -> (unlimited: MemoryLimit)
        ensures
            unlimited.limit is None,
    {
        MemoryLimit { limit: None }
    }
}

impl MemoryLimit {
    /// The result of `parse` on `text`, given what became of the text as a
    /// number of bytes and the text in quotes.
    pub open spec fn parse_result(parsed: Option<i64>, in_quotes: Seq<char>) -> Result<
        MemoryLimit,
        Seq<char>,
    > {
        match parsed {
            Some(bytes) => Ok(MemoryLimit { limit: Some(bytes) }),
            None => Err("expected e.g. '16GB', got "@ + in_quotes),
        }
    }

    /// The use that exceeds the limit, if one does: the counted use where
    /// there is one, else the resident use.
    pub open spec fn exceeding_use(self, mem_use: MemoryUse) -> Option<i64> {
        match (self.limit, mem_use.counted, mem_use.resident) {
            (Some(limit), Some(counted), _) => if limit < counted {
                Some(counted)
            } else {
                None
            },
            (Some(limit), None, Some(resident)) => if limit < resident {
                Some(resident)
            } else {
                None
            },
            _ => None,
        }
    }

    /// The limit for a number of bytes that was parsed from a text, or the
    /// error that names the text, given in quotes.
    pub fn from_parsed(parsed: Option<i64>, in_quotes: &str) -> (result: Result<
        MemoryLimit,
        String,
    >)
        ensures
            match MemoryLimit::parse_result(parsed, in_quotes@) {
                Ok(limit) => result == Ok::<MemoryLimit, String>(limit),
                Err(message) => result is Err && result->Err_0@ == message,
            },
    {
        match parsed {
            Some(bytes) => Ok(MemoryLimit { limit: Some(bytes) }),
            None => Err(String::from_str("expected e.g. '16GB', got ").concat(in_quotes)),
        }
    }

    /// Reads a limit such as `16GB` or `4MiB`.
    pub fn parse(limit: &str) -> (result: Result<MemoryLimit, String>)
        requires
            limit@.len() <= 8,
        ensures
            match MemoryLimit::parse_result(parsed_bytes(limit@), quoted(limit@)) {
                Ok(read) => result == Ok::<MemoryLimit, String>(read),
                Err(message) => result is Err && result->Err_0@ == message,
            },
    {
        let parsed = parse_bytes(limit);
        let in_quotes = quote(limit);
        MemoryLimit::from_parsed(parsed, in_quotes.as_str())
    }

    /// The use of memory that exceeds the limit, if one does. The counted
    /// use decides where there is one, else the resident use.
    pub fn is_exceeded_by(&self, mem_use: &MemoryUse) -> (exceeding: Option<i64>)
        ensures
            exceeding == self.exceeding_use(*mem_use),
    {
        let Some(limit) = self.limit else {
            return None;
        };
        if let Some(counted_use) = mem_use.counted {
            if limit < counted_use {
                return Some(counted_use);
            }
        } else if let Some(resident_use) = mem_use.resident {
            if limit < resident_use {
                return Some(resident_use);
            }
        }
        None
    }
}

} // verus!
