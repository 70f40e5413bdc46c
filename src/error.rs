//! The errors of the library.
use vstd::prelude::*;

verus! {

/// A line that does not hold a record.
#[derive(Debug, Clone, PartialEq, Eq, PartialOrd)]
pub enum TimeTrackError {
    CanNotParseRecord { source: String },
}

impl TimeTrackError {
    /// The message of the error: ``can't parse record from source: `<line>` ``.
    pub fn to_string(&self) -> (r: String)
        ensures
            r@ == self.message(),
    {
        match self {
            TimeTrackError::CanNotParseRecord { source } => {
                let mut r = String::new();
                r.append("can't parse record from source: `");
                r.append(source.as_str());
                r.append("`");
                r
            },
        }
    }

    pub open spec fn message(&self) -> Seq<char> {
        match self {
            TimeTrackError::CanNotParseRecord { source } => "can't parse record from source: `"@
                + source@ + "`"@,
        }
    }
}

} // verus!
