//! Byte ranges as S3 takes them.

use crate::text::{decimal, decimal_is_read_back, decimal_text, number_value};
use vstd::prelude::*;
use vstd::string::StringExecFns;

verus! {

/// The bytes from `first` to `last`, both included.
#[derive(Debug, Clone, Copy, PartialEq, Eq, Structural)]
pub struct ByteRange {
    pub first: u64,
    pub last: u64,
}

/// A range in the form of a range header.
pub open spec fn range_text(first: nat, last: nat) -> Seq<char> {
    "bytes="@ + decimal_text(first) + "-"@ + decimal_text(last)
}

impl ByteRange {
    /// The range in the form of a range header.
    pub fn header(&self) -> (text: String)
        ensures
            text@ == range_text(self.first as nat, self.last as nat),
    {
        let mut text: String = String::from_str("bytes=");
        text.append(decimal(self.first).as_str());
        text.append("-");
        text.append(decimal(self.last).as_str());
        text
    }
}

/// A header gives the unit and then both ends, so that each end can be read from it as a
/// number, and a header belongs to one range alone.
pub proof fn headers_name_both_ends(first: nat, last: nat, dash: int)
    requires
        dash == 6 + decimal_text(first).len(),
    ensures
        range_text(first, last).take(6) == "bytes="@,
        range_text(first, last)[dash] == '-',
        number_value(range_text(first, last).subrange(6, dash)) == Some(first),
        number_value(range_text(first, last).skip(dash + 1)) == Some(last),
{
    reveal_strlit("bytes=");
    reveal_strlit("-");
    decimal_is_read_back(first);
    decimal_is_read_back(last);
    let text = range_text(first, last);
    assert(text.take(6) =~= "bytes="@);
    assert(text.subrange(6, dash) =~= decimal_text(first));
    assert(text.skip(dash + 1) =~= decimal_text(last));
}

} // verus!
