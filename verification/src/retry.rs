//! When a failed call is tried again, and after how long.

use crate::text::{contains_text, has_text};
use vstd::prelude::*;
use vstd::string::StringExecFns;

verus! {

/// How often a call is tried at most.
pub const MAX_ATTEMPTS: u32 = 10;

/// Why a chain could not be built.
#[derive(Debug)]
pub enum ChainError {
    /// S3 refused a call, with these words.
    S3(String),
    /// S3 opened an upload without saying which.
    NoUploadId,
    /// S3 took a part, in the given call, without an entity tag.
    NoEtag(String),
    /// The checksum of an object is missing or no checksum.
    BadCrc(String),
    /// A body broke off, with these words.
    ByteStream(String),
}

impl ChainError {
    /// The error in words.
    pub open spec fn text(&self) -> Seq<char> {
        match *self {
            ChainError::S3(words) => "s3 error: "@ + words@,
            ChainError::NoUploadId => "missing upload id from create_multipart_upload"@,
            ChainError::NoEtag(call) => "missing etag from "@ + call@,
            ChainError::BadCrc(object) => "missing or undecodable CRC for object "@ + object@,
            ChainError::ByteStream(words) => "bytestream: "@ + words@,
        }
    }

    /// The error in words.
    pub fn message(&self) -> (text: String)
        ensures
            text@ == self.text(),
    {
        match self {
            ChainError::S3(words) => {
                let mut s: String = String::from_str("s3 error: ");
                s.append(words.as_str());
                s
            },
            ChainError::NoUploadId => String::from_str(
                "missing upload id from create_multipart_upload",
            ),
            ChainError::NoEtag(call) => {
                let mut s: String = String::from_str("missing etag from ");
                s.append(call.as_str());
                s
            },
            ChainError::BadCrc(object) => {
                let mut s: String = String::from_str("missing or undecodable CRC for object ");
                s.append(object.as_str());
                s
            },
            ChainError::ByteStream(words) => {
                let mut s: String = String::from_str("bytestream: ");
                s.append(words.as_str());
                s
            },
        }
    }

    /// Whether the words of an error speak of something that may pass.
    pub open spec fn transient_words(text: Seq<char>) -> bool {
        ||| has_text(text, "SlowDown"@)
        ||| has_text(text, "Throttl"@)
        ||| has_text(text, "ServiceUnavailable"@)
        ||| has_text(text, "Service Unavailable"@)
        ||| has_text(text, "RequestTimeout"@)
        ||| has_text(text, "InternalError"@)
        ||| has_text(text, "(500)"@)
        ||| has_text(text, "(503)"@)
    }

    /// Whether the call may succeed when it is tried again: a body that broke off, or an
    /// answer of S3 that speaks of something that may pass.
    pub open spec fn retryable(&self) -> bool {
        match *self {
            ChainError::ByteStream(_) => true,
            ChainError::S3(_) => Self::transient_words(self.text()),
            _ => false,
        }
    }

    /// Whether S3 has throttled the call.
    pub open spec fn throttled(&self) -> bool {
        &&& self.retryable()
        &&& has_text(self.text(), "SlowDown"@) || has_text(self.text(), "Throttl"@) || has_text(
            self.text(),
            "(503)"@,
        )
    }

    /// Whether the call may succeed when it is tried again.
    pub fn is_retryable(&self) -> (yes: bool)
        ensures
            yes == self.retryable(),
    {
        match self {
            ChainError::ByteStream(_) => true,
            ChainError::S3(_) => {
                let text: String = self.message();
                let s: &str = text.as_str();
                contains_text(s, "SlowDown") || contains_text(s, "Throttl") || contains_text(
                    s,
                    "ServiceUnavailable",
                ) || contains_text(s, "Service Unavailable") || contains_text(s, "RequestTimeout")
                    || contains_text(s, "InternalError") || contains_text(s, "(500)")
                    || contains_text(s, "(503)")
            },
            _ => false,
        }
    }

    /// Whether S3 has throttled the call, so that the rate has to go down.
    pub fn is_throttle(&self) -> (yes: bool)
        ensures
            yes == self.throttled(),
    {
        if !self.is_retryable() {
            return false;
        }
        let text: String = self.message();
        let s: &str = text.as_str();
        contains_text(s, "SlowDown") || contains_text(s, "Throttl") || contains_text(s, "(503)")
    }
}

/// How far the waiting time is doubled at most: for calls that the governor does not pace.
pub const PLAIN_DOUBLINGS: u32 = 5;

/// How far the waiting time is doubled at most: for calls that the governor paces.
pub const GOVERNED_DOUBLINGS: u32 = 7;

/// Two to the power of `n`.
pub open spec fn power_of_two(n: nat) -> nat
    decreases n,
{
    if n == 0 {
        1
    } else {
        2 * power_of_two((n - 1) as nat)
    }
}

/// The waiting time before try number `failures` + 1, in milliseconds: 100 at first, doubled
/// after each failure up to a limit, and up to 100 more so that waiting calls spread.
pub open spec fn wait_ms(failures: nat, doublings: nat, spread: u64) -> nat {
    let doubled = if failures - 1 <= doublings {
        (failures - 1) as nat
    } else {
        doublings
    };
    100 * power_of_two(doubled) + (spread % 100) as nat
}

/// How long is waited after so many failures, where there is another try.
pub open spec fn next_wait(failures: nat, retryable: bool, doublings: nat, spread: u64) -> Option<
    nat,
> {
    if retryable && failures < MAX_ATTEMPTS {
        Some(wait_ms(failures, doublings, spread))
    } else {
        None
    }
}

/// How often a call has failed so far.
#[derive(Debug, Clone, Copy, PartialEq, Eq, Structural)]
pub struct Attempts {
    pub failures: u32,
}

impl Attempts {
    /// No failure yet.
    pub fn new() -> (attempts: Attempts)
        ensures
            attempts.failures == 0,
    {
        Attempts { failures: 0 }
    }

    /// Counts a failure and says how long to wait before the next try. There is no next try
    /// where the error will not pass, or all tries are used up.
    pub fn after_failure(&mut self, retryable: bool, doublings: u32, spread: u64) -> (wait: Option<
        u64,
    >)
        requires
            old(self).failures < MAX_ATTEMPTS,
            doublings <= GOVERNED_DOUBLINGS,
        ensures
            final(self).failures == old(self).failures + 1,
            match wait {
                Some(ms) => next_wait(
                    final(self).failures as nat,
                    retryable,
                    doublings as nat,
                    spread,
                ) == Some(ms as nat),
                None => next_wait(
                    final(self).failures as nat,
                    retryable,
                    doublings as nat,
                    spread,
                ) is None,
            },
            match wait {
                Some(ms) => {
                    &&& retryable
                    &&& final(self).failures < MAX_ATTEMPTS
                    &&& ms == wait_ms(
                        final(self).failures as nat,
                        doublings as nat,
                        spread,
                    )
                },
                None => !retryable || final(self).failures >= MAX_ATTEMPTS,
            },
    {
        self.failures = self.failures + 1;
        if self.failures >= MAX_ATTEMPTS || !retryable {
            return None;
        }
        let doubled: u32 = if self.failures - 1 <= doublings {
            self.failures - 1
        } else {
            doublings
        };
        let mut base: u64 = 100;
        for i in 0..doubled
            invariant
                doubled <= GOVERNED_DOUBLINGS,
                base == 100 * power_of_two(i as nat),
                base <= 100 * 128,
                i == 0 ==> base <= 100,
                i == 1 ==> base <= 200,
                i == 2 ==> base <= 400,
                i == 3 ==> base <= 800,
                i == 4 ==> base <= 1600,
                i == 5 ==> base <= 3200,
                i == 6 ==> base <= 6400,
        {
            base = base * 2;
        }
        Some(base + spread % 100)
    }
}

/// No wait is shorter than 100 milliseconds, and none reaches 12.9 seconds.
pub proof fn waits_are_bounded(failures: nat, doublings: nat, spread: u64)
    requires
        1 <= failures < MAX_ATTEMPTS,
        doublings <= GOVERNED_DOUBLINGS,
    ensures
        100 <= wait_ms(failures, doublings, spread) < 12_900,
{
    reveal_with_fuel(power_of_two, 9);
}

/// The first wait is a tenth of a second, every further one twice as long as the one before,
/// until the limit of doublings is reached; each is longer by less than a tenth of a second,
/// which depends on the spread alone.
pub proof fn waits_double(failures: nat, doublings: nat, spread: u64)
    requires
        failures >= 1,
    ensures
        wait_ms(1, doublings, spread) == 100 + spread % 100,
        failures <= doublings ==> wait_ms(failures + 1, doublings, 0) == 2 * wait_ms(
            failures,
            doublings,
            0,
        ),
        failures > doublings ==> wait_ms(failures + 1, doublings, 0) == wait_ms(
            failures,
            doublings,
            0,
        ),
        wait_ms(failures, doublings, spread) == wait_ms(failures, doublings, 0) + spread % 100,
{
    reveal_with_fuel(power_of_two, 2);
}

proof fn lemma_text_inside(head: Seq<char>, before: Seq<char>, part: Seq<char>, behind: Seq<char>)
    ensures
        has_text(head + (before + part + behind), part),
{
    let s = head + (before + part + behind);
    let at = (head.len() + before.len()) as int;
    assert(s.subrange(at, at + part.len()) =~= part);
}

/// An answer of S3 that speaks of throttling, of being unavailable, of a timeout or of an
/// error of its own is tried again, whatever else it says; of these, throttling slows the
/// calls down.
pub proof fn passing_errors_are_retried(words: String, before: Seq<char>, behind: Seq<char>)
    ensures
        ({
            let e = ChainError::S3(words);
            &&& words@ == before + "SlowDown"@ + behind ==> e.retryable() && e.throttled()
            &&& words@ == before + "Throttl"@ + behind ==> e.retryable() && e.throttled()
            &&& words@ == before + "(503)"@ + behind ==> e.retryable() && e.throttled()
            &&& words@ == before + "ServiceUnavailable"@ + behind ==> e.retryable()
            &&& words@ == before + "Service Unavailable"@ + behind ==> e.retryable()
            &&& words@ == before + "RequestTimeout"@ + behind ==> e.retryable()
            &&& words@ == before + "InternalError"@ + behind ==> e.retryable()
            &&& words@ == before + "(500)"@ + behind ==> e.retryable()
            &&& e.throttled() ==> e.retryable()
        }),
{
    let head = "s3 error: "@;
    lemma_text_inside(head, before, "SlowDown"@, behind);
    lemma_text_inside(head, before, "Throttl"@, behind);
    lemma_text_inside(head, before, "(503)"@, behind);
    lemma_text_inside(head, before, "ServiceUnavailable"@, behind);
    lemma_text_inside(head, before, "Service Unavailable"@, behind);
    lemma_text_inside(head, before, "RequestTimeout"@, behind);
    lemma_text_inside(head, before, "InternalError"@, behind);
    lemma_text_inside(head, before, "(500)"@, behind);
}

/// A body that broke off is always tried again, and slows nothing down by itself unless it
/// speaks of throttling; what S3 left out of an answer is never asked for again.
pub proof fn answers_that_lack_something_are_final(words: String)
    ensures
        ChainError::ByteStream(words).retryable(),
        !ChainError::NoUploadId.retryable(),
        !ChainError::NoEtag(words).retryable(),
        !ChainError::BadCrc(words).retryable(),
        !ChainError::NoUploadId.throttled(),
        !ChainError::NoEtag(words).throttled(),
        !ChainError::BadCrc(words).throttled(),
{
}

/// A call whose failures may pass is tried ten times, any other once.
pub proof fn calls_are_tried_ten_times(failures: nat, doublings: nat, spread: u64)
    ensures
        next_wait(failures, true, doublings, spread) is Some <==> failures < 10,
        next_wait(failures, false, doublings, spread) is None,
        next_wait(1, true, doublings, spread) == Some((100 + spread % 100) as nat),
{
    waits_double(1, doublings, spread);
}

} // verus!
