//! The consumer-side decision for one read cycle: extract the newest
//! complete frame from the raw chunk, decode it, and either hand the
//! reading to the event bus or report a decode fault and carry on. The
//! blocking read before this step and the bus publish after it are the
//! application shell's work.

use vstd::prelude::*;
use crate::decode::decode;
use crate::decode::parse_frame;
use crate::extract::eliminate_trailing_characters;
use crate::extract::extracted;
use crate::reading::Reading;
use crate::reading::reading_wf;

verus! {

/// What one consumer cycle decides for a raw chunk.
pub enum PipelineStep {
    /// Publish this reading under the well-known event identifier.
    Publish(Reading),
    /// The extracted slice is not a frame: log and read again.
    DecodeFault,
}

/// The event identifier under which readings are published.
pub open spec fn event_name_spec() -> Seq<char> {
    "data_push"@
}

pub fn event_name() -> (s: &'static str)
    ensures
        s@ == event_name_spec(),
{
    "data_push"
}

/// Decide one cycle: publish exactly when the extracted slice parses
/// under the frame grammar, with the parsed reading; fault otherwise.
/// A fault never escalates — the caller simply reads again.
pub fn process_chunk(buf: &[u8]) -> (step: PipelineStep)
    ensures
        (step is Publish) == (parse_frame(extracted(buf@)) is Some),
        step matches PipelineStep::Publish(r) ==> parse_frame(extracted(buf@)) == Some(r@)
            && reading_wf(r@),
{
    let slice = eliminate_trailing_characters(buf);
    match decode(slice) {
        Some(r) => PipelineStep::Publish(r),
        None => PipelineStep::DecodeFault,
    }
}

} // verus!
