use vstd::prelude::*;

verus! {

/// Status code every streaming response of the service carries: the
/// status line is sent before the body exists, so errors never change it.
pub const STREAMING_RESPONSE_STATUS: u16 = 200;

/// Status of a streaming response.
pub fn streaming_response_status() -> (r: u16)
    ensures
        r == STREAMING_RESPONSE_STATUS,
{
    STREAMING_RESPONSE_STATUS
}

/// The one header the service sets on a streaming response.
pub fn streaming_response_content_type() -> (r: &'static str)
    ensures
        r@ == "application/octet-stream"@,
{
    "application/octet-stream"
}

} // verus!
