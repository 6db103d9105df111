//! Requests and responses of the small arithmetic tools the surrounding
//! system offers. The protocol layer decodes a request, calls the verified
//! computation here, and wraps the result for the wire.

use vstd::prelude::*;

verus! {

/// Inputs of the sum tool: the left and right hand side numbers.
#[derive(Clone, Copy, Debug, PartialEq, Eq, Structural)]
pub struct SumRequest {
    pub a: i32,
    pub b: i32,
}

impl SumRequest {
    /// The sum the tool reports.
    pub fn sum(&self) -> (r: i32)
        requires
            i32::MIN <= self.a + self.b <= i32::MAX,
        ensures
            r == self.a + self.b,
    {
        self.a + self.b
    }
}

/// Inputs of the subtraction tool: the left and right hand side numbers.
#[derive(Clone, Copy, Debug, PartialEq, Eq, Structural)]
pub struct SubRequest {
    pub a: i32,
    pub b: i32,
}

impl SubRequest {
    /// The difference the tool reports.
    pub fn difference(&self) -> (r: SubResponse)
        requires
            i32::MIN <= self.a - self.b <= i32::MAX,
        ensures
            r.result == self.a - self.b,
    {
        SubResponse { result: self.a - self.b }
    }
}

/// The subtraction tool's result.
#[derive(Clone, Copy, Debug, PartialEq, Eq, Structural)]
pub struct SubResponse {
    pub result: i32,
}

/// Inputs of the echo tool, which reports them back unchanged.
#[derive(Clone, Copy, Debug, PartialEq, Eq, Structural)]
pub struct EchoRequest {
    pub a: i32,
    pub b: i32,
}

} // verus!
