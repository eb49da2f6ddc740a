//! Requests to a node and how they are answered.

pub mod engine;
pub mod json;

use serde_json::Value;
use vstd::prelude::*;

verus! {

/// Why a request was refused.
#[derive(Clone, Copy, Debug, PartialEq, Eq, Structural)]
pub enum RpcErr {
    /// The parameters are not what the method takes.
    BadParams,
}

/// What tells a request apart from others.
#[derive(Debug)]
pub enum RpcRequestId {
    Number(u64),
    String(String),
}

/// A request as it is sent.
#[derive(Debug)]
pub struct RpcRequest {
    pub id: RpcRequestId,
    pub jsonrpc: String,
    pub method: String,
    pub params: Option<Vec<Value>>,
}

impl Default for RpcRequest {
    /// The first request, in the version in use, with neither method nor parameters.
    fn default() -> (request: RpcRequest)
        ensures
            request.id == RpcRequestId::Number(1),
            request.jsonrpc@ == "2.0"@,
            request.method@ == ""@,
            request.params is None,
    {
        RpcRequest {
            id: RpcRequestId::Number(1),
            jsonrpc: "2.0".to_string(),
            method: "".to_string(),
            params: None,
        }
    }
}

/// A request that can be read from its parameters and answered.
pub trait RpcHandler: Sized {
    /// The request that the parameters make.
    fn parse(params: &Option<Vec<Value>>) -> Result<Self, RpcErr>;

    /// The answer to the request.
    fn handle(&self) -> Result<Value, RpcErr>;
}

} // verus!
