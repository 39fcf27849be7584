//! The request sent to the registry's RPC endpoint.
use vstd::prelude::*;
use vstd::string::*;

verus! {

/// A JSON-RPC request.
#[derive(Debug, Clone)]
pub struct RpcRequest {
    pub jsonrpc: String,
    pub id: u32,
    pub method: String,
    pub params: RpcParams,
}

/// The parameters of an ABCI query.
#[derive(Debug, Clone)]
pub struct RpcParams {
    pub path: String,
    pub data: String,
}

impl RpcRequest {
    /// The file query for an encoded path: JSON-RPC 2.0, id 1, method
    /// `abci_query`, query path `vm/qfile`, and `data` as given.
    pub fn file_query(data: &str) -> (r: RpcRequest)
        ensures
            r.jsonrpc@ == "2.0"@,
            r.id == 1,
            r.method@ == "abci_query"@,
            r.params.path@ == "vm/qfile"@,
            r.params.data@ == data@,
    {
        RpcRequest {
            jsonrpc: String::from_str("2.0"),
            id: 1,
            method: String::from_str("abci_query"),
            params: RpcParams { path: String::from_str("vm/qfile"), data: String::from_str(data) },
        }
    }
}

} // verus!
