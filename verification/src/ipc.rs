//! What the clients and the daemon say to each other over the socket.

use vstd::prelude::*;
use crate::text;

verus! {

/// `serde_json::Value`: any JSON value, which the responses only carry.
#[verifier::external_type_specification]
#[verifier::external_body]
pub struct ExJsonValue(serde_json::Value);

/// `serde_json::Error`: why data could not be turned into a JSON value.
#[verifier::external_type_specification]
#[verifier::external_body]
pub struct ExJsonError(serde_json::Error);

/// `Value`'s `Default`, which is JSON's `null`. A JSON value is opaque here, so
/// nothing is claimed of it.
#[verifier::external_body]
fn null_value() -> serde_json::Value {
    serde_json::Value::default()
}

/// The path of the daemon's socket in the runtime directory, which is `/tmp`
/// where it is not known.
pub fn socket_path(runtime_dir: Option<String>) -> (r: String)
    ensures
        r@ == (match runtime_dir {
            Some(d) => d@,
            None => "/tmp"@,
        }) + "/pipewire-controld.sock"@,
{
    let mut r = match runtime_dir {
        Some(d) => d,
        None => "/tmp".to_owned(),
    };
    r.append("/pipewire-controld.sock");
    r
}

/// Commands sent from CLI / web server to the daemon over the Unix socket.
#[derive(Debug)]
pub enum IpcRequest {
    AddSink { name: String },
    RemoveSink { id: u32 },
    Route { stream_id: u32, sink_id: u32 },
    Unroute { stream_id: u32 },
    ListNodes,
    Shutdown,
}

/// Daemon responses.
#[derive(Debug)]
pub struct IpcResponse {
    pub ok: bool,
    pub data: Option<serde_json::Value>,
    pub error: Option<String>,
}

impl IpcResponse {
    /// The request was carried out; `data` is what turning the answer into a JSON
    /// value gave. An answer that is none is sent as `null`.
    pub fn ok(data: Result<serde_json::Value, serde_json::Error>) -> (r: IpcResponse)
        ensures
            r.ok,
            r.data is Some,
            r.error is None,
            data matches Ok(v) ==> r.data == Some(v),
    {
        let data = match data {
            Ok(v) => v,
            Err(_) => null_value(),
        };
        IpcResponse { ok: true, data: Some(data), error: None }
    }

    /// The request failed.
    pub fn err(msg: String) -> (r: IpcResponse)
        ensures
            r == (IpcResponse { ok: false, data: None, error: Some(msg) }),
    {
        IpcResponse { ok: false, data: None, error: Some(msg) }
    }
}

} // verus!
