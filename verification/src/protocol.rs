//! The host protocol of the WebAssembly plugin, outside WebAssembly: there
//! is no host to hand arguments over or to take a result, so nothing is read
//! and what is sent goes nowhere.
use vstd::prelude::*;

verus! {

/// The arguments the host hands over: none.
pub fn read_args(total_len: usize) -> (r: Vec<u8>)
    ensures
        r@.len() == 0,
{
    let _ = total_len;
    Vec::new()
}

/// Hand a result to the host; `0` is success.
pub fn send_bytes(bytes: Vec<u8>) -> (r: i32)
    ensures
        r == 0,
{
    let _ = bytes;
    0
}

/// Hand a string result to the host, as its UTF-8 bytes.
pub fn send_string(value: String) -> (r: i32)
    ensures
        r == 0,
{
    send_bytes(value.as_str().as_bytes_vec())
}

/// Report an error to the host; `1` tells it the result is a message.
pub fn send_error(message: String) -> (r: i32)
    ensures
        r == 1,
{
    let _ = message;
    1
}

} // verus!
