//! What the server does with a request: one operation on the store, and the
//! frame that answers it.

use crate::buffer::bytes_contents;
use crate::frame::Frame;
use crate::shard_db::ShardDb;
use crate::wire::FrameModel;
use bytes::Bytes;
use vstd::prelude::*;
use vstd::string::StringExecFns;

verus! {

/// A request to the store.
#[derive(Debug)]
pub enum Request {
    /// Asks for the value stored for `key`.
    GetValue { key: String },
    /// Stores `value` for `key`.
    SetValue { key: String, value: Bytes },
}

/// The answer to a `GetValue`: the value as a bulk string, or the null value when
/// nothing is stored.
pub fn reply_to_get(found: Option<Bytes>) -> (reply: Frame)
    ensures
        reply@ == (match found {
            Some(value) => FrameModel::Bulk(bytes_contents(value)),
            None => FrameModel::Null,
        }),
{
    match found {
        Some(value) => Frame::Bulk(value),
        None => Frame::Null,
    }
}

/// The answer to a `SetValue`: the simple string `OK`.
pub fn reply_to_set() -> (reply: Frame)
    ensures
        reply@ == FrameModel::Simple("OK"@),
{
    Frame::Simple(String::from_str("OK"))
}

/// Carries out `request` on the store and gives the frame that answers it.
///
/// A `SetValue` is answered with `OK` whatever it replaced. A `GetValue` is
/// answered with a bulk string or the null value; which one depends on what
/// was stored before, by this or another user of the store.
pub fn handle(db: &ShardDb<Bytes>, request: Request) -> (reply: Frame)
    ensures
        request is SetValue ==> reply@ == FrameModel::Simple("OK"@),
        request is GetValue ==> reply@ is Bulk || reply@ is Null,
{
    match request {
        Request::SetValue { key, value } => {
            db.set(key, value);
            reply_to_set()
        },
        Request::GetValue { key } => reply_to_get(db.get_value(key.as_str())),
    }
}

} // verus!
