use bytes::Bytes;
use mini_redis_rs::frame::Frame;
use mini_redis_rs::handler::handle;
use mini_redis_rs::handler::reply_to_get;
use mini_redis_rs::handler::reply_to_set;
use mini_redis_rs::handler::Request;
use mini_redis_rs::shard_db::ShardDb;

fn get(key: &str) -> Request {
    Request::GetValue { key: key.to_string() }
}

fn set(key: &str, value: &'static [u8]) -> Request {
    Request::SetValue { key: key.to_string(), value: Bytes::from_static(value) }
}

#[test]
fn a_found_value_is_answered_as_a_bulk_string() {
    let reply = reply_to_get(Some(Bytes::from_static(b"World")));
    assert!(matches!(reply, Frame::Bulk(data) if &data[..] == b"World"));
}

#[test]
fn a_missing_value_is_answered_as_null() {
    assert!(matches!(reply_to_get(None), Frame::Null));
}

#[test]
fn a_set_is_answered_with_ok() {
    assert!(matches!(reply_to_set(), Frame::Simple(text) if text == "OK"));
}

#[test]
fn requests_are_carried_out_on_the_store() {
    let db: ShardDb<Bytes> = ShardDb::new(8);
    assert!(matches!(handle(&db, get("Hello")), Frame::Null));
    assert!(matches!(handle(&db, set("Hello", b"World")), Frame::Simple(text) if text == "OK"));
    assert!(matches!(handle(&db, get("Hello")), Frame::Bulk(data) if &data[..] == b"World"));
    assert!(matches!(handle(&db, get("missing")), Frame::Null));
    assert!(matches!(handle(&db, set("Hello", b"again")), Frame::Simple(text) if text == "OK"));
    assert!(matches!(handle(&db, get("Hello")), Frame::Bulk(data) if &data[..] == b"again"));
    assert_eq!(db.get_value("Hello"), Some(Bytes::from_static(b"again")));
}
