use bytes::Bytes;
use kv_db::cli::Command;
use kv_db::cli::CommandError;
use kv_db::cli::KVPair;
use kv_db::client::Client;
use kv_db::client::ClientError;
use kv_db::frame::Frame;
use kv_db::frame::FrameErrorKind;
use kv_db::json::Json;
use kv_db::DEFAULT_PORT;

#[test]
fn default_port_is_the_usual_one() {
    assert_eq!(DEFAULT_PORT, 6379);
}

#[test]
fn client_starts_with_an_empty_buffer() {
    assert!(Client::new().connection.buffer.is_empty());
}

#[test]
fn ping_answer_is_the_text() {
    assert_eq!(Client::ping(Frame::Simple("PONG".to_string())), Ok("PONG".to_string()));
    assert_eq!(Client::ping(Frame::Integer(1)), Err(ClientError::UnexpectedFrame));
    assert_eq!(Client::ping(Frame::Error(FrameErrorKind::NotFound)), Err(ClientError::UnexpectedFrame));
}

#[test]
fn get_answer_is_the_value_or_the_error_in_words() {
    assert_eq!(Client::get(Frame::Bulk(Bytes::from("bb".to_string()))), Ok("bb".to_string()));
    assert_eq!(Client::get(Frame::Simple("s".to_string())), Ok("s".to_string()));
    assert_eq!(Client::get(Frame::Error(FrameErrorKind::NotFound)), Ok("Error: not found".to_string()));
    assert_eq!(
        Client::get(Frame::Error(FrameErrorKind::InternalError)),
        Ok("Error: internal error".to_string())
    );
    assert_eq!(Client::get(Frame::Bulk(Bytes::from(vec![0xff]))), Err(ClientError::InvalidString));
    assert_eq!(Client::get(Frame::Array(Vec::new())), Err(ClientError::UnexpectedFrame));
}

#[test]
fn set_answer_is_the_text() {
    assert_eq!(Client::set(Frame::Simple("OK".to_string())), Ok("OK".to_string()));
    assert_eq!(Client::set(Frame::Error(FrameErrorKind::InternalError)), Err(ClientError::UnexpectedFrame));
}

#[test]
fn delete_answer_is_the_text_or_the_error_in_words() {
    assert_eq!(Client::delete(Frame::Simple("OK".to_string())), Ok("OK".to_string()));
    assert_eq!(Client::delete(Frame::Error(FrameErrorKind::NotFound)), Ok("Error: not found".to_string()));
    assert_eq!(Client::delete(Frame::Integer(3)), Err(ClientError::UnexpectedFrame));
}

#[test]
fn missing_answer_is_an_error() {
    assert!(matches!(Client::read_response(None), Err(ClientError::ConnectionClosed)));
    assert!(matches!(Client::read_response(Some(Frame::Integer(1))), Ok(Frame::Integer(1))));
}

fn args(words: &[&str]) -> Vec<String> {
    words.iter().map(|w| w.to_string()).collect()
}

#[test]
fn command_line_is_read() {
    match Command::from_args(args(&["prog", "GET", "k"])) {
        Ok(Command::GET(key)) => assert_eq!(key, "k"),
        other => panic!("unexpected: {:?}", other),
    }
    match Command::from_args(args(&["prog", "SET", "k", "v", "ignored"])) {
        Ok(Command::SET(key, value)) => {
            assert_eq!(key, "k");
            assert_eq!(value, "v");
        }
        other => panic!("unexpected: {:?}", other),
    }
    assert_eq!(Command::from_args(args(&["prog"])).err(), Some(CommandError::NoCommandProvided));
    assert_eq!(Command::from_args(args(&[])).err(), Some(CommandError::NoCommandProvided));
    assert_eq!(Command::from_args(args(&["prog", "GET"])).err(), Some(CommandError::MissingKey));
    assert_eq!(Command::from_args(args(&["prog", "SET"])).err(), Some(CommandError::MissingKey));
    assert_eq!(Command::from_args(args(&["prog", "SET", "k"])).err(), Some(CommandError::MissingValue));
    assert_eq!(Command::from_args(args(&["prog", "get", "k"])).err(), Some(CommandError::InvalidCommand));
    assert_eq!(CommandError::MissingValue.to_string(), "MissingValue");
    assert_eq!(CommandError::NoCommandProvided.to_string(), "NoCommandProvided");
}

#[test]
fn pair_is_written_and_read_as_json() {
    let pair = KVPair::new("k\"1".to_string(), "v\n".to_string());
    let text = pair.serialize().unwrap();
    assert_eq!(text, "{\"key\":\"k\\\"1\",\"value\":\"v\\n\"}");
    let read = KVPair::read_from_bytes(text.into_bytes()).unwrap();
    assert_eq!(read.key, "k\"1");
    assert_eq!(read.value, "v\n");
    assert_eq!(KVPair::compose("1", "2"), "{\"key\":1,\"value\":2}");
    assert!(KVPair::read_from_bytes(b"{\"key\":\"k\"}".to_vec()).is_none());
    assert!(KVPair::read_from_bytes(b"{\"key\":\"k\",\"value\":null}".to_vec()).is_none());
    assert!(KVPair::read_from_bytes(vec![0xff]).is_none());
    assert!(KVPair::from_json(&Json::Null).is_none());
}

#[test]
fn pair_comes_from_a_set_command_only() {
    let pair = KVPair::try_from(Command::SET("k".to_string(), "v".to_string())).unwrap();
    assert_eq!(pair.key, "k");
    assert_eq!(pair.value, "v");
    assert_eq!(KVPair::try_from(Command::GET("k".to_string())).err(), Some(CommandError::InvalidCommand));
}
