use tokio_redis::command::{Command, CommandError, Outcome};
use tokio_redis::db::{expiry_deadline, Db};
use tokio_redis::frame::Frame;

fn bulk(s: &str) -> Frame {
    Frame::Bulk(s.as_bytes().to_vec())
}

fn request(words: &[&str]) -> Frame {
    Frame::Array(words.iter().map(|w| bulk(w)).collect())
}

fn run(db: &mut Db, words: &[&str], now: u64, id: u64) -> Outcome {
    Command::from(request(words)).unwrap().apply(db, now, id)
}

#[test]
fn set_get_del_get() {
    let mut db = Db::new();
    assert_eq!(run(&mut db, &["SET", "foo", "bar"], 0, 1).reply, vec![Frame::Simple(b"OK".to_vec())]);
    assert_eq!(run(&mut db, &["GET", "foo"], 0, 1).reply, vec![bulk("bar")]);
    assert_eq!(run(&mut db, &["DEL", "foo"], 0, 1).reply, vec![Frame::Integer(1)]);
    assert_eq!(run(&mut db, &["GET", "foo"], 0, 1).reply, vec![Frame::Null]);
    assert_eq!(run(&mut db, &["DEL", "foo"], 0, 1).reply, vec![Frame::Integer(0)]);
}

#[test]
fn set_overwrites() {
    let mut db = Db::new();
    run(&mut db, &["set", "k", "one"], 0, 1);
    run(&mut db, &["Set", "k", "two"], 0, 1);
    assert_eq!(run(&mut db, &["get", "k"], 0, 1).reply, vec![bulk("two")]);
}

#[test]
fn expiry_hides_the_value() {
    let mut db = Db::new();
    let now = 5_000;
    assert_eq!(run(&mut db, &["SET", "k", "v", "EX", "1"], now, 1).reply, vec![Frame::Simple(b"OK".to_vec())]);
    assert_eq!(run(&mut db, &["GET", "k"], now, 1).reply, vec![bulk("v")]);
    assert_eq!(run(&mut db, &["GET", "k"], now + 999, 1).reply, vec![bulk("v")]);
    assert_eq!(run(&mut db, &["GET", "k"], now + 1000, 1).reply, vec![Frame::Null]);
    assert_eq!(run(&mut db, &["DEL", "k"], now + 1000, 1).reply, vec![Frame::Integer(0)]);
}

#[test]
fn deadline_saturates() {
    assert_eq!(expiry_deadline(10, 3), 3_010);
    assert_eq!(expiry_deadline(u64::MAX - 5, 1), u64::MAX);
}

#[test]
fn publish_without_subscribers() {
    let mut db = Db::new();
    let out = run(&mut db, &["PUBLISH", "news", "hi"], 0, 1);
    assert_eq!(out.reply, vec![Frame::Integer(0)]);
    assert!(out.deliver_to.is_empty());
}

#[test]
fn publish_reaches_subscribers() {
    let mut db = Db::new();
    let sub = run(&mut db, &["SUBSCRIBE", "news", "sport"], 0, 7);
    assert_eq!(
        sub.reply,
        vec![
            Frame::Array(vec![bulk("subscribe"), bulk("news"), Frame::Integer(1)]),
            Frame::Array(vec![bulk("subscribe"), bulk("sport"), Frame::Integer(2)]),
        ]
    );
    run(&mut db, &["SUBSCRIBE", "news"], 0, 8);
    run(&mut db, &["SUBSCRIBE", "news"], 0, 8);
    let out = run(&mut db, &["PUBLISH", "news", "hi"], 0, 1);
    assert_eq!(out.reply, vec![Frame::Integer(2)]);
    assert_eq!(out.deliver_to, vec![7, 8]);
    assert_eq!(out.push, Some(Frame::Array(vec![bulk("message"), bulk("news"), bulk("hi")])));
    db.unsubscribe_all(7);
    let out = run(&mut db, &["PUBLISH", "news", "again"], 0, 1);
    assert_eq!(out.deliver_to, vec![8]);
}

#[test]
fn ping_replies() {
    let mut db = Db::new();
    assert_eq!(run(&mut db, &["PING"], 0, 1).reply, vec![Frame::Simple(b"PONG".to_vec())]);
    assert_eq!(run(&mut db, &["ping", "hey"], 0, 1).reply, vec![bulk("hey")]);
}

#[test]
fn command_errors() {
    assert_eq!(Command::from(Frame::Integer(1)), Err(CommandError::NotArray));
    assert_eq!(
        Command::from(Frame::Array(vec![bulk("GET"), Frame::Integer(1)])),
        Err(CommandError::NotBulk)
    );
    assert_eq!(Command::from(Frame::Array(vec![])), Err(CommandError::MissingVerb));
    assert_eq!(Command::from(request(&["NOPE"])), Err(CommandError::UnknownVerb));
    assert_eq!(Command::from(request(&["GET"])), Err(CommandError::WrongArity));
    assert_eq!(Command::from(request(&["SET", "k", "v", "EX", "0"])), Err(CommandError::BadExpiry));
    assert_eq!(Command::from(request(&["SET", "k", "v", "EX", "x"])), Err(CommandError::BadExpiry));
    assert_eq!(Command::from(request(&["SET", "k", "v", "PX", "5"])), Err(CommandError::Syntax));
    assert_eq!(Command::from(request(&["SUBSCRIBE"])), Err(CommandError::WrongArity));
}

#[test]
fn parsed_commands() {
    assert_eq!(
        Command::from(request(&["set", "k", "v", "ex", "10"])),
        Ok(Command::SetKey(b"k".to_vec(), b"v".to_vec(), Some(10)))
    );
    assert_eq!(Command::from(request(&["Del", "k"])), Ok(Command::Del(b"k".to_vec())));
}

#[test]
fn error_frames() {
    assert_eq!(
        CommandError::UnknownVerb.to_frame(),
        Frame::Error(b"ERR unknown command".to_vec())
    );
    assert_eq!(
        CommandError::WrongArity.to_frame().encode(),
        b"-ERR wrong number of arguments\r\n".to_vec()
    );
}
