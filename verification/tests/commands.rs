use kava::commands::Command;

#[test]
fn test_command_from_str_put() {
    let cmd_result = Command::try_from("PUT key value");

    assert!(matches!(cmd_result, Ok(Command::Put(ref k, ref v)) if k == "key" && v == "value"));
}

#[test]
fn test_command_from_str_read() {
    let cmd_result = Command::try_from("READ key");

    assert!(matches!(cmd_result, Ok(Command::Read(ref k)) if k == "key"));
}

#[test]
fn test_command_from_str_read_range() {
    let cmd_result = Command::try_from("READRANGE startkey endkey");

    assert!(
        matches!(cmd_result, Ok(Command::ReadKeyByRange(ref start, ref end)) if start == "startkey" && end == "endkey")
    );
}

#[test]
fn test_command_from_str_batch_put() {
    let cmd_result = Command::try_from("BATCHPUT key1 value1 key2 value2");

    assert!(
        matches!(cmd_result, Ok(Command::BatchPut(ref kvs)) if *kvs == vec!["key1", "value1", "key2", "value2"])
    );
}

#[test]
fn test_command_from_str_delete() {
    let cmd_result = Command::try_from("DELETE mykey");

    assert!(matches!(cmd_result, Ok(Command::Delete(ref k)) if k == "mykey"));
}

fn parsed(s: &str) -> Command {
    match Command::try_from(s) {
        Ok(cmd) => cmd,
        Err(e) => panic!("{:?} was refused: {}", s, e),
    }
}

fn refused(s: &str) -> String {
    match Command::try_from(s) {
        Ok(cmd) => panic!("{:?} was accepted as {:?}", s, cmd),
        Err(e) => e,
    }
}

#[test]
fn command_refuses_what_is_no_command() {
    for s in [
        "",
        "   ",
        "PUT",
        "PUT key",
        "PUT key value extra",
        "READ",
        "READ a b",
        "READRANGE a",
        "READRANGE a b c",
        "DELETE",
        "DELETE a b",
        "put key value",
        "GET key",
        "PUTkey value",
    ] {
        assert_eq!(refused(s), "Invalid command format", "{:?}", s);
    }
}

#[test]
fn command_ignores_surrounding_white_space() {
    assert!(matches!(parsed("  PUT\tk \n v\n"), Command::Put(ref k, ref v) if k == "k" && v == "v"));
    assert!(matches!(parsed("\nDELETE   k\r\n"), Command::Delete(ref k) if k == "k"));
}

#[test]
fn command_batch_put_takes_any_number_of_tokens() {
    assert!(matches!(parsed("BATCHPUT"), Command::BatchPut(ref t) if t.is_empty()));
    assert!(matches!(parsed("BATCHPUT k"), Command::BatchPut(ref t) if *t == vec!["k"]));
    assert!(
        matches!(parsed("BATCHPUT a 1 b 2 c"), Command::BatchPut(ref t) if *t == vec!["a", "1", "b", "2", "c"])
    );
}

#[test]
fn command_keyword_may_be_an_argument() {
    assert!(matches!(parsed("PUT PUT READ"), Command::Put(ref k, ref v) if k == "PUT" && v == "READ"));
    assert!(matches!(parsed("READ DELETE"), Command::Read(ref k) if k == "DELETE"));
}

#[test]
fn command_text_is_canonical() {
    assert_eq!(Command::Put("k".into(), "v".into()).to_string(), "PUT k v");
    assert_eq!(Command::Read("k".into()).to_string(), "READ k");
    assert_eq!(Command::ReadKeyByRange("a".into(), "b".into()).to_string(), "READRANGE a b");
    assert_eq!(Command::Delete("k".into()).to_string(), "DELETE k");
    assert_eq!(Command::BatchPut(vec![]).to_string(), "BATCHPUT");
    assert_eq!(
        Command::BatchPut(vec!["a".into(), "1".into(), "b".into(), "2".into()]).to_string(),
        "BATCHPUT a 1 b 2"
    );
}

#[test]
fn command_text_parses_to_the_command() {
    for s in ["PUT k v", "READ k", "READRANGE a b", "DELETE k", "BATCHPUT", "BATCHPUT a 1 b 2 c"] {
        let text = parsed(s).to_string();
        assert_eq!(text, s);
        let mut wire = text.clone();
        wire.push('\n');
        assert_eq!(parsed(&wire).to_string(), s);
    }
    assert_eq!(parsed(" PUT   k\tv ").to_string(), "PUT k v");
}
