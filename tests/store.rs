use kvs::server::{engine_name, get_response, open_response, remove_response, set_response};
use kvs::{value_of_record, Command, CommandPosition, KeyIndex, KvStore, KvStoreError, Response, THRESHOLD};

/// The log file as the tests keep it: each record with the offset just past it.
struct File {
    records: Vec<(Command, u64)>,
}

impl File {
    fn new() -> File {
        File { records: Vec::new() }
    }

    fn size(&self) -> u64 {
        self.records.last().map(|r| r.1).unwrap_or(0)
    }

    fn append(&mut self, cmd: Command) {
        let end = self.size() + record_len(&cmd);
        self.records.push((cmd, end));
    }

    fn read(&self, p: CommandPosition) -> Command {
        let mut start = 0;
        for (cmd, end) in &self.records {
            if start == p.start {
                assert_eq!(end - start, p.length);
                return cmd.clone();
            }
            start = *end;
        }
        panic!("no record at {}", p.start);
    }

    fn rewrite(&self, plan: &[CommandPosition]) -> File {
        let mut next = File::new();
        for p in plan {
            next.append(self.read(*p));
        }
        next
    }
}

fn record_len(cmd: &Command) -> u64 {
    let text = match cmd {
        Command::Put { key, value } => format!("{{\"Set\":{{\"key\":\"{}\",\"value\":\"{}\"}}}}", key, value),
        Command::Rm { key } => format!("{{\"Rm\":{{\"key\":\"{}\"}}}}", key),
        Command::Get { key } => format!("{{\"Get\":{{\"key\":\"{}\"}}}}", key),
        Command::Open { path } => format!("{{\"Open\":{{\"path\":\"{}\"}}}}", path),
    };
    text.len() as u64
}

fn set(store: &mut KvStore, file: &mut File, key: &str, value: &str) -> bool {
    let cmd = Command::Put { key: key.to_owned(), value: value.to_owned() };
    let due = store.set(key.to_owned(), value.to_owned(), record_len(&cmd));
    file.append(cmd);
    due
}

fn remove(store: &mut KvStore, file: &mut File, key: &str) -> Result<(), KvStoreError> {
    let cmd = Command::Rm { key: key.to_owned() };
    let r = store.remove(key.to_owned(), record_len(&cmd));
    if r.is_ok() {
        file.append(cmd);
    }
    r
}

fn get(store: &KvStore, file: &File, key: &str) -> Result<Option<String>, KvStoreError> {
    match store.get(&key.to_owned()) {
        Some(p) => value_of_record(file.read(p)).map(Some),
        None => Ok(None),
    }
}

fn put(key: &str, value: &str) -> Command {
    Command::Put { key: key.to_owned(), value: value.to_owned() }
}

#[test]
fn set_then_get_on_empty_store() {
    let mut store = KvStore::new();
    let mut file = File::new();
    assert!(!set(&mut store, &mut file, "a", "1"));
    assert_eq!(get(&store, &file, "a"), Ok(Some("1".to_owned())));
    assert_eq!(get(&store, &file, "b"), Ok(None));
    assert_eq!(store.get(&"a".to_owned()), Some(CommandPosition { start: 0, length: record_len(&put("a", "1")) }));
}

#[test]
fn overwrite_survives_reopen() {
    let mut store = KvStore::new();
    let mut file = File::new();
    set(&mut store, &mut file, "a", "1");
    set(&mut store, &mut file, "a", "2");
    assert_eq!(get(&store, &file, "a"), Ok(Some("2".to_owned())));
    drop(store);
    let reopened = KvStore::open(&file.records).unwrap();
    assert_eq!(get(&reopened, &file, "a"), Ok(Some("2".to_owned())));
}

#[test]
fn last_writer_wins() {
    let mut store = KvStore::new();
    let mut file = File::new();
    set(&mut store, &mut file, "k", "v1");
    set(&mut store, &mut file, "k", "v2");
    assert_eq!(get(&store, &file, "k"), Ok(Some("v2".to_owned())));
}

#[test]
fn remove_then_get_and_remove_again() {
    let mut store = KvStore::new();
    let mut file = File::new();
    set(&mut store, &mut file, "a", "1");
    assert_eq!(remove(&mut store, &mut file, "a"), Ok(()));
    assert_eq!(get(&store, &file, "a"), Ok(None));
    let size = file.size();
    assert_eq!(remove(&mut store, &mut file, "a"), Err(KvStoreError::KeyNotFound));
    assert_eq!(file.size(), size);
}

#[test]
fn remove_on_fresh_store_is_key_not_found() {
    let mut store = KvStore::new();
    let mut file = File::new();
    assert_eq!(remove(&mut store, &mut file, "k"), Err(KvStoreError::KeyNotFound));
}

#[test]
fn replay_follows_the_log() {
    let mut file = File::new();
    file.append(put("a", "1"));
    file.append(put("b", "2"));
    file.append(put("a", "3"));
    file.append(Command::Rm { key: "b".to_owned() });
    let store = KvStore::open(&file.records).unwrap();
    assert_eq!(get(&store, &file, "a"), Ok(Some("3".to_owned())));
    assert_eq!(get(&store, &file, "b"), Ok(None));
}

#[test]
fn replay_skips_requests_and_empty_log() {
    let store = KvStore::open(&Vec::new()).unwrap();
    assert_eq!(store.get(&"a".to_owned()), None);
    let mut file = File::new();
    file.append(Command::Get { key: "a".to_owned() });
    file.append(put("a", "1"));
    let store = KvStore::open(&file.records).unwrap();
    let first = record_len(&Command::Get { key: "a".to_owned() });
    assert_eq!(store.get(&"a".to_owned()), Some(CommandPosition { start: first, length: record_len(&put("a", "1")) }));
}

#[test]
fn replay_refuses_offsets_that_go_back() {
    let records = vec![(put("a", "1"), 30), (put("b", "2"), 20)];
    assert!(matches!(KvStore::open(&records), Err(KvStoreError::InvalidLogFileCommand)));
}

#[test]
fn overwrites_trigger_compaction_and_shrink_log() {
    let mut store = KvStore::new();
    let mut file = File::new();
    let pad = "x".repeat(1000);
    let mut written: u64 = 0;
    let mut compactions = 0;
    for i in 0..10000 {
        let value = format!("v{}{}", i, pad);
        written += record_len(&put("k", &value));
        if set(&mut store, &mut file, "k", &value) {
            let plan = store.compact();
            file = file.rewrite(&plan);
            compactions += 1;
        }
    }
    assert!(compactions >= 1);
    assert_eq!(get(&store, &file, "k"), Ok(Some(format!("v9999{}", pad))));
    assert!(file.size() < written);
}

#[test]
fn compaction_keeps_contents() {
    let mut store = KvStore::new();
    let mut file = File::new();
    set(&mut store, &mut file, "a", "1");
    set(&mut store, &mut file, "b", "2");
    set(&mut store, &mut file, "a", "3");
    set(&mut store, &mut file, "c", "4");
    remove(&mut store, &mut file, "c").unwrap();
    let plan = store.compact();
    assert_eq!(plan.len(), 2);
    let file = file.rewrite(&plan);
    assert_eq!(get(&store, &file, "a"), Ok(Some("3".to_owned())));
    assert_eq!(get(&store, &file, "b"), Ok(Some("2".to_owned())));
    assert_eq!(get(&store, &file, "c"), Ok(None));
    assert_eq!(file.size(), record_len(&put("a", "3")) + record_len(&put("b", "2")));
}

#[test]
fn compaction_of_one_key_leaves_one_record() {
    let mut store = KvStore::new();
    let mut file = File::new();
    for i in 0..50 {
        set(&mut store, &mut file, "k", &format!("value{}", i));
    }
    let plan = store.compact();
    let file = file.rewrite(&plan);
    assert_eq!(file.records.len(), 1);
    assert_eq!(file.size(), record_len(&put("k", "value49")));
    assert_eq!(store.get(&"k".to_owned()), Some(CommandPosition { start: 0, length: file.size() }));
}

#[test]
fn dirt_reaching_threshold_asks_for_compaction() {
    let mut store = KvStore::new();
    let mut file = File::new();
    let big = "y".repeat(THRESHOLD as usize);
    assert!(!set(&mut store, &mut file, "k", &big));
    assert!(set(&mut store, &mut file, "k", "small"));
    store.compact();
    assert!(!set(&mut store, &mut File::new(), "j", "small"));
}

#[test]
fn record_that_is_not_a_put_is_invalid() {
    assert_eq!(value_of_record(Command::Rm { key: "a".to_owned() }), Err(KvStoreError::InvalidLogFileCommand));
    assert_eq!(value_of_record(put("a", "1")), Ok("1".to_owned()));
}

#[test]
fn server_session_of_set_get_rm_get() {
    let mut store = KvStore::new();
    let mut file = File::new();
    set(&mut store, &mut file, "x", "y");
    assert_eq!(set_response(Ok(())), Response::SetOk);
    assert_eq!(get_response(get(&store, &file, "x")), Response::GetOk("y".to_owned()));
    assert_eq!(remove_response(remove(&mut store, &mut file, "x")), Response::RmOk);
    assert_eq!(get_response(get(&store, &file, "x")), Response::Error("Key not found".to_owned()));
    assert_eq!(remove_response(remove(&mut store, &mut file, "x")), Response::Error("Key not found".to_owned()));
}

#[test]
fn error_responses_carry_messages() {
    assert_eq!(get_response(Err(KvStoreError::InvalidLogFileCommand)), Response::Error("Invalid log file command".to_owned()));
    assert_eq!(set_response(Err(KvStoreError::IoError)), Response::Error("Failed to read/write".to_owned()));
    assert_eq!(open_response(), Response::Error("not supported".to_owned()));
    assert_eq!(KvStoreError::BincodeError.message(), "Failed to encode/decode");
    assert_eq!(KvStoreError::SerdeSerError.message(), "Failed to serialize");
    assert_eq!(KvStoreError::InvalidFile.message(), "Invalid file");
    assert_eq!(KvStoreError::No.message(), "No path");
}

#[test]
fn engine_selection() {
    assert_eq!(engine_name(None), Some("kvs".to_owned()));
    assert_eq!(engine_name(Some("kvs".to_owned())), Some("kvs".to_owned()));
    assert_eq!(engine_name(Some("sled".to_owned())), Some("sled".to_owned()));
    assert_eq!(engine_name(Some("rocks".to_owned())), None);
}

#[test]
fn key_index_insert_get_remove() {
    let mut index = KeyIndex::new();
    let a = CommandPosition { start: 0, length: 10 };
    let b = CommandPosition { start: 10, length: 5 };
    assert_eq!(index.insert("a".to_owned(), a), None);
    assert_eq!(index.insert("b".to_owned(), b), None);
    assert_eq!(index.insert("a".to_owned(), b), Some(a));
    assert_eq!(index.len(), 2);
    assert_eq!(index.get(&"a".to_owned()), Some(b));
    assert_eq!(index.remove(&"a".to_owned()), Some(b));
    assert_eq!(index.remove(&"a".to_owned()), None);
    assert_eq!(index.get(&"a".to_owned()), None);
    assert_eq!(index.find(&"b".to_owned()), Some(0));
}
