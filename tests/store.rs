use kvs::{log_file_name, sorted_log_generations, KvStore, KvsError};

/// A directory of log files held in memory, standing in for the disk.
struct Dir {
    files: Vec<(String, Vec<u8>)>,
}

impl Dir {
    fn new() -> Dir {
        Dir { files: Vec::new() }
    }

    fn names(&self) -> Vec<String> {
        self.files.iter().map(|f| f.0.clone()).collect()
    }

    fn file(&self, name: &str) -> Option<Vec<u8>> {
        self.files.iter().find(|f| f.0 == name).map(|f| f.1.clone())
    }

    fn append(&mut self, name: &str, bytes: &[u8]) {
        match self.files.iter_mut().find(|f| f.0 == name) {
            Some(f) => f.1.extend_from_slice(bytes),
            None => self.files.push((name.to_string(), bytes.to_vec())),
        }
    }

    fn open(&mut self) -> Result<Engine, KvsError> {
        let gens = sorted_log_generations(&self.names());
        let logs: Vec<(u64, Vec<u8>)> = gens
            .iter()
            .map(|g| (*g, self.file(&log_file_name(*g)).unwrap()))
            .collect();
        let store = KvStore::open(logs)?;
        let name = log_file_name(store.active_generation());
        self.append(&name, &[]);
        Ok(Engine { store, name })
    }

    fn total_size(&self) -> usize {
        self.files.iter().map(|f| f.1.len()).sum()
    }
}

struct Engine {
    store: KvStore,
    name: String,
}

impl Engine {
    fn sync(&mut self, dir: &mut Dir) {
        let bytes = self.store.take_unsynced();
        dir.append(&self.name, &bytes);
    }

    fn set(&mut self, dir: &mut Dir, k: &str, v: &str) -> Result<(), KvsError> {
        let r = self.store.set(k.to_string(), v.to_string());
        self.sync(dir);
        r
    }

    fn remove(&mut self, dir: &mut Dir, k: &str) -> Result<(), KvsError> {
        let r = self.store.remove(k.to_string());
        self.sync(dir);
        r
    }

    fn get(&mut self, k: &str) -> Result<Option<String>, KvsError> {
        self.store.get(k.to_string())
    }
}

#[test]
fn scenario_set_then_get() {
    let mut d = Dir::new();
    let mut e = d.open().unwrap();
    e.set(&mut d, "a", "1").unwrap();
    assert_eq!(e.get("a"), Ok(Some("1".to_string())));
    assert_eq!(e.get("b"), Ok(None));
}

#[test]
fn scenario_overwrite() {
    let mut d = Dir::new();
    let mut e = d.open().unwrap();
    e.set(&mut d, "a", "1").unwrap();
    e.set(&mut d, "a", "2").unwrap();
    assert_eq!(e.get("a"), Ok(Some("2".to_string())));
}

#[test]
fn scenario_reopen_keeps_value() {
    let mut d = Dir::new();
    let mut e = d.open().unwrap();
    e.set(&mut d, "a", "1").unwrap();
    drop(e);
    let mut e = d.open().unwrap();
    assert_eq!(e.get("a"), Ok(Some("1".to_string())));
}

#[test]
fn scenario_remove_survives_reopen() {
    let mut d = Dir::new();
    let mut e = d.open().unwrap();
    e.set(&mut d, "a", "1").unwrap();
    e.remove(&mut d, "a").unwrap();
    assert_eq!(e.get("a"), Ok(None));
    drop(e);
    let mut e = d.open().unwrap();
    assert_eq!(e.get("a"), Ok(None));
}

#[test]
fn scenario_cross_generation_last_writer() {
    let mut d = Dir::new();
    let mut e = d.open().unwrap();
    e.set(&mut d, "k", "v1").unwrap();
    drop(e);
    let mut e = d.open().unwrap();
    e.set(&mut d, "k", "v2").unwrap();
    drop(e);
    let mut e = d.open().unwrap();
    assert_eq!(e.get("k"), Ok(Some("v2".to_string())));
}

#[test]
fn scenario_remove_absent() {
    let mut d = Dir::new();
    let mut e = d.open().unwrap();
    assert_eq!(e.remove(&mut d, "x"), Err(KvsError::KeyNotFound));
}

#[test]
fn last_writer_wins_over_many_sets() {
    let mut d = Dir::new();
    let mut e = d.open().unwrap();
    for i in 0..20 {
        e.set(&mut d, "k", &format!("v{}", i)).unwrap();
        e.set(&mut d, "other", &format!("o{}", i)).unwrap();
    }
    assert_eq!(e.get("k"), Ok(Some("v19".to_string())));
}

#[test]
fn removal_erases_after_set() {
    let mut d = Dir::new();
    let mut e = d.open().unwrap();
    e.set(&mut d, "k", "v").unwrap();
    e.remove(&mut d, "k").unwrap();
    assert_eq!(e.get("k"), Ok(None));
    assert_eq!(e.remove(&mut d, "k"), Err(KvsError::KeyNotFound));
}

#[test]
fn repeated_get_is_stable() {
    let mut d = Dir::new();
    let mut e = d.open().unwrap();
    e.set(&mut d, "k", "v").unwrap();
    let first = e.get("k");
    let second = e.get("k");
    assert_eq!(first, second);
    assert_eq!(e.get("none"), e.get("none"));
}

#[test]
fn persistence_of_mixed_operations() {
    let mut d = Dir::new();
    let mut e = d.open().unwrap();
    e.set(&mut d, "a", "1").unwrap();
    e.set(&mut d, "b", "2").unwrap();
    e.remove(&mut d, "a").unwrap();
    e.set(&mut d, "c", "3").unwrap();
    e.set(&mut d, "b", "4").unwrap();
    let before: Vec<_> = ["a", "b", "c", "d"].iter().map(|k| e.get(k)).collect();
    drop(e);
    let mut e2 = d.open().unwrap();
    let after: Vec<_> = ["a", "b", "c", "d"].iter().map(|k| e2.get(k)).collect();
    assert_eq!(before, after);
}

#[test]
fn independent_keys() {
    let mut d = Dir::new();
    let mut e = d.open().unwrap();
    e.set(&mut d, "k2", "x").unwrap();
    e.set(&mut d, "k1", "y").unwrap();
    assert_eq!(e.get("k2"), Ok(Some("x".to_string())));
    e.remove(&mut d, "k1").unwrap();
    assert_eq!(e.get("k2"), Ok(Some("x".to_string())));
}

#[test]
fn log_grows_with_each_mutation() {
    let mut d = Dir::new();
    let mut e = d.open().unwrap();
    let s0 = d.total_size();
    e.set(&mut d, "a", "1").unwrap();
    let s1 = d.total_size();
    assert!(s1 > s0);
    e.set(&mut d, "a", "1").unwrap();
    let s2 = d.total_size();
    assert!(s2 > s1);
    e.remove(&mut d, "a").unwrap();
    let s3 = d.total_size();
    assert!(s3 > s2);
}

#[test]
fn generations_increase_across_opens() {
    let mut d = Dir::new();
    let e1 = d.open().unwrap();
    assert_eq!(e1.store.active_generation(), 1);
    drop(e1);
    let e2 = d.open().unwrap();
    assert_eq!(e2.store.active_generation(), 2);
    drop(e2);
    let e3 = d.open().unwrap();
    assert_eq!(e3.store.active_generation(), 3);
}

#[test]
fn remove_absent_writes_nothing() {
    let mut d = Dir::new();
    let mut e = d.open().unwrap();
    e.set(&mut d, "a", "1").unwrap();
    let s = d.total_size();
    assert_eq!(e.remove(&mut d, "zz"), Err(KvsError::KeyNotFound));
    assert_eq!(d.total_size(), s);
}

#[test]
fn log_records_are_json_lines() {
    let mut d = Dir::new();
    let mut e = d.open().unwrap();
    e.set(&mut d, "a", "1").unwrap();
    e.remove(&mut d, "a").unwrap();
    assert_eq!(
        d.file("1.log").unwrap(),
        b"{\"Set\":{\"key\":\"a\",\"value\":\"1\"}}\n{\"Remove\":{\"key\":\"a\"}}\n".to_vec()
    );
}

#[test]
fn open_on_existing_logs() {
    let logs = vec![
        (3u64, b"{\"Set\":{\"key\":\"a\",\"value\":\"old\"}}\n".to_vec()),
        (7u64, b"{\"Set\":{\"key\":\"a\",\"value\":\"new\"}}\n{\"Set\":{\"key\":\"b\",\"value\":\"x\"}}\n{\"Remove\":{\"key\":\"b\"}}\n{\"Remove\":{\"key\":\"nothing\"}}\n".to_vec()),
    ];
    let mut s = KvStore::open(logs).unwrap();
    assert_eq!(s.active_generation(), 8);
    assert_eq!(s.get("a".to_string()), Ok(Some("new".to_string())));
    assert_eq!(s.get("b".to_string()), Ok(None));
}

#[test]
fn open_accepts_last_line_without_newline() {
    let logs = vec![(1u64, b"{\"Set\":{\"key\":\"a\",\"value\":\"1\"}}".to_vec())];
    let mut s = KvStore::open(logs).unwrap();
    assert_eq!(s.get("a".to_string()), Ok(Some("1".to_string())));
}

#[test]
fn open_rejects_corrupt_log() {
    let logs = vec![(1u64, b"{\"Set\":{\"key\":\"a\",\"value\":\"1\"}}\n{\"Set\":{\"ke".to_vec())];
    assert!(matches!(KvStore::open(logs), Err(KvsError::Codec)));
}

#[test]
fn keys_and_values_with_escapes_round_trip() {
    let mut d = Dir::new();
    let mut e = d.open().unwrap();
    let key = "q\"uo\\te\nnl\u{1}ctl";
    let value = "h\u{e9}llo \u{1F600} tab\t";
    e.set(&mut d, key, value).unwrap();
    e.set(&mut d, "empty", "").unwrap();
    drop(e);
    let mut e = d.open().unwrap();
    assert_eq!(e.get(key), Ok(Some(value.to_string())));
    assert_eq!(e.get("empty"), Ok(Some(String::new())));
}
