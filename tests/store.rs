use sonic_graph::action::{StoreFSTAction, StoreFSTActionBuilder};
use sonic_graph::consolidate::{consolidate_item, ConsolidateItem};
use sonic_graph::dump::{backup_graph, build_set, dump_terms, split_lines, RestoreError};
use sonic_graph::graph::{StoreFST, StoreFSTConfig, StoreFSTMisc};
use sonic_graph::key::{atom_from_hex, to_compact, StoreFSTBuilder, StoreFSTKey, StoreFSTPathMode};
use sonic_graph::pool::StoreFSTPool;
use sonic_graph::terms::{bytes_lt, typo_factor};

const RANGE: &str = "[a-z]";

fn config() -> StoreFSTConfig {
    StoreFSTConfig { max_size: 2048, max_words: 250000, consolidate_after: 180, inactive_after: 1800 }
}

fn graph_of(terms: &[&str]) -> fst::Set {
    let lines: Vec<Vec<u8>> = terms.iter().map(|t| t.as_bytes().to_vec()).collect();
    StoreFSTBuilder::open_bytes(build_set(&lines).unwrap()).unwrap()
}

fn open(pool: &mut StoreFSTPool, collection: &str, bucket: &str, now: u64) -> StoreFSTKey {
    let key = StoreFSTKey::from_str(collection, bucket);
    if !pool.acquire(&key, now) {
        pool.insert(key, StoreFSTBuilder::empty().unwrap(), now);
    }
    key
}

fn push(pool: &mut StoreFSTPool, key: &StoreFSTKey, word: &str, config: &StoreFSTConfig) -> bool {
    let mut action = pool.take(key).unwrap();
    let pushed = action.push_word(word, config, &mut pool.register, 10);
    pool.put(action);
    pushed
}

fn pop(pool: &mut StoreFSTPool, key: &StoreFSTKey, word: &str) -> bool {
    let mut action = pool.take(key).unwrap();
    let popped = action.pop_word(word, &mut pool.register, 10);
    pool.put(action);
    popped
}

/// Runs a forced consolidation and opens the new sets in place of the old.
fn consolidate_all(pool: &mut StoreFSTPool, config: &StoreFSTConfig) {
    for (key, bytes) in pool.consolidate(true, 20, config) {
        pool.insert(key, StoreFSTBuilder::open_bytes(bytes).unwrap(), 20);
    }
}

#[test]
fn it_acquires_graph() {
    let mut pool = StoreFSTPool::new();
    let key = StoreFSTKey::from_str("c:test:1", "b:test:1");
    let acquired = pool.acquire(&key, 0)
        || StoreFSTBuilder::empty().map(|g| pool.insert(key, g, 0)).is_some();
    assert!(acquired);
}

#[test]
fn it_janitors_graph() {
    let mut pool = StoreFSTPool::new();
    pool.janitor(0, config().inactive_after);
}

#[test]
fn it_proceeds_primitives() {
    let mut pool = StoreFSTPool::new();
    let key = open(&mut pool, "c:test:2", "b:test:2", 0);
    assert!(pool.get(&key).unwrap().store.lookup_typos("valerien", None).is_some());
}

#[test]
fn janitor_evicts_only_idle_handles() {
    let mut pool = StoreFSTPool::new();
    open(&mut pool, "c1", "old", 0);
    open(&mut pool, "c1", "new", 100);
    pool.janitor(100, 50);
    assert_eq!(pool.count(), (1, 0));
    assert!(pool.contains(&StoreFSTKey::from_str("c1", "new")));
    assert!(!pool.contains(&StoreFSTKey::from_str("c1", "old")));
}

#[test]
fn prefix_then_fuzzy_suggestions() {
    let config = config();
    let mut pool = StoreFSTPool::new();
    let key = open(&mut pool, "c1", "b1", 0);
    assert!(push(&mut pool, &key, "hello", &config));
    assert!(push(&mut pool, &key, "help", &config));
    assert!(push(&mut pool, &key, "world", &config));
    assert_eq!(pool.count(), (1, 1));
    consolidate_all(&mut pool, &config);
    assert_eq!(pool.count(), (1, 0));
    let action = pool.get(&key).unwrap();
    assert_eq!(action.count_words(), 3);
    assert_eq!(
        action.suggest_words("hel", 10, None, RANGE),
        Some(vec!["hello".to_string(), "help".to_string()])
    );
    let fuzzy = action.suggest_words("helo", 10, None, RANGE).unwrap();
    assert!(fuzzy.contains(&"hello".to_string()));
    assert!(fuzzy.contains(&"help".to_string()));
    assert!(!fuzzy.contains(&"world".to_string()));
}

#[test]
fn suggestions_respect_limit_and_length() {
    let action = StoreFSTActionBuilder::access(StoreFST::new(
        StoreFSTKey::from_atom(1, 2),
        graph_of(&["hello", "help", "helper"]),
        0,
    ));
    assert_eq!(action.suggest_words("hel", 2, None, RANGE).unwrap().len(), 2);
    assert_eq!(action.suggest_words("zzz", 5, None, RANGE), None);
    let long = "a".repeat(41);
    assert_eq!(action.suggest_words(&long, 5, None, RANGE), None);
}

#[test]
fn pending_terms_are_not_queried() {
    let config = config();
    let mut pool = StoreFSTPool::new();
    let key = open(&mut pool, "c1", "b1", 0);
    assert!(push(&mut pool, &key, "hello", &config));
    assert_eq!(pool.get(&key).unwrap().suggest_words("hel", 10, None, RANGE), None);
    assert_eq!(pool.get(&key).unwrap().count_words(), 0);
}

#[test]
fn push_then_pop_cancels() {
    let config = config();
    let mut pool = StoreFSTPool::new();
    let key = open(&mut pool, "c1", "b1", 0);
    assert!(push(&mut pool, &key, "apple", &config));
    assert!(pop(&mut pool, &key, "apple"));
    consolidate_all(&mut pool, &config);
    assert_eq!(pool.get(&key).unwrap().count_words(), 0);
}

#[test]
fn pop_then_push_cancels() {
    let config = config();
    let mut store = StoreFST::new(StoreFSTKey::from_atom(1, 1), graph_of(&["apple"]), 0);
    let mut pool = StoreFSTPool::new();
    let register = &mut pool.register;
    let mut action = StoreFSTActionBuilder::access(store);
    assert!(action.pop_word("apple", register, 5));
    assert!(action.push_word("apple", &config, register, 6));
    store = action.store;
    assert!(matches!(consolidate_item(&mut store, &config), ConsolidateItem::Skipped));
}

#[test]
fn push_and_pop_refusals() {
    let config = config();
    let mut pool = StoreFSTPool::new();
    let register = &mut pool.register;
    let mut action = StoreFSTActionBuilder::access(StoreFST::new(
        StoreFSTKey::from_atom(1, 1),
        graph_of(&["apple"]),
        0,
    ));
    assert!(!action.push_word("apple", &config, register, 1));
    assert!(!action.pop_word("pear", register, 1));
    assert!(action.push_word("pear", &config, register, 1));
    assert!(!action.push_word("pear", &config, register, 1));
    assert!(action.pop_word("apple", register, 1));
    assert!(!action.pop_word("apple", register, 1));
    assert_eq!(pool.count(), (0, 1));
}

#[test]
fn word_length_boundary() {
    let config = config();
    let mut pool = StoreFSTPool::new();
    let register = &mut pool.register;
    let mut action = StoreFSTActionBuilder::access(StoreFST::new(
        StoreFSTKey::from_atom(1, 1),
        graph_of(&[]),
        0,
    ));
    let forty = "a".repeat(40);
    let forty_one = "a".repeat(41);
    assert!(!StoreFSTAction::word_over_limit(&forty));
    assert!(StoreFSTAction::word_over_limit(&forty_one));
    assert!(action.push_word(&forty, &config, register, 1));
    assert!(!action.push_word(&forty_one, &config, register, 1));
    assert!(!action.pop_word(&forty_one, register, 1));
}

#[test]
fn push_cap_at_max_words() {
    let config = StoreFSTConfig { max_words: 3, ..config() };
    let mut pool = StoreFSTPool::new();
    let register = &mut pool.register;
    let mut action = StoreFSTActionBuilder::access(StoreFST::new(
        StoreFSTKey::from_atom(1, 1),
        graph_of(&[]),
        0,
    ));
    assert!(action.push_word("a", &config, register, 1));
    assert!(action.push_word("b", &config, register, 1));
    assert!(action.push_word("c", &config, register, 1));
    assert!(!action.push_word("d", &config, register, 1));
}

#[test]
fn consolidation_caps_word_count() {
    let config = StoreFSTConfig { max_words: 3, ..config() };
    let mut pool = StoreFSTPool::new();
    let key = open(&mut pool, "c1", "b1", 0);
    for w in ["a", "b", "c", "d"] {
        push(&mut pool, &key, w, &config);
    }
    consolidate_all(&mut pool, &config);
    assert_eq!(pool.get(&key).unwrap().count_words(), 3);
    assert_eq!(pool.get(&key).unwrap().list_words(10, 0), Ok(vec!["a".to_string(), "b".to_string(), "c".to_string()]));
}

#[test]
fn consolidation_truncates_over_old_words() {
    let config = StoreFSTConfig { max_words: 2, ..config() };
    let mut store = StoreFST::new(StoreFSTKey::from_atom(1, 1), graph_of(&["b", "d"]), 0);
    let mut pool = StoreFSTPool::new();
    let register = &mut pool.register;
    let mut action = StoreFSTActionBuilder::access(store);
    let wide = StoreFSTConfig { max_words: 10, ..config };
    assert!(action.push_word("a", &wide, register, 1));
    assert!(action.push_word("c", &wide, register, 1));
    store = action.store;
    match consolidate_item(&mut store, &config) {
        ConsolidateItem::Built(bytes, counts) => {
            assert!(counts.truncated);
            assert_eq!(counts.pushed + counts.moved, 2);
            let set = StoreFSTBuilder::open_bytes(bytes).unwrap();
            let action = StoreFSTActionBuilder::access(StoreFST::new(StoreFSTKey::from_atom(1, 1), set, 2));
            assert_eq!(action.list_words(10, 0), Ok(vec!["a".to_string(), "b".to_string()]));
        }
        _ => panic!("expected a built set"),
    }
    assert!(store.pending.is_empty());
}

#[test]
fn consolidation_truncates_on_size() {
    let config = StoreFSTConfig { max_size: 0, ..config() };
    let mut store = StoreFST::new(StoreFSTKey::from_atom(1, 1), graph_of(&[]), 0);
    let mut pool = StoreFSTPool::new();
    let register = &mut pool.register;
    let mut action = StoreFSTActionBuilder::access(store);
    assert!(action.push_word("a", &StoreFSTConfig { max_size: 1, ..config }, register, 1));
    store = action.store;
    match consolidate_item(&mut store, &config) {
        ConsolidateItem::Built(_, counts) => {
            assert!(counts.truncated);
            assert_eq!(counts.pushed, 0);
        }
        _ => panic!("expected a built set"),
    }
    assert!(store.pending.is_empty());
}

#[test]
fn consolidation_merges_pushes_and_pops() {
    let config = config();
    let mut pool = StoreFSTPool::new();
    let register = &mut pool.register;
    let mut action = StoreFSTActionBuilder::access(StoreFST::new(
        StoreFSTKey::from_atom(1, 1),
        graph_of(&["b", "d", "f"]),
        0,
    ));
    for w in ["g", "a", "c", "e"] {
        assert!(action.push_word(w, &config, register, 1));
    }
    assert!(action.pop_word("d", register, 1));
    let mut store = action.store;
    match consolidate_item(&mut store, &config) {
        ConsolidateItem::Built(bytes, counts) => {
            assert!(!counts.truncated);
            assert_eq!((counts.moved, counts.pushed, counts.popped), (2, 4, 1));
            let action = StoreFSTActionBuilder::access(StoreFST::new(
                StoreFSTKey::from_atom(1, 1),
                StoreFSTBuilder::open_bytes(bytes).unwrap(),
                2,
            ));
            let all: Vec<String> = ["a", "b", "c", "e", "f", "g"].iter().map(|s| s.to_string()).collect();
            assert_eq!(action.list_words(10, 0), Ok(all));
            assert_eq!(action.list_words(2, 3), Ok(vec!["e".to_string(), "f".to_string()]));
            assert_eq!(action.list_words(5, 10), Ok(vec![]));
        }
        _ => panic!("expected a built set"),
    }
}

#[test]
fn empty_graph_receives_sorted_pushes() {
    let config = config();
    let mut pool = StoreFSTPool::new();
    let register = &mut pool.register;
    let mut action = StoreFSTActionBuilder::access(StoreFST::new(
        StoreFSTKey::from_atom(1, 1),
        graph_of(&[]),
        0,
    ));
    for w in ["zeta", "alpha", "mu"] {
        assert!(action.push_word(w, &config, register, 1));
    }
    let mut store = action.store;
    match consolidate_item(&mut store, &config) {
        ConsolidateItem::Built(bytes, _) => {
            let set = StoreFSTBuilder::open_bytes(bytes).unwrap();
            let action = StoreFSTActionBuilder::access(StoreFST::new(StoreFSTKey::from_atom(1, 1), set, 2));
            assert_eq!(
                action.list_words(10, 0),
                Ok(vec!["alpha".to_string(), "mu".to_string(), "zeta".to_string()])
            );
        }
        _ => panic!("expected a built set"),
    }
}

#[test]
fn consolidation_waits_for_debounce() {
    let config = config();
    let mut pool = StoreFSTPool::new();
    let key = open(&mut pool, "c1", "b1", 0);
    assert!(push(&mut pool, &key, "hello", &config));
    assert!(pool.consolidate(false, 20, &config).is_empty());
    assert_eq!(pool.count(), (1, 1));
    let built = pool.consolidate(false, 10 + 180, &config);
    assert_eq!(built.len(), 1);
    assert_eq!(built[0].0, key);
    assert_eq!(pool.count(), (0, 0));
}

#[test]
fn backup_then_restore() {
    let store = StoreFST::new(StoreFSTKey::from_atom(0xc1, 0xb1), graph_of(&["a", "b", "c"]), 0);
    let text = backup_graph(&store);
    assert_eq!(text, b"a\nb\nc\n".to_vec());
    let mut pool = StoreFSTPool::new();
    let restored = pool.restore("c1", "b1", &text).unwrap().unwrap();
    assert_eq!(restored.0, StoreFSTKey::from_atom(0xc1, 0xb1));
    let set = StoreFSTBuilder::open_bytes(restored.1).unwrap();
    let action = StoreFSTActionBuilder::access(StoreFST::new(restored.0, set, 0));
    assert_eq!(action.list_words(10, 0), Ok(vec!["a".to_string(), "b".to_string(), "c".to_string()]));
}

#[test]
fn restore_refuses_unsorted_backup() {
    let mut pool = StoreFSTPool::new();
    assert_eq!(pool.restore("c1", "b1", b"b\na\n"), Err(RestoreError::OutOfOrder));
    assert_eq!(pool.restore("c1", "b1", b"a\na\n"), Err(RestoreError::OutOfOrder));
    assert_eq!(pool.restore("not-hex", "b1", b"a\n"), Ok(None));
}

#[test]
fn lines_split_like_a_reader() {
    let lines = split_lines(b"one\r\ntwo\n\nthree");
    assert_eq!(lines, vec![b"one\r".to_vec(), b"two".to_vec(), b"".to_vec(), b"three".to_vec()]);
    assert_eq!(dump_terms(&vec![b"x".to_vec(), b"y".to_vec()]), b"x\ny\n".to_vec());
}

#[test]
fn erase_closes_collection_graphs() {
    let mut pool = StoreFSTPool::new();
    let b1 = open(&mut pool, "c1", "b1", 0);
    open(&mut pool, "c1", "b2", 0);
    open(&mut pool, "c2", "b1", 0);
    let config = config();
    assert!(push(&mut pool, &b1, "hello", &config));
    let path = StoreFSTActionBuilder::erase(&mut pool, "c1", None);
    assert_eq!(path, format!("{:x}", to_compact("c1")));
    assert_eq!(pool.count(), (1, 0));
    let path = StoreFSTActionBuilder::erase(&mut pool, "c2", Some("b1"));
    assert_eq!(path, format!("{:x}/{:x}.fst", to_compact("c2"), to_compact("b1")));
    assert_eq!(pool.count(), (0, 0));
    let again = open(&mut pool, "c1", "b1", 5);
    assert_eq!(pool.get(&again).unwrap().count_words(), 0);
}

#[test]
fn list_words_rejects_invalid_utf8() {
    let lines = vec![b"ok".to_vec(), vec![0xff_u8]];
    let set = StoreFSTBuilder::open_bytes(build_set(&lines).unwrap()).unwrap();
    let action = StoreFSTActionBuilder::access(StoreFST::new(StoreFSTKey::from_atom(1, 1), set, 0));
    assert_eq!(action.list_words(10, 0), Err(()));
    assert_eq!(action.count_words(), 2);
}

#[test]
fn atoms_keys_and_paths() {
    assert_eq!(to_compact(""), 2166136261);
    assert_eq!(to_compact("a"), 0xe40c292c);
    assert_ne!(to_compact("c1"), to_compact("c2"));
    let key = StoreFSTKey::from_str("c1", "b1");
    assert_eq!(key, StoreFSTKey::from_atom(to_compact("c1"), to_compact("b1")));
    assert_eq!(StoreFSTKey::from_atom(0xab, 0x1).to_text(), "<ab>/<1>");
    assert_eq!(StoreFSTBuilder::path(StoreFSTPathMode::Permanent, 0xab, Some(0xcd)), "ab/cd.fst");
    assert_eq!(StoreFSTBuilder::path(StoreFSTPathMode::Temporary, 0xab, Some(0)), "ab/0.fst.tmp");
    assert_eq!(StoreFSTBuilder::path(StoreFSTPathMode::Backup, 0xab, Some(0xcd)), "ab/cd.fst.bck");
    assert_eq!(StoreFSTBuilder::path(StoreFSTPathMode::Permanent, 0xab, None), "ab");
    assert_eq!(StoreFSTPathMode::Temporary.extension(), ".fst.tmp");
    assert_eq!(atom_from_hex("ab"), Some(0xab));
    assert_eq!(atom_from_hex("DEADBEEF"), Some(0xdeadbeef));
    assert_eq!(atom_from_hex("123456789"), None);
    assert_eq!(atom_from_hex(""), None);
}

#[test]
fn limits_and_typo_factors() {
    let config = StoreFSTConfig { max_size: 1, max_words: 5, ..config() };
    assert!(!StoreFSTMisc::check_over_limits(1023, 4, &config));
    assert!(StoreFSTMisc::check_over_limits(1024, 0, &config));
    assert!(StoreFSTMisc::check_over_limits(0, 5, &config));
    let huge = StoreFSTConfig { max_size: usize::MAX, max_words: usize::MAX, ..config };
    assert!(!StoreFSTMisc::check_over_limits(usize::MAX, 0, &huge));
    assert_eq!(typo_factor(3, None), 0);
    assert_eq!(typo_factor(4, None), 1);
    assert_eq!(typo_factor(9, None), 2);
    assert_eq!(typo_factor(10, None), 3);
    assert_eq!(typo_factor(10, Some(1)), 1);
    assert!(bytes_lt(b"ab", b"abc"));
    assert!(!bytes_lt(b"b", b"abc"));
}

#[test]
fn prefix_pattern_escapes_the_term() {
    assert_eq!(StoreFST::begins_pattern("a.b", "[a-z]"), "a\\.b([a-z]*)");
    assert_eq!(StoreFST::begins_pattern("hel", "[a-z]"), "hel([a-z]*)");
}

#[test]
fn bucket_names_from_file_names() {
    assert_eq!(StoreFSTPathMode::Permanent.bucket_name_len(b"ab12.fst"), Some(4));
    assert_eq!(StoreFSTPathMode::Permanent.bucket_name_len(b".fst"), None);
    assert_eq!(StoreFSTPathMode::Permanent.bucket_name_len(b"ab12.fst.tmp"), None);
    assert_eq!(StoreFSTPathMode::Backup.bucket_name_len(b"ab12.fst.bck"), Some(4));
    assert_eq!(StoreFSTPathMode::Temporary.bucket_name_len(b"0.fst.tmp"), Some(1));
}

#[test]
fn atom_names_must_be_plain_hex() {
    assert_eq!(atom_from_hex(" ab"), None);
    assert_eq!(atom_from_hex("ab "), None);
    assert_eq!(atom_from_hex("0x1"), None);
    assert_eq!(atom_from_hex("ffffffff"), Some(0xffffffff));
    let mut pool = StoreFSTPool::new();
    assert_eq!(pool.restore(" c1", "b1", b"a\n"), Ok(None));
}

#[test]
fn consolidation_keeps_other_graphs() {
    let config = config();
    let mut pool = StoreFSTPool::new();
    let due = open(&mut pool, "c1", "b1", 0);
    let idle = open(&mut pool, "c1", "b2", 0);
    assert!(push(&mut pool, &due, "hello", &config));
    let built = pool.consolidate(false, 10 + 180, &config);
    assert_eq!(built.len(), 1);
    assert!(!pool.contains(&due));
    assert!(pool.contains(&idle));
    assert_eq!(pool.get(&idle).unwrap().count_words(), 0);
}

#[test]
fn backup_keeps_carriage_returns() {
    let store = StoreFST::new(StoreFSTKey::from_atom(1, 2), graph_of(&["a\r", "b"]), 0);
    let text = backup_graph(&store);
    assert_eq!(text, b"a\r\nb\n".to_vec());
    let mut pool = StoreFSTPool::new();
    let (_, bytes) = pool.restore("1", "2", &text).unwrap().unwrap();
    let set = StoreFSTBuilder::open_bytes(bytes).unwrap();
    let action = StoreFSTActionBuilder::access(StoreFST::new(StoreFSTKey::from_atom(1, 2), set, 0));
    assert_eq!(action.list_words(10, 0), Ok(vec!["a\r".to_string(), "b".to_string()]));
}

#[test]
fn empty_set_encoding_is_small() {
    assert_eq!(build_set(&vec![]).unwrap().len(), 35);
    let config = StoreFSTConfig { max_size: 1, ..config() };
    let mut pool = StoreFSTPool::new();
    let key = open(&mut pool, "c1", "b1", 0);
    assert!(push(&mut pool, &key, &"a".repeat(40), &config));
}

#[test]
fn bucket_files_are_counted() {
    let names = vec![b"ab.fst".to_vec(), b"ab.fst.tmp".to_vec(), b".fst".to_vec(), b"cd.fst".to_vec()];
    assert_eq!(StoreFSTMisc::count_collection_buckets(&names), 2);
    assert_eq!(StoreFSTMisc::count_collection_buckets(&vec![]), 0);
}
