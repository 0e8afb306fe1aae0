use geektime_rust::grep::{default_execute, grep_lines, search, try_search, Pattern};
use geektime_rust::kv::{KvError, KvPair, MemTable, Storage, Value};
use geektime_rust::pb::{Command, Request, Response};
use geektime_rust::pow::{do_pow, Block};
use geektime_rust::read::{parse_read_lines, stdin_item, Args, ReadTarget, Source};
use geektime_rust::scrape::{html_to_markdown, target_url};
use geektime_rust::storage::{flip, get_full_key, get_table_prefix, ivec_to_key};
use geektime_rust::ticket::Museum;
use prost::Message;

#[test]
fn ticket_test() {
    let museum = Museum::new(50);

    let _ticket = museum.get_ticket().unwrap();

    assert_eq!(museum.remain(), 49);

    let _tickets = (0..49)
        .map(|_| museum.get_ticket().unwrap())
        .collect::<Vec<_>>();

    assert_eq!(museum.remain(), 0);

    assert!(museum.get_ticket().is_none());

    drop(_ticket);

    println!("by manual");

    assert!(museum.get_ticket().is_some());

    println!("before done");
}

#[test]
fn request_constructors() {
    match Request::new_get("hello").command {
        Some(Command::Get(g)) => assert_eq!(g.key, "hello"),
        _ => panic!("not a get"),
    }
    match Request::new_put("hello", b"world").command {
        Some(Command::Put(p)) => {
            assert_eq!(p.key, "hello");
            assert_eq!(p.value, b"world".to_vec());
        }
        _ => panic!("not a put"),
    }
    match Request::new_delete("hello").command {
        Some(Command::Delete(d)) => assert_eq!(d.key, "hello"),
        _ => panic!("not a delete"),
    }
}

#[test]
fn response_constructors() {
    let r = Response::new("a".into(), vec![1, 2]);
    assert_eq!((r.code, r.key.as_str(), r.value), (0, "a", vec![1, 2]));
    let r = Response::not_found("a".into());
    assert_eq!((r.code, r.key.as_str(), r.value), (404, "a", vec![]));
}

#[test]
fn read_targets() {
    assert!(matches!(parse_read_lines(vec![]).as_slice(), [ReadTarget::Stdin]));
    assert!(matches!(
        parse_read_lines(vec!["a.txt".into(), "-".into()]).as_slice(),
        [ReadTarget::Stdin]
    ));
    let t = parse_read_lines(vec!["a.txt".into(), "b.txt".into()]);
    assert_eq!(t.len(), 2);
    assert!(matches!(&t[0], ReadTarget::File(f) if f == "a.txt"));
    assert!(matches!(&t[1], ReadTarget::File(f) if f == "b.txt"));
}

#[test]
fn stdin_items() {
    assert_eq!(stdin_item("hello\n".into()), Some("hello".to_string()));
    assert_eq!(stdin_item("hello\n\n".into()), Some("hello".to_string()));
    assert_eq!(stdin_item("exit\n".into()), None);
    assert_eq!(stdin_item("exit".into()), None);
    assert_eq!(stdin_item("exits\n".into()), Some("exits".to_string()));
    assert_eq!(stdin_item("".into()), Some("".to_string()));
}

#[test]
fn args_file_list() {
    let a = Args { word: "x".into(), files: None };
    assert!(a.file_list().is_empty());
    let a = Args { word: "x".into(), files: Some(vec!["f".into()]) };
    assert_eq!(a.file_list(), vec!["f".to_string()]);
}

#[test]
fn keys_of_stored_pairs() {
    assert_eq!(get_full_key("t1", "hello"), "t1:hello");
    assert_eq!(get_table_prefix("t1"), "t1:");
    assert_eq!(ivec_to_key(b"t1:hello"), "hello");
    assert_eq!(ivec_to_key(b"t1:hello:more"), "hello");
    assert_eq!(ivec_to_key(get_full_key("表", "键").as_bytes()), "键");
}

#[test]
fn flip_turns_inside_out() {
    assert_eq!(flip::<u8, String>(None), Ok(None));
    assert_eq!(flip::<u8, String>(Some(Ok(3))), Ok(Some(3)));
    assert_eq!(flip::<u8, String>(Some(Err("e".into()))), Err("e".to_string()));
}

fn string(s: &str) -> Value {
    Value::String(s.to_string())
}

#[test]
fn memtable_read_after_write() {
    let mut store = MemTable::new();
    assert_eq!(store.get("t1", "hello").unwrap(), None);
    assert_eq!(store.set("t1", "hello".into(), string("world")).unwrap(), None);
    assert_eq!(store.get("t1", "hello").unwrap(), Some(string("world")));
    assert_eq!(
        store.set("t1", "hello".into(), Value::Integer(10)).unwrap(),
        Some(string("world"))
    );
    assert_eq!(store.get("t1", "hello").unwrap(), Some(Value::Integer(10)));
    assert!(store.contains("t1", "hello").unwrap());
    assert!(!store.contains("t2", "hello").unwrap());
    assert_eq!(store.get("t2", "hello").unwrap(), None);
    assert_eq!(store.del("t1", "hello").unwrap(), Some(Value::Integer(10)));
    assert_eq!(store.get("t1", "hello").unwrap(), None);
    assert_eq!(store.del("t1", "hello").unwrap(), None);
}

#[test]
fn memtable_get_all_lists_each_pair() {
    let mut store = MemTable::new();
    store.set("t", "a".into(), Value::Bool(true)).unwrap();
    store.set("t", "b".into(), Value::Binary(vec![1])).unwrap();
    store.set("u", "c".into(), Value::Integer(3)).unwrap();
    let mut all = store.get_all("t").unwrap();
    all.sort_by(|x, y| x.key.cmp(&y.key));
    assert_eq!(
        all,
        vec![
            KvPair::new("a", Value::Bool(true)),
            KvPair::new("b", Value::Binary(vec![1]))
        ]
    );
    let mut iter = store.get_iter("u").unwrap();
    assert_eq!(iter.pop(), Some(KvPair::new("c", Value::Integer(3))));
    assert!(store.get_all("empty").unwrap().is_empty());
}

#[test]
fn kv_pair_from_tuple() {
    let p: KvPair = ("k".to_string(), Value::Integer(1)).into();
    assert_eq!(p, KvPair::new("k", Value::Integer(1)));
}

#[test]
fn pow_finds_a_nonce() {
    let data = b"hello world".to_vec();
    let r = do_pow(Block { data: data.clone(), difficult: 1 }).unwrap();
    assert_eq!(r.data, data);
    assert_eq!(r.hash.len(), 32);
    assert_eq!(r.hash[0], 0);
    let mut input = data.clone();
    input.extend_from_slice(&r.nonce.to_be_bytes());
    assert_eq!(blake3::hash(&input).as_bytes().to_vec(), r.hash);
}

#[test]
fn pow_with_no_difficulty() {
    let r = do_pow(Block { data: vec![], difficult: 0 }).unwrap();
    let input = r.nonce.to_be_bytes();
    assert_eq!(blake3::hash(&input).as_bytes().to_vec(), r.hash);
}

#[test]
fn scrape_target() {
    assert_eq!(target_url(&vec!["prog".into()]), "https://www.rust-lang.org");
    assert_eq!(
        target_url(&vec!["prog".into(), "https://a.b".into(), "x".into()]),
        "https://a.b"
    );
    let md = html_to_markdown("<p>Hello <b>world</b></p>");
    assert!(md.contains("Hello"));
    assert!(!md.contains("<b>"));
}

#[test]
fn default_execute_reports_first_match() {
    let re = Pattern::new("wor.d").unwrap();
    let lines = vec![
        Some("hello world".to_string()),
        None,
        Some("nothing".to_string()),
        Some("你好 world world".to_string()),
    ];
    let (count, found) = default_execute(&re, &lines);
    assert_eq!(count, 2);
    assert_eq!(found.len(), 2);
    assert_eq!(found[0].row, 1);
    assert_eq!(found[0].column, 7);
    assert_eq!(found[0].prefix, "hello ");
    assert_eq!(found[0].matched, "world");
    assert_eq!(found[0].suffix, "");
    assert_eq!(found[1].row, 4);
    assert_eq!(found[1].column, 4);
    assert_eq!(found[1].prefix, "你好 ");
    assert_eq!(found[1].suffix, " world");
}

#[test]
fn search_reports_each_group() {
    let source = Source {
        source: "stdin".into(),
        lines: vec!["abc 12".into(), "none".into(), "x 3".into()],
    };
    let (name, found) = search(source, r"([a-z]+) (\d+)".into());
    assert_eq!(name, "stdin");
    assert_eq!(found.len(), 6);
    assert_eq!(
        (found[0].row, found[0].column, found[0].matched.as_str()),
        (1, 0, "abc 12")
    );
    assert_eq!(
        (found[1].row, found[1].column, found[1].matched.as_str()),
        (1, 0, "abc")
    );
    assert_eq!(
        (found[2].row, found[2].column, found[2].matched.as_str(), found[2].prefix.as_str()),
        (1, 4, "12", "abc ")
    );
    assert_eq!((found[3].row, found[3].column), (3, 0));
    assert_eq!(found[5].matched, "3");
}

#[test]
fn try_search_refuses_a_bad_regex() {
    let source = Source { source: "s".into(), lines: vec!["a".into()] };
    assert!(try_search(source, "(".into()).is_none());
    let source = Source { source: "s".into(), lines: vec!["a".into()] };
    assert_eq!(try_search(source, "a".into()).unwrap().1.len(), 1);
}

#[test]
fn pattern_new_refuses_a_bad_regex() {
    assert!(Pattern::new("(").is_none());
    assert!(Pattern::new("[a-").is_none());
    assert!(Pattern::new("a|b").is_some());
}

#[test]
fn default_execute_is_case_sensitive() {
    let re = Pattern::new("a").unwrap();
    let (count, found) = default_execute(&re, &vec![Some("A".to_string()), Some("xa".to_string())]);
    assert_eq!(count, 1);
    assert_eq!((found[0].row, found[0].column), (2, 2));
}

#[test]
fn grep_lines_numbers_matches() {
    let lines = vec!["a word".to_string(), "nothing".into(), "words".into()];
    assert_eq!(
        grep_lines("word", &lines),
        vec![(1, "a word".to_string()), (3, "words".to_string())]
    );
    assert_eq!(grep_lines("", &lines).len(), 3);
}

#[test]
fn kv_errors_compare_by_contents() {
    let a = KvError::NotFound("t".into(), "k".into());
    assert!(a.eq(&KvError::NotFound("t".into(), "k".into())));
    assert!(!a.eq(&KvError::NotFound("t".into(), "x".into())));
    assert!(!a.eq(&KvError::Internal("t".into())));
    assert!(KvError::FrameError.eq(&KvError::FrameError));
    let c = KvError::ConvertError(Value::Binary(vec![1, 2]), "i64");
    assert!(c.eq(&KvError::ConvertError(Value::Binary(vec![1, 2]), "i64")));
    assert!(!c.eq(&KvError::ConvertError(Value::Binary(vec![1, 3]), "i64")));
    assert!(!c.eq(&KvError::ConvertError(Value::Integer(1), "i64")));
    let s = KvError::StorageError("get", "t".into(), "k".into(), "e".into());
    assert!(s.eq(&KvError::StorageError("get", "t".into(), "k".into(), "e".into())));
    assert!(!s.eq(&KvError::StorageError("set", "t".into(), "k".into(), "e".into())));
}

#[test]
fn kv_io_errors_are_never_equal() {
    let e = || KvError::IoError(std::io::Error::new(std::io::ErrorKind::Other, "x"));
    assert!(!e().eq(&e()));
    let d = KvError::DecodeError(prost::DecodeError::new("bad"));
    assert!(d.eq(&KvError::DecodeError(prost::DecodeError::new("bad"))));
    assert!(!d.eq(&KvError::DecodeError(prost::DecodeError::new("other"))));
}

#[test]
fn values_compare_by_variant_and_contents() {
    assert!(Value::String("a".into()).same_as(&Value::String("a".into())));
    assert!(!Value::String("a".into()).same_as(&Value::Binary(b"a".to_vec())));
    assert!(Value::Bool(true).same_as(&Value::Bool(true)));
    assert!(!Value::Integer(1).same_as(&Value::Integer(2)));
}

#[test]
fn line_labels_are_padded() {
    let re = Pattern::new("b").unwrap();
    let (_, found) = default_execute(&re, &vec![Some("ab".to_string())]);
    assert_eq!(found[0].row_label(), "     1");
    assert_eq!(found[0].column_label(), "2  ");
}

#[test]
fn memtable_clone_is_a_separate_copy() {
    let mut a = MemTable::default();
    a.set("t", "k".into(), Value::Integer(1)).unwrap();
    let mut b = a.clone();
    b.set("t", "k".into(), Value::Integer(2)).unwrap();
    assert_eq!(a.get("t", "k").unwrap(), Some(Value::Integer(1)));
    assert_eq!(b.get("t", "k").unwrap(), Some(Value::Integer(2)));
    assert!(MemTable::default().get_all("t").unwrap().is_empty());
}

fn encode_error(text: &str, room: usize) -> KvError {
    let mut buf = vec![0u8; room];
    let mut slice: &mut [u8] = &mut buf[..];
    KvError::EncodeError(text.to_string().encode(&mut slice).unwrap_err())
}

#[test]
fn kv_encode_errors_compare_by_sizes() {
    assert!(encode_error("hello", 1).eq(&encode_error("hello", 1)));
    assert!(!encode_error("hello", 1).eq(&encode_error("hello", 2)));
    assert!(!encode_error("hello", 1).eq(&encode_error("hello world", 1)));
    assert!(!encode_error("hello", 1).eq(&KvError::FrameError));
}
