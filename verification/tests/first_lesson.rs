use geektime_rust::encode::{Encode, Event};
use geektime_rust::fibonacci::Fibonacci;
use geektime_rust::persistent::{Gender, User};
use geektime_rust::split::split;
use geektime_rust::strtok::strtok;
use geektime_rust::text::{decimal_string, join_lines, pad_left_string, pad_right_string};

#[test]
fn strtok_test() {
    let mut s = "hello world";
    assert_eq!(s.find(' '), Some(5));

    let t = strtok(&mut s, ' ');
    assert_eq!(t, "hello");
    assert_eq!(s, "world");
}

#[test]
fn encode_test() {
    let event = Event::new(1, "hello world".to_string());

    let _encode = event.encode().unwrap();

    let event = Event::new("id".to_string(), "hello world".to_string());

    let _encode = event.encode().unwrap();
}

#[test]
fn fibonacci_test() {
    let mut fibonacci = Fibonacci::new(10);

    while let Some(i) = fibonacci.next() {
        println!("{}", i);
    }
}

#[test]
fn strtok_without_separator_takes_everything() {
    let mut s = "hello";
    let t = strtok(&mut s, ' ');
    assert_eq!(t, "hello");
    assert_eq!(s, "");
}

#[test]
fn strtok_multibyte_separator() {
    let mut s = "我爱你！中国";
    let t = strtok(&mut s, '！');
    assert_eq!(t, "我爱你");
    assert_eq!(s, "中国");
    let t = strtok(&mut s, '！');
    assert_eq!(t, "中国");
    assert_eq!(s, "");
}

#[test]
fn strtok_repeated_takes_each_token() {
    let mut s = "a,b,,c";
    assert_eq!(strtok(&mut s, ','), "a");
    assert_eq!(strtok(&mut s, ','), "b");
    assert_eq!(strtok(&mut s, ','), "");
    assert_eq!(strtok(&mut s, ','), "c");
    assert_eq!(s, "");
}

#[test]
fn split_at_first_separator() {
    assert_eq!(split("我爱你！中国", '！'), Some(("我爱你", "中国")));
    assert_eq!(split("a=b=c", '='), Some(("a", "b=c")));
    assert_eq!(split("abc", '='), None);
    assert_eq!(split("=", '='), Some(("", "")));
}

#[test]
fn split_reassembles_the_text() {
    let s = "key: value: more";
    let (a, b) = split(s, ':').unwrap();
    assert_eq!(format!("{}:{}", a, b), s);
}

#[test]
fn fibonacci_yields_the_sequence() {
    let mut f = Fibonacci::new(10);
    let mut got = Vec::new();
    while let Some(x) = f.next() {
        got.push(x);
    }
    assert_eq!(got, vec![1, 1, 2, 3, 5, 8, 13, 21, 34, 55]);
    assert_eq!(f.next(), None);
}

#[test]
fn fibonacci_longest_run_fits_and_then_stops() {
    let mut f = Fibonacci::new(92);
    let mut got = Vec::new();
    while let Some(x) = f.next() {
        got.push(x);
    }
    assert_eq!(got.len(), 92);
    assert_eq!(got[91], 7540113804746346429);
    assert_eq!(got[90], 4660046610375530309);
    assert_eq!(f.next(), None);
    assert_eq!(f.next(), None);
}

#[test]
fn fibonacci_zero_yields_nothing() {
    let mut f = Fibonacci::new(0);
    assert_eq!(f.next(), None);
}

#[test]
fn encode_concatenates_id_and_data() {
    let event = Event::new(1u64, "hello world".to_string());
    let mut expected = vec![0u8; 8];
    expected.extend_from_slice(b"hello world");
    assert_eq!(event.encode().unwrap(), expected);
    let event = Event::new("id".to_string(), "你".to_string());
    assert_eq!(event.encode().unwrap(), vec![b'i', b'd', 0xe4, 0xbd, 0xa0]);
}

#[test]
fn u64_encodes_as_eight_zeros() {
    assert_eq!(258u64.encode().unwrap(), vec![0u8; 8]);
    assert_eq!(u64::MAX.encode().unwrap(), vec![0u8; 8]);
}

#[test]
fn user_new_and_default() {
    let user = User::new("Test".into(), 1, Gender::Female);
    assert_eq!(user.name, "Test");
    assert_eq!(user.age, 1);
    assert_eq!(user.gender, Gender::Female);
    let d = User::default();
    assert_eq!(d.name, "Unknown user");
    assert_eq!(d.age, 0);
    assert_eq!(d.gender, Gender::Unspecified);
}

#[test]
fn decimal_and_padding() {
    assert_eq!(decimal_string(0), "0");
    assert_eq!(decimal_string(1234567), "1234567");
    assert_eq!(decimal_string(usize::MAX), usize::MAX.to_string());
    assert_eq!(pad_left_string("12", 6), "    12");
    assert_eq!(pad_left_string("1234567", 6), "1234567");
    assert_eq!(pad_right_string("7", 3), "7  ");
    assert_eq!(pad_right_string("你", 3), "你  ");
    assert_eq!(pad_right_string("1000", 3), "1000");
    assert_eq!(join_lines(&vec!["a".to_string(), "b".into(), "".into()]), "a\nb\n");
    assert_eq!(join_lines(&vec![]), "");
    assert_eq!(join_lines(&vec!["x".to_string()]), "x");
}
