use vstd::prelude::*;

use crate::text::str_eq;

verus! {

broadcast use vstd::string::group_string_axioms;

/// A value stored in the key-value server.
#[derive(Clone, Debug, PartialEq)]
pub enum Value {
    String(String),
    Binary(Vec<u8>),
    Integer(i64),
    Bool(bool),
}

/// A key and the value stored under it.
#[derive(Debug, PartialEq)]
pub struct KvPair {
    pub key: String,
    pub value: Option<Value>,
}

impl KvPair {
    pub fn new(key: &str, value: Value) -> (r: Self)
        ensures
            r.key@ == key@,
            r.value == Some(value),
    {
        KvPair { key: key.to_owned(), value: Some(value) }
    }
}

impl From<(String, Value)> for KvPair {
    fn from(data: (String, Value)) -> (r: Self) {
        KvPair { key: data.0, value: Some(data.1) }
    }
}

impl vstd::std_specs::convert::FromSpecImpl<(String, Value)> for KvPair {
    open spec fn obeys_from_spec() -> bool {
        true
    }

    open spec fn from_spec(data: (String, Value)) -> KvPair {
        KvPair { key: data.0, value: Some(data.1) }
    }
}

#[verifier::external_type_specification]
#[verifier::external_body]
pub struct ExEncodeError(prost::EncodeError);

#[verifier::external_type_specification]
#[verifier::external_body]
pub struct ExDecodeError(prost::DecodeError);

#[verifier::external_type_specification]
#[verifier::external_body]
pub struct ExSledError(sled::Error);

#[verifier::external_type_specification]
#[verifier::external_body]
pub struct ExIoError(std::io::Error);

/// The errors of the key-value server.
#[derive(Debug)]
pub enum KvError {
    NotFound(String, String),
    FrameError,
    InvalidCommand(String),
    ConvertError(Value, &'static str),
    StorageError(&'static str, String, String, String),
    EncodeError(prost::EncodeError),
    DecodeError(prost::DecodeError),
    SledError(sled::Error),
    IoError(std::io::Error),
    Internal(String),
}

/// Whether `a` and `b` are the same value: the same variant holding the
/// same text, bytes, number or flag.
pub open spec fn same_value(a: Value, b: Value) -> bool {
    match (a, b) {
        (Value::String(x), Value::String(y)) => x@ == y@,
        (Value::Binary(x), Value::Binary(y)) => x@ == y@,
        (Value::Integer(x), Value::Integer(y)) => x == y,
        (Value::Bool(x), Value::Bool(y)) => x == y,
        _ => false,
    }
}

/// Whether two byte vectors hold the same bytes.
fn bytes_eq(a: &Vec<u8>, b: &Vec<u8>) -> (r: bool)
    ensures
        r == (a@ == b@),
{
    if a.len() != b.len() {
        return false;
    }
    let mut i: usize = 0;
    while i < a.len()
        invariant
            a@.len() == b@.len(),
            i <= a@.len(),
            forall|j: int| 0 <= j < i ==> a@[j] == b@[j],
        decreases a@.len() - i,
    {
        if a[i] != b[i] {
            return false;
        }
        i = i + 1;
    }
    assert(a@ =~= b@);
    true
}

impl Value {
    /// Whether `self` and `other` are the same value.
    pub fn same_as(&self, other: &Value) -> (r: bool)
        ensures
            r == same_value(*self, *other),
    {
        match (self, other) {
            (Value::String(x), Value::String(y)) => str_eq(x.as_str(), y.as_str()),
            (Value::Binary(x), Value::Binary(y)) => bytes_eq(x, y),
            (Value::Integer(x), Value::Integer(y)) => *x == *y,
            (Value::Bool(x), Value::Bool(y)) => *x == *y,
            _ => false,
        }
    }
}

/// Calls `==` of `prost::EncodeError`, derived over the two sizes it
/// holds: equal exactly when they are the same error.
#[verifier::external_body]
fn encode_errors_eq(a: &prost::EncodeError, b: &prost::EncodeError) -> (r: bool)
    ensures
        r == (*a == *b),
{
    a == b
}

/// What `==` of `prost::DecodeError` gives for `a` and `b`: whether their
/// descriptions and field stacks hold the same text.
pub uninterp spec fn decode_errors_equal(a: prost::DecodeError, b: prost::DecodeError) -> bool;

/// What `==` of `sled::Error` gives for `a` and `b`: whether they are the
/// same variant with equal contents, never for two I/O errors.
pub uninterp spec fn sled_errors_equal(a: sled::Error, b: sled::Error) -> bool;

/// Calls `==` of `prost::DecodeError`, derived over the description and the
/// field stack it holds; an error is equal to itself.
#[verifier::external_body]
fn decode_errors_eq(a: &prost::DecodeError, b: &prost::DecodeError) -> (r: bool)
    ensures
        r == decode_errors_equal(*a, *b),
        *a == *b ==> r,
{
    a == b
}

/// Calls `==` of `sled::Error`, which compares by variant and contents but
/// calls no two I/O errors equal, not even an error and itself; beyond
/// naming its result, nothing is said of it here.
#[verifier::external_body]
fn sled_errors_eq(a: &sled::Error, b: &sled::Error) -> (r: bool)
    ensures
        r == sled_errors_equal(*a, *b),
{
    a == b
}

/// Whether `a` and `b` are equal errors: the same variant with the same
/// contents, where two errors of prost or of sled are compared by their own
/// `==`, and no two I/O errors are equal.
pub open spec fn error_equality(a: KvError, b: KvError) -> bool {
    match (a, b) {
        (KvError::NotFound(l0, l1), KvError::NotFound(r0, r1)) => l0@ == r0@ && l1@ == r1@,
        (KvError::FrameError, KvError::FrameError) => true,
        (KvError::InvalidCommand(l0), KvError::InvalidCommand(r0)) => l0@ == r0@,
        (KvError::ConvertError(l0, l1), KvError::ConvertError(r0, r1)) => same_value(l0, r0)
            && l1@ == r1@,
        (KvError::StorageError(l0, l1, l2, l3), KvError::StorageError(r0, r1, r2, r3)) => l0@
            == r0@ && l1@ == r1@ && l2@ == r2@ && l3@ == r3@,
        (KvError::EncodeError(x), KvError::EncodeError(y)) => x == y,
        (KvError::DecodeError(x), KvError::DecodeError(y)) => decode_errors_equal(x, y),
        (KvError::SledError(x), KvError::SledError(y)) => sled_errors_equal(x, y),
        (KvError::IoError(_), KvError::IoError(_)) => false,
        (KvError::Internal(l0), KvError::Internal(r0)) => l0@ == r0@,
        _ => false,
    }
}

/// Comparing errors does not depend on their order, for every pair but two
/// errors of prost's decoding or of sled, whose `==` only the outside crate
/// defines.
pub proof fn law_error_equality_symmetric(a: KvError, b: KvError)
    requires
        !(a is DecodeError && b is DecodeError),
        !(a is SledError && b is SledError),
    ensures
        error_equality(a, b) == error_equality(b, a),
{
}

/// Two errors of different variants are never equal, nor are two I/O
/// errors, not even an error and itself.
pub proof fn law_error_equality_variants(a: KvError, b: KvError)
    ensures
        !same_variant(a, b) ==> !error_equality(a, b),
        a is IoError ==> !error_equality(a, b),
{
}

/// Two errors of the same variant that hold text, a value or a message are
/// equal exactly when each of their fields holds the same as the other's:
/// two `StorageError`s that differ only in their key, say, are not equal.
pub proof fn law_error_equality_by_fields(a: KvError, b: KvError)
    ensures
        (a, b) matches (KvError::NotFound(l0, l1), KvError::NotFound(r0, r1)) ==> (error_equality(
            a,
            b,
        ) <==> l0@ == r0@ && l1@ == r1@),
        (a, b) matches (KvError::InvalidCommand(l0), KvError::InvalidCommand(r0)) ==> (
        error_equality(a, b) <==> l0@ == r0@),
        (a, b) matches (KvError::ConvertError(l0, l1), KvError::ConvertError(r0, r1)) ==> (
        error_equality(a, b) <==> same_value(l0, r0) && l1@ == r1@),
        (a, b) matches (
            KvError::StorageError(l0, l1, l2, l3),
            KvError::StorageError(r0, r1, r2, r3),
        ) ==> (error_equality(a, b) <==> l0@ == r0@ && l1@ == r1@ && l2@ == r2@ && l3@ == r3@),
        (a, b) matches (KvError::Internal(l0), KvError::Internal(r0)) ==> (error_equality(a, b)
            <==> l0@ == r0@),
        (a, b) matches (KvError::EncodeError(x), KvError::EncodeError(y)) ==> (error_equality(a, b)
            <==> x == y),
        (a is FrameError && b is FrameError) ==> error_equality(a, b),
{
}

/// Two values are the same exactly when they are of one variant and hold
/// the same text, bytes, number or flag.
pub proof fn law_same_value_by_contents(a: Value, b: Value)
    ensures
        (a, b) matches (Value::String(x), Value::String(y)) ==> (same_value(a, b) <==> x@ == y@),
        (a, b) matches (Value::Binary(x), Value::Binary(y)) ==> (same_value(a, b) <==> x@ == y@),
        (a, b) matches (Value::Integer(x), Value::Integer(y)) ==> (same_value(a, b) <==> x == y),
        (a, b) matches (Value::Bool(x), Value::Bool(y)) ==> (same_value(a, b) <==> x == y),
        same_value(a, b) ==> (a is String <==> b is String) && (a is Binary <==> b is Binary) && (
        a is Integer <==> b is Integer) && (a is Bool <==> b is Bool),
{
}

/// `a` and `b` are of the same variant.
pub open spec fn same_variant(a: KvError, b: KvError) -> bool {
    match (a, b) {
        (KvError::NotFound(..), KvError::NotFound(..)) => true,
        (KvError::FrameError, KvError::FrameError) => true,
        (KvError::InvalidCommand(..), KvError::InvalidCommand(..)) => true,
        (KvError::ConvertError(..), KvError::ConvertError(..)) => true,
        (KvError::StorageError(..), KvError::StorageError(..)) => true,
        (KvError::EncodeError(..), KvError::EncodeError(..)) => true,
        (KvError::DecodeError(..), KvError::DecodeError(..)) => true,
        (KvError::SledError(..), KvError::SledError(..)) => true,
        (KvError::IoError(..), KvError::IoError(..)) => true,
        (KvError::Internal(..), KvError::Internal(..)) => true,
        _ => false,
    }
}

impl KvError {
    /// Whether `self` and `other` are equal errors, as `error_equality`
    /// says.
    pub fn eq(&self, other: &Self) -> (r: bool)
        ensures
            r == error_equality(*self, *other),
    {
        match (self, other) {
            (KvError::NotFound(l0, l1), KvError::NotFound(r0, r1)) => {
                str_eq(l0.as_str(), r0.as_str()) && str_eq(l1.as_str(), r1.as_str())
            },
            (KvError::FrameError, KvError::FrameError) => true,
            (KvError::InvalidCommand(l0), KvError::InvalidCommand(r0)) => {
                str_eq(l0.as_str(), r0.as_str())
            },
            (KvError::ConvertError(l0, l1), KvError::ConvertError(r0, r1)) => {
                l0.same_as(r0) && str_eq(*l1, *r1)
            },
            (KvError::StorageError(l0, l1, l2, l3), KvError::StorageError(r0, r1, r2, r3)) => {
                str_eq(*l0, *r0) && str_eq(l1.as_str(), r1.as_str()) && str_eq(
                    l2.as_str(),
                    r2.as_str(),
                ) && str_eq(l3.as_str(), r3.as_str())
            },
            (KvError::EncodeError(l0), KvError::EncodeError(r0)) => encode_errors_eq(l0, r0),
            (KvError::DecodeError(l0), KvError::DecodeError(r0)) => decode_errors_eq(l0, r0),
            (KvError::SledError(l0), KvError::SledError(r0)) => sled_errors_eq(l0, r0),
            (KvError::IoError(_), KvError::IoError(_)) => false,
            (KvError::Internal(l0), KvError::Internal(r0)) => str_eq(l0.as_str(), r0.as_str()),
            _ => false,
        }
    }
}

/// A store of named tables of key-value pairs.
pub trait Storage {
    /// The value under `key` in `table`.
    fn get(&mut self, table: &str, key: &str) -> Result<Option<Value>, KvError>;

    /// Stores `value` under `key` in `table`, giving back what was there.
    fn set(&mut self, table: &str, key: String, value: Value) -> Result<Option<Value>, KvError>;

    /// Whether `table` holds `key`.
    fn contains(&mut self, table: &str, key: &str) -> Result<bool, KvError>;

    /// Removes `key` from `table`, giving back what was there.
    fn del(&mut self, table: &str, key: &str) -> Result<Option<Value>, KvError>;

    /// Every pair of `table`.
    fn get_all(&mut self, table: &str) -> Result<Vec<KvPair>, KvError>;

    /// A snapshot of every pair of `table`, to walk through.
    fn get_iter(&mut self, table: &str) -> Result<Vec<KvPair>, KvError>;
}

#[verifier::external_type_specification]
#[verifier::external_body]
#[verifier::reject_recursive_types(K)]
#[verifier::reject_recursive_types(V)]
#[verifier::reject_recursive_types(S)]
pub struct ExDashMap<K, V, S>(dashmap::DashMap<K, V, S>);

/// The tables of a `MemTable`, each a map from keys to values.
pub type Tables = dashmap::DashMap<String, dashmap::DashMap<String, Value>>;

/// What the tables of a `MemTable` hold: each table's name with its pairs.
pub uninterp spec fn tables_contents(
    m: Tables,
) -> Map<Seq<char>, Map<Seq<char>, Value>>;

/// The value under `k` in `m`, if any.
pub open spec fn lookup<K, V>(m: Map<K, V>, k: K) -> Option<V> {
    if m.dom().contains(k) {
        Some(m[k])
    } else {
        None
    }
}

/// The tables once the table `name` exists: a new table is empty.
pub open spec fn ensure_table(
    t: Map<Seq<char>, Map<Seq<char>, Value>>,
    name: Seq<char>,
) -> Map<Seq<char>, Map<Seq<char>, Value>> {
    if t.dom().contains(name) {
        t
    } else {
        t.insert(name, Map::empty())
    }
}

/// Calls `DashMap::new`: no tables.
#[verifier::external_body]
fn tables_new() -> (r: Tables)
    ensures
        tables_contents(r).dom() == Set::<Seq<char>>::empty(),
{
    dashmap::DashMap::new()
}

/// Calls `DashMap::entry(..).or_default()` on the tables: the table `name`
/// exists afterwards, empty where it is new; nothing else changes.
#[verifier::external_body]
fn tables_ensure(m: &mut Tables, name: &str)
    ensures
        tables_contents(*final(m)) == ensure_table(tables_contents(*old(m)), name@),
{
    m.entry(name.to_owned()).or_default();
}

/// Calls `DashMap::get` on the tables, then on the table `table`, and
/// clones the value found.
#[verifier::external_body]
fn table_get(
    m: &Tables,
    table: &str,
    key: &str,
) -> (r: Option<Value>)
    requires
        tables_contents(*m).dom().contains(table@),
    ensures
        r == lookup(tables_contents(*m)[table@], key@),
{
    m.get(table).unwrap().get(key).map(|v| v.value().clone())
}

/// Calls `DashMap::insert` on the table `table`: stores `value` under
/// `key` and gives back what was there.
#[verifier::external_body]
fn table_insert(
    m: &mut Tables,
    table: &str,
    key: String,
    value: Value,
) -> (r: Option<Value>)
    requires
        tables_contents(*old(m)).dom().contains(table@),
    ensures
        r == lookup(tables_contents(*old(m))[table@], key@),
        tables_contents(*final(m)) == tables_contents(*old(m)).insert(
            table@,
            tables_contents(*old(m))[table@].insert(key@, value),
        ),
{
    m.get(table).unwrap().insert(key, value)
}

/// Calls `DashMap::contains_key` on the table `table`.
#[verifier::external_body]
fn table_contains(
    m: &Tables,
    table: &str,
    key: &str,
) -> (r: bool)
    requires
        tables_contents(*m).dom().contains(table@),
    ensures
        r == tables_contents(*m)[table@].dom().contains(key@),
{
    m.get(table).unwrap().contains_key(key)
}

/// Calls `DashMap::remove` on the table `table`: removes `key` and gives
/// back its value.
#[verifier::external_body]
fn table_remove(
    m: &mut Tables,
    table: &str,
    key: &str,
) -> (r: Option<Value>)
    requires
        tables_contents(*old(m)).dom().contains(table@),
    ensures
        r == lookup(tables_contents(*old(m))[table@], key@),
        tables_contents(*final(m)) == tables_contents(*old(m)).insert(
            table@,
            tables_contents(*old(m))[table@].remove(key@),
        ),
{
    m.get(table).unwrap().remove(key).map(|(_k, v)| v)
}

/// Walks the table `table` with `DashMap::iter`, cloning each pair. The
/// order is the table's hash order, which depends on the hasher each process
/// seeds: what is said is that every pair comes out once.
#[verifier::external_body]
fn table_pairs(
    m: &Tables,
    table: &str,
) -> (r: Vec<(String, Value)>)
    requires
        tables_contents(*m).dom().contains(table@),
    ensures
        lists_pairs(r@, tables_contents(*m)[table@]),
{
    m.get(table).unwrap().iter().map(|v| (v.key().clone(), v.value().clone())).collect()
}

/// `pairs` lists the pairs of `t`, each once, in some order.
pub open spec fn lists_pairs(pairs: Seq<(String, Value)>, t: Map<Seq<char>, Value>) -> bool {
    &&& pairs.len() == t.dom().len()
    &&& forall|i: int|
        0 <= i < pairs.len() ==> t.dom().contains((#[trigger] pairs[i]).0@) && t[pairs[i].0@]
            == pairs[i].1
    &&& forall|i: int, j: int|
        0 <= i < j < pairs.len() ==> (#[trigger] pairs[i]).0@ != (#[trigger] pairs[j]).0@
}

/// `kvs` lists the pairs of `t`, each once, in some order.
pub open spec fn lists_kv_pairs(kvs: Seq<KvPair>, t: Map<Seq<char>, Value>) -> bool {
    &&& kvs.len() == t.dom().len()
    &&& forall|i: int|
        0 <= i < kvs.len() ==> t.dom().contains((#[trigger] kvs[i]).key@) && kvs[i].value
            == Some(t[kvs[i].key@])
    &&& forall|i: int, j: int|
        0 <= i < j < kvs.len() ==> (#[trigger] kvs[i]).key@ != (#[trigger] kvs[j]).key@
}

/// A `Storage` held in memory, in a concurrent hash map of tables.
#[derive(Debug)]
pub struct MemTable {
    tables: Tables,
}

impl MemTable {
    /// What the tables hold.
    pub closed spec fn contents(&self) -> Map<Seq<char>, Map<Seq<char>, Value>> {
        tables_contents(self.tables)
    }

    /// A store with no tables.
    pub fn new() -> (r: Self)
        ensures
            r.contents() == Map::<Seq<char>, Map<Seq<char>, Value>>::empty(),
    {
        let r = MemTable { tables: tables_new() };
        assert(r.contents() =~= Map::<Seq<char>, Map<Seq<char>, Value>>::empty());
        r
    }

    /// Creates the table `name`, empty, where it does not exist.
    fn get_or_create_table(&mut self, name: &str)
        ensures
            final(self).contents() == ensure_table(old(self).contents(), name@),
            final(self).contents().dom().contains(name@),
    {
        tables_ensure(&mut self.tables, name);
    }

    fn pairs_of(&mut self, table: &str) -> (r: Vec<KvPair>)
        ensures
            final(self).contents() == ensure_table(old(self).contents(), table@),
            lists_kv_pairs(r@, final(self).contents()[table@]),
    {
        self.get_or_create_table(table);
        let mut pairs = table_pairs(&self.tables, table);
        let ghost all = pairs@;
        let ghost t = self.contents()[table@];
        let mut out: Vec<KvPair> = Vec::new();
        while pairs.len() > 0
            invariant
                lists_pairs(all, t),
                pairs@ == all.take(pairs@.len() as int),
                pairs@.len() <= all.len(),
                out@.len() == all.len() - pairs@.len(),
                forall|j: int|
                    0 <= j < out@.len() ==> (#[trigger] out@[j]).key@ == all[all.len() - 1 - j].0@
                        && out@[j].value == Some(all[all.len() - 1 - j].1),
            decreases pairs@.len(),
        {
            let ghost n = pairs@.len();
            let (k, v) = pairs.pop().unwrap();
            assert(pairs@ =~= all.take(n - 1));
            out.push(KvPair { key: k, value: Some(v) });
        }
        assert forall|a: int, b: int| 0 <= a < b < out@.len() implies (#[trigger] out@[a]).key@
            != (#[trigger] out@[b]).key@ by {
            assert(all[all.len() - 1 - b].0@ != all[all.len() - 1 - a].0@);
        }
        assert forall|i: int| 0 <= i < out@.len() implies t.dom().contains(
            (#[trigger] out@[i]).key@,
        ) && out@[i].value == Some(t[out@[i].key@]) by {
            assert(all[all.len() - 1 - i] == all[all.len() - 1 - i]);
        }
        out
    }
}

/// The table `t` as an operation on it sees it: empty where it does not exist.
pub open spec fn table_of(c: Map<Seq<char>, Map<Seq<char>, Value>>, t: Seq<char>) -> Map<
    Seq<char>,
    Value,
> {
    ensure_table(c, t)[t]
}

/// The tables once `v` is stored under `k` in `t`.
pub open spec fn after_set(
    c: Map<Seq<char>, Map<Seq<char>, Value>>,
    t: Seq<char>,
    k: Seq<char>,
    v: Value,
) -> Map<Seq<char>, Map<Seq<char>, Value>> {
    ensure_table(c, t).insert(t, table_of(c, t).insert(k, v))
}

/// The tables once `k` is removed from `t`.
pub open spec fn after_del(c: Map<Seq<char>, Map<Seq<char>, Value>>, t: Seq<char>, k: Seq<char>) -> Map<
    Seq<char>,
    Map<Seq<char>, Value>,
> {
    ensure_table(c, t).insert(t, table_of(c, t).remove(k))
}

/// Each operation first creates its table where it does not exist.
/// Calls `Clone::clone` on the tables, which copies every table and every
/// pair: the copy holds what the original holds.
#[verifier::external_body]
fn tables_clone(m: &Tables) -> (r: Tables)
    ensures
        tables_contents(r) == tables_contents(*m),
{
    m.clone()
}

impl Clone for MemTable {
    /// A store holding what this one holds, from then on apart from it.
    fn clone(&self) -> (r: Self)
        ensures
            r.contents() == self.contents(),
    {
        MemTable { tables: tables_clone(&self.tables) }
    }
}

impl Default for MemTable {
    /// A store with no tables.
    fn default() -> (r: Self)
        ensures
            r.contents() == Map::<Seq<char>, Map<Seq<char>, Value>>::empty(),
    {
        MemTable::new()
    }
}

impl Storage for MemTable {
    fn get(&mut self, table: &str, key: &str) -> (r: Result<Option<Value>, KvError>)
        ensures
            final(self).contents() == ensure_table(old(self).contents(), table@),
            r matches Ok(v) && v == lookup(table_of(old(self).contents(), table@), key@),
    {
        self.get_or_create_table(table);
        Ok(table_get(&self.tables, table, key))
    }

    fn set(&mut self, table: &str, key: String, value: Value) -> (r: Result<Option<Value>, KvError>)
        ensures
            final(self).contents() == after_set(old(self).contents(), table@, key@, value),
            r matches Ok(v) && v == lookup(table_of(old(self).contents(), table@), key@),
    {
        self.get_or_create_table(table);
        Ok(table_insert(&mut self.tables, table, key, value))
    }

    fn contains(&mut self, table: &str, key: &str) -> (r: Result<bool, KvError>)
        ensures
            final(self).contents() == ensure_table(old(self).contents(), table@),
            r matches Ok(b) && b == table_of(old(self).contents(), table@).dom().contains(key@),
    {
        self.get_or_create_table(table);
        Ok(table_contains(&self.tables, table, key))
    }

    fn del(&mut self, table: &str, key: &str) -> (r: Result<Option<Value>, KvError>)
        ensures
            final(self).contents() == after_del(old(self).contents(), table@, key@),
            r matches Ok(v) && v == lookup(table_of(old(self).contents(), table@), key@),
    {
        self.get_or_create_table(table);
        Ok(table_remove(&mut self.tables, table, key))
    }

    fn get_all(&mut self, table: &str) -> (r: Result<Vec<KvPair>, KvError>)
        ensures
            final(self).contents() == ensure_table(old(self).contents(), table@),
            r matches Ok(v) && lists_kv_pairs(v@, table_of(old(self).contents(), table@)),
    {
        Ok(self.pairs_of(table))
    }

    fn get_iter(&mut self, table: &str) -> (r: Result<Vec<KvPair>, KvError>)
        ensures
            final(self).contents() == ensure_table(old(self).contents(), table@),
            r matches Ok(v) && lists_kv_pairs(v@, table_of(old(self).contents(), table@)),
    {
        Ok(self.pairs_of(table))
    }
}

/// A read gives back what the last write of the same key stored.
pub proof fn law_get_after_set(
    c: Map<Seq<char>, Map<Seq<char>, Value>>,
    t: Seq<char>,
    k: Seq<char>,
    v: Value,
)
    ensures
        lookup(table_of(after_set(c, t, k, v), t), k) == Some(v),
{
}

/// A read after a removal of the same key finds nothing.
pub proof fn law_get_after_del(c: Map<Seq<char>, Map<Seq<char>, Value>>, t: Seq<char>, k: Seq<char>)
    ensures
        lookup(table_of(after_del(c, t, k), t), k) is None,
{
}

/// A write leaves every other key, in every table, as it was.
pub proof fn law_set_keeps_others(
    c: Map<Seq<char>, Map<Seq<char>, Value>>,
    t: Seq<char>,
    k: Seq<char>,
    v: Value,
    t2: Seq<char>,
    k2: Seq<char>,
)
    requires
        t2 != t || k2 != k,
    ensures
        lookup(table_of(after_set(c, t, k, v), t2), k2) == lookup(table_of(c, t2), k2),
{
}

/// A removal leaves every other key, in every table, as it was.
pub proof fn law_del_keeps_others(
    c: Map<Seq<char>, Map<Seq<char>, Value>>,
    t: Seq<char>,
    k: Seq<char>,
    t2: Seq<char>,
    k2: Seq<char>,
)
    requires
        t2 != t || k2 != k,
    ensures
        lookup(table_of(after_del(c, t, k), t2), k2) == lookup(table_of(c, t2), k2),
{
}

/// A key is contained exactly when a read finds a value for it.
pub proof fn law_contains_iff_get(c: Map<Seq<char>, Map<Seq<char>, Value>>, t: Seq<char>, k: Seq<char>)
    ensures
        table_of(c, t).dom().contains(k) <==> lookup(table_of(c, t), k) is Some,
{
}

/// Writing a key twice keeps the second value; the second write gives back
/// the first.
pub proof fn law_set_twice(
    c: Map<Seq<char>, Map<Seq<char>, Value>>,
    t: Seq<char>,
    k: Seq<char>,
    v1: Value,
    v2: Value,
)
    ensures
        lookup(table_of(after_set(c, t, k, v1), t), k) == Some(v1),
        lookup(table_of(after_set(after_set(c, t, k, v1), t, k, v2), t), k) == Some(v2),
{
}

} // verus!
