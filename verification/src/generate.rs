use vstd::prelude::*;
use vstd::string::{StrSliceExecFns, StringExecFns};

use crate::text::{char_to_string, str_eq, strip_leading, strip_trailing, trim_end_char, trim_start_char};

verus! {

broadcast use vstd::string::group_string_axioms;

/// How a group of tokens is delimited.
#[derive(Clone, Copy, PartialEq, Eq, Debug)]
pub enum Delimiter {
    Parenthesis,
    Brace,
    Bracket,
    NoDelimiter,
}

/// A delimited group of tokens, with the text it prints as.
pub struct Group {
    pub delimiter: Delimiter,
    pub stream: Vec<TokenTree>,
    pub text: String,
}

/// One token of macro input: a group, an identifier, a punctuation
/// character or a literal (held as its source text, quotes included).
pub enum TokenTree {
    Group(Group),
    Ident(String),
    Punct(char),
    Literal(String),
}

/// What went wrong reading a schema.
#[derive(Clone, Copy, PartialEq, Eq, Debug)]
pub enum ErrorKind {
    /// A schema (or the `xml` entry) is not in braces.
    NotBrace,
    /// An entry has nothing before its `:`.
    MissingKey,
    /// An entry that is read has nothing after its `:`.
    MissingValue,
    /// The `type` entry of an integer schema is not `"integer"`.
    NotInteger,
    /// The `type` entry of a boolean schema is not `"boolean"`.
    NotBoolean,
    /// The `type` entry of a string schema is not `"string"`.
    NotString,
    /// The `type` entry of an object schema is not `"object"`.
    NotObjectType,
    /// A `format` that is not supported; the detail is its text.
    UnsupportedFormat,
    /// The schema has no `type` entry.
    MissingType,
    /// An integer or string schema has no `format` entry.
    MissingFormat,
    /// The `enum` entry is not in brackets.
    NotBracket,
    /// The `properties` entry is not in braces.
    PropertiesNotBrace,
    /// A property's name is not a literal.
    NameNotLiteral,
    /// A name that cannot be capitalised: it is empty or its first
    /// character is not ASCII; the detail is the name.
    BadName,
    /// A `type` that is not supported; the detail is its text.
    UnsupportedType,
    /// The top-level schema is not an object.
    NotObject,
    /// A property of the top-level object is itself an object.
    NestedObject,
    /// There is no input at all.
    EmptyInput,
    /// No `xml` entry holds a `name`.
    MissingName,
}

/// An error reading a schema, with the text it is about, if any.
#[derive(Debug)]
pub struct GenerateError {
    pub kind: ErrorKind,
    pub detail: String,
}

/// The type read from a schema: an object's fields, or a Rust type name.
pub enum ReadResult {
    Object(Vec<Field>),
    Other(String),
}

/// A property of an object schema and its type.
pub struct Field {
    pub name: String,
    pub ty: ReadResult,
}

/// A field of the generated struct: its name and Rust type.
pub struct Fd {
    pub name: String,
    pub ty: String,
}

/// What `generate` produces: the enums the string schemas call for, the
/// struct's name and its fields.
pub struct GenerateContext {
    pub extra_types: Vec<String>,
    pub name: String,
    pub fields: Vec<Fd>,
}

/// The mathematical value of a `ReadResult`.
pub enum ResultModel {
    Object(Seq<FieldModel>),
    Other(Seq<char>),
}

/// The mathematical value of a `Field`.
pub struct FieldModel {
    pub name: Seq<char>,
    pub ty: ResultModel,
}

/// An error as a kind and the text it is about.
pub type ErrModel = (ErrorKind, Seq<char>);

/// The enums defined so far: each name with its definition, in the order
/// they were defined.
pub type ExtraModel = Seq<(Seq<char>, Seq<char>)>;

pub open spec fn fail(k: ErrorKind) -> ErrModel {
    (k, Seq::empty())
}

pub open spec fn err_model(e: GenerateError) -> ErrModel {
    (e.kind, e.detail@)
}

pub open spec fn result_model(r: ReadResult) -> ResultModel
    decreases r,
{
    match r {
        ReadResult::Object(v) => ResultModel::Object(fields_model(v@)),
        ReadResult::Other(s) => ResultModel::Other(s@),
    }
}

pub open spec fn fields_model(fs: Seq<Field>) -> Seq<FieldModel>
    decreases fs,
{
    if fs.len() == 0 {
        Seq::empty()
    } else {
        fields_model(fs.drop_last()).push(
            FieldModel { name: fs.last().name@, ty: result_model(fs.last().ty) },
        )
    }
}

pub open spec fn extra_model(extra: Seq<(String, String)>) -> ExtraModel {
    extra.map_values(|e: (String, String)| (e.0@, e.1@))
}

/// An exec result agrees with its model.
pub open spec fn agrees(r: Result<ReadResult, GenerateError>, m: Result<ResultModel, ErrModel>) -> bool {
    match m {
        Ok(v) => r matches Ok(x) && result_model(x) == v,
        Err(e) => r matches Err(x) && err_model(x) == e,
    }
}

pub open spec fn is_punct(t: TokenTree, c: char) -> bool {
    t matches TokenTree::Punct(x) && x == c
}

pub open spec fn is_lit(t: TokenTree, text: Seq<char>) -> bool {
    t matches TokenTree::Literal(x) && x@ == text
}

/// The text a token prints as.
pub open spec fn token_text(t: TokenTree) -> Seq<char> {
    match t {
        TokenTree::Group(g) => g.text@,
        TokenTree::Ident(s) => s@,
        TokenTree::Punct(c) => seq![c],
        TokenTree::Literal(s) => s@,
    }
}

/// A text with the quotes around it removed: every `"` at its end, then
/// every `"` at its start.
pub open spec fn unquote(s: Seq<char>) -> Seq<char> {
    strip_leading(strip_trailing(s, '"'), '"')
}

/// The index of the first `c` punctuation in `s` from `i` on, or the length
/// of `s` where there is none.
pub open spec fn next_sep(s: Seq<TokenTree>, c: char, i: int) -> int
    decreases s.len() - i,
{
    if i >= s.len() {
        s.len() as int
    } else if is_punct(s[i], c) {
        i
    } else {
        next_sep(s, c, i + 1)
    }
}

/// The entry `s[lo..hi]` is `key : value ...`: its key, where it has one.
pub open spec fn entry_key(s: Seq<TokenTree>, lo: int, hi: int) -> Option<TokenTree> {
    if lo < hi && !is_punct(s[lo], ':') {
        Some(s[lo])
    } else {
        None
    }
}

/// The first token after the first `:` of the entry `s[lo..hi]`, where
/// there is one before the next `:`.
pub open spec fn entry_value(s: Seq<TokenTree>, lo: int, hi: int) -> Option<TokenTree> {
    let c = next_sep(s, ':', lo);
    if c < hi && c + 1 < hi && !is_punct(s[c + 1], ':') {
        Some(s[c + 1])
    } else {
        None
    }
}

/// `c` upper-cased where it is an ASCII letter.
pub open spec fn ascii_upper(c: char) -> char {
    if 'a' <= c && c <= 'z' {
        ((c as u8) - 32) as u8 as char
    } else {
        c
    }
}

/// A name with its first character upper-cased; `None` where the name is
/// empty or starts with a character that is not ASCII.
pub open spec fn capitalize(n: Seq<char>) -> Option<Seq<char>> {
    if n.len() > 0 && (n[0] as u32) < 128 {
        Some(seq![ascii_upper(n[0])] + n.drop_first())
    } else {
        None
    }
}

fn is_punct_exec(t: &TokenTree, c: char) -> (r: bool)
    ensures
        r == is_punct(*t, c),
{
    match t {
        TokenTree::Punct(x) => *x == c,
        _ => false,
    }
}

fn is_lit_exec(t: &TokenTree, text: &str) -> (r: bool)
    ensures
        r == is_lit(*t, text@),
{
    match t {
        TokenTree::Literal(x) => str_eq(x.as_str(), text),
        _ => false,
    }
}

fn token_text_exec(t: &TokenTree) -> (r: String)
    ensures
        r@ == token_text(*t),
{
    match t {
        TokenTree::Group(g) => g.text.clone(),
        TokenTree::Ident(s) => s.clone(),
        TokenTree::Punct(c) => char_to_string(*c),
        TokenTree::Literal(s) => s.clone(),
    }
}

fn unquote_exec(s: &str) -> (r: String)
    ensures
        r@ == unquote(s@),
{
    let t = trim_end_char(s, '"');
    let u = trim_start_char(t, '"');
    u.to_owned()
}

fn capitalize_exec(n: &str) -> (r: Option<String>)
    ensures
        match capitalize(n@) {
            Some(c) => r matches Some(x) && x@ == c,
            None => r is None,
        },
{
    let len = n.unicode_len();
    if len == 0 {
        return None;
    }
    let c = n.get_char(0);
    if (c as u32) >= 128 {
        return None;
    }
    let up = if 'a' <= c && c <= 'z' {
        ((c as u8) - 32) as char
    } else {
        c
    };
    let mut r = char_to_string(up);
    r.append(n.substring_char(1, len));
    assert(n@.subrange(1, len as int) =~= n@.drop_first());
    Some(r)
}

fn find_sep(s: &Vec<TokenTree>, c: char, from: usize) -> (r: usize)
    requires
        from <= s@.len(),
    ensures
        r == next_sep(s@, c, from as int),
        from <= r <= s@.len(),
{
    let mut i = from;
    while i < s.len() && !is_punct_exec(&s[i], c)
        invariant
            from <= i <= s@.len(),
            next_sep(s@, c, i as int) == next_sep(s@, c, from as int),
        decreases s@.len() - i,
    {
        i = i + 1;
    }
    i
}

pub proof fn lemma_next_sep_bounds(s: Seq<TokenTree>, c: char, i: int)
    requires
        0 <= i <= s.len(),
    ensures
        i <= next_sep(s, c, i) <= s.len(),
        next_sep(s, c, i) < s.len() ==> is_punct(s[next_sep(s, c, i)], c),
    decreases s.len() - i,
{
    if i < s.len() && !is_punct(s[i], c) {
        lemma_next_sep_bounds(s, c, i + 1);
    }
}

fn entry_key_exec(s: &Vec<TokenTree>, lo: usize, hi: usize) -> (r: Option<&TokenTree>)
    requires
        lo <= hi <= s@.len(),
    ensures
        match entry_key(s@, lo as int, hi as int) {
            Some(k) => r matches Some(x) && *x == k,
            None => r is None,
        },
{
    if lo < hi && !is_punct_exec(&s[lo], ':') {
        Some(&s[lo])
    } else {
        None
    }
}

fn entry_value_exec(s: &Vec<TokenTree>, lo: usize, hi: usize) -> (r: Option<&TokenTree>)
    requires
        lo <= hi <= s@.len(),
    ensures
        match entry_value(s@, lo as int, hi as int) {
            Some(k) => r matches Some(x) && *x == k,
            None => r is None,
        },
{
    let c = find_sep(s, ':', lo);
    if c < hi && c + 1 < hi && !is_punct_exec(&s[c + 1], ':') {
        Some(&s[c + 1])
    } else {
        None
    }
}

fn error(kind: ErrorKind) -> (r: GenerateError)
    ensures
        err_model(r) == fail(kind),
{
    GenerateError { kind, detail: String::new() }
}

pub open spec fn opt_view(o: Option<String>) -> Option<Seq<char>> {
    match o {
        Some(s) => Some(s@),
        None => None,
    }
}

/// The entries of a braced schema, when the token is one.
pub open spec fn brace_stream(t: TokenTree) -> Option<Seq<TokenTree>> {
    match t {
        TokenTree::Group(g) => if g.delimiter == Delimiter::Brace {
            Some(g.stream@)
        } else {
            None
        },
        _ => None,
    }
}

fn brace_stream_exec(t: &TokenTree) -> (r: Option<&Vec<TokenTree>>)
    ensures
        match brace_stream(*t) {
            Some(s) => r matches Some(x) && x@ == s,
            None => r is None,
        },
{
    match t {
        TokenTree::Group(g) => match g.delimiter {
            Delimiter::Brace => Some(&g.stream),
            _ => None,
        },
        _ => None,
    }
}

/// Reading an integer schema from its entry at `pos` on, having seen a
/// `type` entry (`ty`) and the format `fmt` so far.
pub open spec fn integer_scan(s: Seq<TokenTree>, pos: int, ty: bool, fmt: Option<Seq<char>>) -> Result<
    ResultModel,
    ErrModel,
>
    decreases s.len() + 1 - pos,
{
    if pos < 0 || pos > s.len() {
        Err(fail(ErrorKind::MissingKey))
    } else {
        let c = next_sep(s, ',', pos);
        proof {
            lemma_next_sep_bounds(s, ',', pos);
        }
        let step: Result<(bool, Option<Seq<char>>), ErrModel> = match entry_key(s, pos, c) {
            None => Err(fail(ErrorKind::MissingKey)),
            Some(k) => if is_lit(k, "\"type\""@) {
                match entry_value(s, pos, c) {
                    None => Err(fail(ErrorKind::MissingValue)),
                    Some(v) => if is_lit(v, "\"integer\""@) {
                        Ok((true, fmt))
                    } else {
                        Err(fail(ErrorKind::NotInteger))
                    },
                }
            } else if is_lit(k, "\"format\""@) {
                match entry_value(s, pos, c) {
                    None => Err(fail(ErrorKind::MissingValue)),
                    Some(v) => if token_text(v) == "\"int64\""@ {
                        Ok((ty, Some("i64"@)))
                    } else if token_text(v) == "\"int32\""@ {
                        Ok((ty, Some("i32"@)))
                    } else {
                        Err((ErrorKind::UnsupportedFormat, token_text(v)))
                    },
                }
            } else {
                Ok((ty, fmt))
            },
        };
        match step {
            Err(e) => Err(e),
            Ok((t2, f2)) => if c >= s.len() {
                if !t2 {
                    Err(fail(ErrorKind::MissingType))
                } else {
                    match f2 {
                        None => Err(fail(ErrorKind::MissingFormat)),
                        Some(f) => Ok(ResultModel::Other(f)),
                    }
                }
            } else {
                integer_scan(s, c + 1, t2, f2)
            },
        }
    }
}

/// An integer schema: braces holding `"type": "integer"` and a `format` of
/// `"int64"` or `"int32"`, read as the Rust type `i64` or `i32`.
pub open spec fn spec_read_integer(t: TokenTree) -> Result<ResultModel, ErrModel> {
    match brace_stream(t) {
        None => Err(fail(ErrorKind::NotBrace)),
        Some(s) => integer_scan(s, 0, false, None),
    }
}

fn read_integer(input: &TokenTree) -> (r: Result<ReadResult, GenerateError>)
    ensures
        agrees(r, spec_read_integer(*input)),
{
    let s = match brace_stream_exec(input) {
        Some(s) => s,
        None => return Err(error(ErrorKind::NotBrace)),
    };
    let mut pos: usize = 0;
    let mut ty = false;
    let mut format: Option<String> = None;
    loop
        invariant
            pos <= s@.len(),
            brace_stream(*input) == Some(s@),
            integer_scan(s@, pos as int, ty, opt_view(format)) == spec_read_integer(*input),
        decreases s@.len() - pos,
    {
        let c = find_sep(s, ',', pos);
        match entry_key_exec(s, pos, c) {
            None => return Err(error(ErrorKind::MissingKey)),
            Some(k) => {
                if is_lit_exec(k, "\"type\"") {
                    match entry_value_exec(s, pos, c) {
                        None => return Err(error(ErrorKind::MissingValue)),
                        Some(v) => {
                            if is_lit_exec(v, "\"integer\"") {
                                ty = true;
                            } else {
                                return Err(error(ErrorKind::NotInteger));
                            }
                        },
                    }
                } else if is_lit_exec(k, "\"format\"") {
                    match entry_value_exec(s, pos, c) {
                        None => return Err(error(ErrorKind::MissingValue)),
                        Some(v) => {
                            let text = token_text_exec(v);
                            if str_eq(text.as_str(), "\"int64\"") {
                                format = Some("i64".to_owned());
                            } else if str_eq(text.as_str(), "\"int32\"") {
                                format = Some("i32".to_owned());
                            } else {
                                return Err(
                                    GenerateError { kind: ErrorKind::UnsupportedFormat, detail: text },
                                );
                            }
                        },
                    }
                }
            },
        }
        if c >= s.len() {
            if !ty {
                return Err(error(ErrorKind::MissingType));
            }
            return match format {
                None => Err(error(ErrorKind::MissingFormat)),
                Some(f) => Ok(ReadResult::Other(f)),
            };
        }
        pos = c + 1;
    }
}

/// Reading a boolean schema from its entry at `pos` on.
pub open spec fn boolean_scan(s: Seq<TokenTree>, pos: int, ty: bool) -> Result<ResultModel, ErrModel>
    decreases s.len() + 1 - pos,
{
    if pos < 0 || pos > s.len() {
        Err(fail(ErrorKind::MissingKey))
    } else {
        let c = next_sep(s, ',', pos);
        proof {
            lemma_next_sep_bounds(s, ',', pos);
        }
        let step: Result<bool, ErrModel> = match entry_key(s, pos, c) {
            None => Err(fail(ErrorKind::MissingKey)),
            Some(k) => if is_lit(k, "\"type\""@) {
                match entry_value(s, pos, c) {
                    None => Err(fail(ErrorKind::MissingValue)),
                    Some(v) => if is_lit(v, "\"boolean\""@) {
                        Ok(true)
                    } else {
                        Err(fail(ErrorKind::NotBoolean))
                    },
                }
            } else {
                Ok(ty)
            },
        };
        match step {
            Err(e) => Err(e),
            Ok(t2) => if c >= s.len() {
                if !t2 {
                    Err(fail(ErrorKind::MissingType))
                } else {
                    Ok(ResultModel::Other("bool"@))
                }
            } else {
                boolean_scan(s, c + 1, t2)
            },
        }
    }
}

/// A boolean schema: braces holding `"type": "boolean"`, read as `bool`.
pub open spec fn spec_read_boolean(t: TokenTree) -> Result<ResultModel, ErrModel> {
    match brace_stream(t) {
        None => Err(fail(ErrorKind::NotBrace)),
        Some(s) => boolean_scan(s, 0, false),
    }
}

fn read_boolean(input: &TokenTree) -> (r: Result<ReadResult, GenerateError>)
    ensures
        agrees(r, spec_read_boolean(*input)),
{
    let s = match brace_stream_exec(input) {
        Some(s) => s,
        None => return Err(error(ErrorKind::NotBrace)),
    };
    let mut pos: usize = 0;
    let mut ty = false;
    loop
        invariant
            pos <= s@.len(),
            brace_stream(*input) == Some(s@),
            boolean_scan(s@, pos as int, ty) == spec_read_boolean(*input),
        decreases s@.len() - pos,
    {
        let c = find_sep(s, ',', pos);
        match entry_key_exec(s, pos, c) {
            None => return Err(error(ErrorKind::MissingKey)),
            Some(k) => {
                if is_lit_exec(k, "\"type\"") {
                    match entry_value_exec(s, pos, c) {
                        None => return Err(error(ErrorKind::MissingValue)),
                        Some(v) => {
                            if is_lit_exec(v, "\"boolean\"") {
                                ty = true;
                            } else {
                                return Err(error(ErrorKind::NotBoolean));
                            }
                        },
                    }
                }
            },
        }
        if c >= s.len() {
            if !ty {
                return Err(error(ErrorKind::MissingType));
            }
            return Ok(ReadResult::Other("bool".to_owned()));
        }
        pos = c + 1;
    }
}

/// The comma-separated entries of `s` from `pos` on, each as the range from
/// its first token up to the comma, or the end, that closes it.
pub open spec fn entries_from(s: Seq<TokenTree>, pos: int) -> Seq<(int, int)>
    decreases s.len() + 1 - pos,
{
    if pos < 0 || pos > s.len() {
        Seq::empty()
    } else {
        let c = next_sep(s, ',', pos);
        proof {
            lemma_next_sep_bounds(s, ',', pos);
        }
        if c >= s.len() {
            seq![(pos, c)]
        } else {
            seq![(pos, c)] + entries_from(s, c + 1)
        }
    }
}

/// The entry `e` of `s` has the key `key`.
pub open spec fn has_key_named(s: Seq<TokenTree>, e: (int, int), key: Seq<char>) -> bool {
    entry_key(s, e.0, e.1) matches Some(k) && is_lit(k, key)
}

/// The entry `e` of `s` has the value `text`.
pub open spec fn has_value(s: Seq<TokenTree>, e: (int, int), text: Seq<char>) -> bool {
    entry_value(s, e.0, e.1) matches Some(v) && token_text(v) == text
}

/// The entry `e` of `s` has the literal `text` as its value.
pub open spec fn has_lit_value(s: Seq<TokenTree>, e: (int, int), text: Seq<char>) -> bool {
    entry_value(s, e.0, e.1) matches Some(v) && is_lit(v, text)
}

/// An entry of an integer schema that reads: it has a key, a `type` is
/// `"integer"` and a `format` is `"int64"` or `"int32"`.
pub open spec fn integer_entry_ok(s: Seq<TokenTree>, e: (int, int)) -> bool {
    &&& entry_key(s, e.0, e.1) is Some
    &&& has_key_named(s, e, "\"type\""@) ==> has_lit_value(s, e, "\"integer\""@)
    &&& has_key_named(s, e, "\"format\""@) ==> has_value(s, e, "\"int64\""@) || has_value(
        s,
        e,
        "\"int32\""@,
    )
}

/// The Rust type that the `format` entry `e` names.
pub open spec fn format_type(s: Seq<TokenTree>, e: (int, int)) -> Seq<char> {
    if has_value(s, e, "\"int64\""@) {
        "i64"@
    } else {
        "i32"@
    }
}

/// The type that the last `format` entry of `es` names, if there is one.
pub open spec fn last_format(s: Seq<TokenTree>, es: Seq<(int, int)>) -> Option<Seq<char>>
    decreases es.len(),
{
    if es.len() == 0 {
        None
    } else {
        match last_format(s, es.drop_first()) {
            Some(f) => Some(f),
            None => if has_key_named(s, es[0], "\"format\""@) {
                Some(format_type(s, es[0]))
            } else {
                None
            },
        }
    }
}

/// The entries `s` make an integer schema: each entry reads, and there is a
/// `type` entry and a `format` entry.
pub open spec fn integer_schema(s: Seq<TokenTree>) -> bool {
    let es = entries_from(s, 0);
    &&& forall|i: int| 0 <= i < es.len() ==> integer_entry_ok(s, #[trigger] es[i])
    &&& exists|i: int| 0 <= i < es.len() && has_key_named(s, #[trigger] es[i], "\"type\""@)
    &&& exists|i: int| 0 <= i < es.len() && has_key_named(s, #[trigger] es[i], "\"format\""@)
}

proof fn lemma_entries_from(s: Seq<TokenTree>, pos: int)
    requires
        0 <= pos <= s.len(),
    ensures
        entries_from(s, pos).len() >= 1,
        entries_from(s, pos)[0] == (pos, next_sep(s, ',', pos)),
        next_sep(s, ',', pos) >= s.len() ==> entries_from(s, pos).len() == 1,
        next_sep(s, ',', pos) < s.len() ==> entries_from(s, pos).drop_first() == entries_from(
            s,
            next_sep(s, ',', pos) + 1,
        ),
{
    lemma_next_sep_bounds(s, ',', pos);
    let c = next_sep(s, ',', pos);
    if c < s.len() {
        assert(entries_from(s, pos).drop_first() =~= entries_from(s, c + 1));
    }
}

proof fn lemma_last_format_exists(s: Seq<TokenTree>, es: Seq<(int, int)>)
    ensures
        last_format(s, es) is Some <==> exists|i: int|
            0 <= i < es.len() && has_key_named(s, #[trigger] es[i], "\"format\""@),
    decreases es.len(),
{
    if es.len() > 0 {
        let rest = es.drop_first();
        lemma_last_format_exists(s, rest);
        if last_format(s, rest) is Some {
            let i = choose|i: int| 0 <= i < rest.len() && has_key_named(s, #[trigger] rest[i], "\"format\""@);
            assert(es[i + 1] == rest[i]);
        }
        if exists|i: int| 0 <= i < es.len() && has_key_named(s, #[trigger] es[i], "\"format\""@) {
            let i = choose|i: int| 0 <= i < es.len() && has_key_named(s, #[trigger] es[i], "\"format\""@);
            if i > 0 {
                assert(rest[i - 1] == es[i]);
            }
        }
    }
}

proof fn lemma_integer_scan(s: Seq<TokenTree>, pos: int, ty: bool, fmt: Option<Seq<char>>)
    requires
        0 <= pos <= s.len(),
    ensures
        ({
            let es = entries_from(s, pos);
            &&& integer_scan(s, pos, ty, fmt) is Ok <==> {
                &&& forall|i: int| 0 <= i < es.len() ==> integer_entry_ok(s, #[trigger] es[i])
                &&& ty || exists|i: int|
                    0 <= i < es.len() && has_key_named(s, #[trigger] es[i], "\"type\""@)
                &&& fmt is Some || last_format(s, es) is Some
            }
            &&& integer_scan(s, pos, ty, fmt) is Ok ==> integer_scan(s, pos, ty, fmt) == Ok::<
                ResultModel,
                ErrModel,
            >(
                ResultModel::Other(
                    match last_format(s, es) {
                        Some(f) => f,
                        None => fmt->0,
                    },
                ),
            )
        }),
    decreases s.len() + 1 - pos,
{
    let es = entries_from(s, pos);
    let c = next_sep(s, ',', pos);
    reveal_strlit("\"type\"");
    reveal_strlit("\"format\"");
    assert("\"type\""@ != "\"format\""@) by {
        assert("\"type\""@.len() != "\"format\""@.len());
    }
    lemma_next_sep_bounds(s, ',', pos);
    lemma_entries_from(s, pos);
    let e0 = es[0];
    assert(e0 == (pos, c));
    let is_ty = has_key_named(s, e0, "\"type\""@);
    let t2 = ty || is_ty;
    let f2 = if has_key_named(s, e0, "\"format\""@) {
        Some(format_type(s, e0))
    } else {
        fmt
    };
    if !integer_entry_ok(s, e0) {
        assert(integer_scan(s, pos, ty, fmt) is Err);
        assert(!(forall|i: int| 0 <= i < es.len() ==> integer_entry_ok(s, #[trigger] es[i])));
    } else if c >= s.len() {
        assert(integer_scan(s, pos, ty, fmt) == (if !t2 {
            Err(fail(ErrorKind::MissingType))
        } else {
            match f2 {
                None => Err(fail(ErrorKind::MissingFormat)),
                Some(f) => Ok(ResultModel::Other(f)),
            }
        }));
    } else {
        assert(integer_scan(s, pos, ty, fmt) == integer_scan(s, c + 1, t2, f2));
    }
    if c < s.len() {
        let rest = entries_from(s, c + 1);
        lemma_integer_scan(s, c + 1, t2, f2);
        assert(rest == es.drop_first());
        assert forall|i: int| 0 <= i < rest.len() implies rest[i] == es[i + 1] by {}
        if (forall|i: int| 0 <= i < es.len() ==> integer_entry_ok(s, #[trigger] es[i])) {
            assert forall|i: int| 0 <= i < rest.len() implies integer_entry_ok(
                s,
                #[trigger] rest[i],
            ) by {
                assert(integer_entry_ok(s, es[i + 1]));
            }
        }
        if integer_entry_ok(s, e0) && (forall|i: int|
            0 <= i < rest.len() ==> integer_entry_ok(s, #[trigger] rest[i])) {
            assert forall|i: int| 0 <= i < es.len() implies integer_entry_ok(s, #[trigger] es[i]) by {
                if i > 0 {
                    assert(rest[i - 1] == es[i]);
                }
            }
        }
        if exists|i: int| 0 <= i < rest.len() && has_key_named(s, #[trigger] rest[i], "\"type\""@) {
            let i = choose|i: int| 0 <= i < rest.len() && has_key_named(s, #[trigger] rest[i], "\"type\""@);
            assert(has_key_named(s, es[i + 1], "\"type\""@));
        }
        if exists|i: int| 0 <= i < es.len() && has_key_named(s, #[trigger] es[i], "\"type\""@) {
            let i = choose|i: int| 0 <= i < es.len() && has_key_named(s, #[trigger] es[i], "\"type\""@);
            if i > 0 {
                assert(has_key_named(s, rest[i - 1], "\"type\""@));
            }
        }
        assert(es.drop_first() == rest);
    } else {
        assert(es.drop_first() =~= Seq::<(int, int)>::empty());
        assert(last_format(s, es.drop_first()) is None);
        if exists|i: int| 0 <= i < es.len() && has_key_named(s, #[trigger] es[i], "\"type\""@) {
            let i = choose|i: int| 0 <= i < es.len() && has_key_named(s, #[trigger] es[i], "\"type\""@);
            assert(i == 0);
        }
        if is_ty {
            assert(has_key_named(s, es[0], "\"type\""@));
        }
    }
}

/// An integer schema reads exactly when it is a braced list of entries
/// that each have a key, whose `type` entries all say `"integer"` and whose
/// `format` entries all name `"int64"` or `"int32"`, with at least one
/// entry of each; the last `format` entry decides the type.
pub proof fn law_read_integer_direct(t: TokenTree)
    ensures
        spec_read_integer(t) is Ok <==> (brace_stream(t) matches Some(s) && integer_schema(s)),
        match brace_stream(t) {
            Some(s) => integer_schema(s) ==> spec_read_integer(t) == Ok::<ResultModel, ErrModel>(
                ResultModel::Other(last_format(s, entries_from(s, 0))->0),
            ),
            None => true,
        },
{
    if let Some(s) = brace_stream(t) {
        lemma_integer_scan(s, 0, false, None);
        lemma_last_format_exists(s, entries_from(s, 0));
    }
}

/// An entry of a boolean schema that reads: it has a key, and a `type` is
/// `"boolean"`.
pub open spec fn boolean_entry_ok(s: Seq<TokenTree>, e: (int, int)) -> bool {
    &&& entry_key(s, e.0, e.1) is Some
    &&& has_key_named(s, e, "\"type\""@) ==> has_lit_value(s, e, "\"boolean\""@)
}

/// The entries `s` make a boolean schema: each entry reads, and there is a
/// `type` entry.
pub open spec fn boolean_schema(s: Seq<TokenTree>) -> bool {
    let es = entries_from(s, 0);
    &&& forall|i: int| 0 <= i < es.len() ==> boolean_entry_ok(s, #[trigger] es[i])
    &&& exists|i: int| 0 <= i < es.len() && has_key_named(s, #[trigger] es[i], "\"type\""@)
}

proof fn lemma_boolean_scan(s: Seq<TokenTree>, pos: int, ty: bool)
    requires
        0 <= pos <= s.len(),
    ensures
        ({
            let es = entries_from(s, pos);
            &&& boolean_scan(s, pos, ty) is Ok <==> {
                &&& forall|i: int| 0 <= i < es.len() ==> boolean_entry_ok(s, #[trigger] es[i])
                &&& ty || exists|i: int|
                    0 <= i < es.len() && has_key_named(s, #[trigger] es[i], "\"type\""@)
            }
            &&& boolean_scan(s, pos, ty) is Ok ==> boolean_scan(s, pos, ty) == Ok::<
                ResultModel,
                ErrModel,
            >(ResultModel::Other("bool"@))
        }),
    decreases s.len() + 1 - pos,
{
    let es = entries_from(s, pos);
    let c = next_sep(s, ',', pos);
    lemma_next_sep_bounds(s, ',', pos);
    lemma_entries_from(s, pos);
    let e0 = es[0];
    assert(e0 == (pos, c));
    let is_ty = has_key_named(s, e0, "\"type\""@);
    let t2 = ty || is_ty;
    if !boolean_entry_ok(s, e0) {
        assert(boolean_scan(s, pos, ty) is Err);
    } else if c >= s.len() {
        assert(boolean_scan(s, pos, ty) == (if !t2 {
            Err(fail(ErrorKind::MissingType))
        } else {
            Ok(ResultModel::Other("bool"@))
        }));
    } else {
        assert(boolean_scan(s, pos, ty) == boolean_scan(s, c + 1, t2));
    }
    if c < s.len() {
        let rest = entries_from(s, c + 1);
        lemma_boolean_scan(s, c + 1, t2);
        assert(rest == es.drop_first());
        assert forall|i: int| 0 <= i < rest.len() implies rest[i] == es[i + 1] by {}
        if (forall|i: int| 0 <= i < es.len() ==> boolean_entry_ok(s, #[trigger] es[i])) {
            assert forall|i: int| 0 <= i < rest.len() implies boolean_entry_ok(
                s,
                #[trigger] rest[i],
            ) by {
                assert(boolean_entry_ok(s, es[i + 1]));
            }
        }
        if boolean_entry_ok(s, e0) && (forall|i: int|
            0 <= i < rest.len() ==> boolean_entry_ok(s, #[trigger] rest[i])) {
            assert forall|i: int| 0 <= i < es.len() implies boolean_entry_ok(s, #[trigger] es[i]) by {
                if i > 0 {
                    assert(rest[i - 1] == es[i]);
                }
            }
        }
        if exists|i: int| 0 <= i < rest.len() && has_key_named(s, #[trigger] rest[i], "\"type\""@) {
            let i = choose|i: int| 0 <= i < rest.len() && has_key_named(s, #[trigger] rest[i], "\"type\""@);
            assert(has_key_named(s, es[i + 1], "\"type\""@));
        }
        if exists|i: int| 0 <= i < es.len() && has_key_named(s, #[trigger] es[i], "\"type\""@) {
            let i = choose|i: int| 0 <= i < es.len() && has_key_named(s, #[trigger] es[i], "\"type\""@);
            if i > 0 {
                assert(has_key_named(s, rest[i - 1], "\"type\""@));
            }
        }
    } else {
        if exists|i: int| 0 <= i < es.len() && has_key_named(s, #[trigger] es[i], "\"type\""@) {
            let i = choose|i: int| 0 <= i < es.len() && has_key_named(s, #[trigger] es[i], "\"type\""@);
            assert(i == 0);
        }
        if is_ty {
            assert(has_key_named(s, es[0], "\"type\""@));
        }
    }
}

/// A boolean schema reads, as `bool`, exactly when it is a braced list of
/// entries that each have a key, whose `type` entries all say
/// `"boolean"`, with at least one `type` entry.
pub proof fn law_read_boolean_direct(t: TokenTree)
    ensures
        spec_read_boolean(t) is Ok <==> (brace_stream(t) matches Some(s) && boolean_schema(s)),
        spec_read_boolean(t) is Ok ==> spec_read_boolean(t) == Ok::<ResultModel, ErrModel>(
            ResultModel::Other("bool"@),
        ),
{
    if let Some(s) = brace_stream(t) {
        lemma_boolean_scan(s, 0, false);
    }
}

/// The variant names of an `enum` entry: each literal of the bracketed
/// list, unquoted and capitalised, in order.
pub open spec fn enum_names(s: Seq<TokenTree>) -> Result<Seq<Seq<char>>, ErrModel>
    decreases s.len(),
{
    if s.len() == 0 {
        Ok(Seq::empty())
    } else {
        match enum_names(s.drop_last()) {
            Err(e) => Err(e),
            Ok(prev) => match s.last() {
                TokenTree::Literal(x) => match capitalize(unquote(x@)) {
                    Some(n) => Ok(prev.push(n)),
                    None => Err((ErrorKind::BadName, unquote(x@))),
                },
                _ => Ok(prev),
            },
        }
    }
}

/// The variant lines of an enum definition, one `\t<name>,` per line.
pub open spec fn enum_body(names: Seq<Seq<char>>) -> Seq<char>
    decreases names.len(),
{
    if names.len() == 0 {
        Seq::empty()
    } else if names.len() == 1 {
        "\t"@ + names[0] + ","@
    } else {
        enum_body(names.drop_last()) + "\n"@ + "\t"@ + names.last() + ","@
    }
}

/// The definition of the enum `n` with the variants `names`.
pub open spec fn enum_definition(n: Seq<char>, names: Seq<Seq<char>>) -> Seq<char> {
    "pub enum "@ + n + " {\n"@ + enum_body(names) + "\n}"@
}

/// Whether an enum named `n` is defined already.
pub open spec fn has_key(extra: ExtraModel, n: Seq<char>) -> bool {
    exists|i: int| 0 <= i < extra.len() && extra[i].0 == n
}

fn enum_names_exec(s: &Vec<TokenTree>) -> (r: Result<Vec<String>, GenerateError>)
    ensures
        match enum_names(s@) {
            Ok(names) => r matches Ok(v) && v@.map_values(|x: String| x@) == names,
            Err(e) => r matches Err(x) && err_model(x) == e,
        },
{
    let mut out: Vec<String> = Vec::new();
    let mut i: usize = 0;
    assert(s@.take(0) =~= Seq::<TokenTree>::empty());
    while i < s.len()
        invariant
            i <= s@.len(),
            enum_names(s@.take(i as int)) matches Ok(names) && out@.map_values(|x: String| x@)
                == names,
        decreases s@.len() - i,
    {
        assert(s@.take(i + 1).drop_last() =~= s@.take(i as int));
        assert(s@.take(i + 1).last() == s@[i as int]);
        match &s[i] {
            TokenTree::Literal(x) => {
                let n = unquote_exec(x.as_str());
                match capitalize_exec(n.as_str()) {
                    Some(c) => {
                        let ghost before = out@;
                        out.push(c);
                        assert(out@.map_values(|x: String| x@) =~= before.map_values(
                            |x: String| x@,
                        ).push(c@));
                    },
                    None => {
                        proof {
                            lemma_enum_names_err_stays(s@, i as int + 1);
                        }
                        return Err(GenerateError { kind: ErrorKind::BadName, detail: n });
                    },
                }
            },
            _ => {},
        }
        i = i + 1;
    }
    assert(s@.take(s@.len() as int) =~= s@);
    Ok(out)
}

/// Once reading the variant names fails on a prefix, it fails the same way
/// on the whole list.
pub proof fn lemma_enum_names_err_stays(s: Seq<TokenTree>, k: int)
    requires
        0 <= k <= s.len(),
        enum_names(s.take(k)) is Err,
    ensures
        enum_names(s) == enum_names(s.take(k)),
    decreases s.len() - k,
{
    if k < s.len() {
        assert(s.take(k + 1).drop_last() =~= s.take(k));
        lemma_enum_names_err_stays(s, k + 1);
    } else {
        assert(s.take(k) =~= s);
    }
}

fn enum_definition_exec(n: &str, names: &Vec<String>) -> (r: String)
    ensures
        r@ == enum_definition(n@, names@.map_values(|x: String| x@)),
{
    let ghost ns = names@.map_values(|x: String| x@);
    let mut body = String::new();
    let mut i: usize = 0;
    assert(ns.take(0) =~= Seq::<Seq<char>>::empty());
    while i < names.len()
        invariant
            i <= names@.len(),
            ns == names@.map_values(|x: String| x@),
            body@ == enum_body(ns.take(i as int)),
        decreases names@.len() - i,
    {
        assert(ns.take(i + 1).drop_last() =~= ns.take(i as int));
        assert(ns.take(i + 1).last() == names@[i as int]@);
        if i > 0 {
            body.append("\n");
        }
        body.append("\t");
        body.append(names[i].as_str());
        body.append(",");
        proof {
            if i == 0 {
                assert(ns.take(1)[0] == names@[0]@);
                assert(body@ =~= "\t"@ + ns.take(1)[0] + ","@);
            } else {
                assert(body@ =~= enum_body(ns.take(i as int)) + "\n"@ + "\t"@ + ns.take(
                    i + 1,
                ).last() + ","@);
            }
        }
        i = i + 1;
    }
    assert(ns.take(names@.len() as int) =~= ns);
    let mut r = "pub enum ".to_owned();
    r.append(n);
    r.append(" {\n");
    r.append(body.as_str());
    r.append("\n}");
    assert(r@ =~= enum_definition(n@, ns));
    r
}

fn has_key_exec(extra: &Vec<(String, String)>, n: &str) -> (r: bool)
    ensures
        r == has_key(extra_model(extra@), n@),
{
    let mut i: usize = 0;
    while i < extra.len()
        invariant
            i <= extra@.len(),
            forall|j: int| 0 <= j < i ==> extra@[j].0@ != n@,
        decreases extra@.len() - i,
    {
        if str_eq(extra[i].0.as_str(), n) {
            assert(extra_model(extra@)[i as int].0 == n@);
            return true;
        }
        i = i + 1;
    }
    assert forall|j: int| 0 <= j < extra_model(extra@).len() implies extra_model(extra@)[j].0
        != n@ by {
        assert(extra_model(extra@)[j].0 == extra@[j].0@);
    }
    false
}

/// The bracketed list of an `enum` entry, when the token is one.
pub open spec fn bracket_stream(t: TokenTree) -> Option<Seq<TokenTree>> {
    match t {
        TokenTree::Group(g) => if g.delimiter == Delimiter::Bracket {
            Some(g.stream@)
        } else {
            None
        },
        _ => None,
    }
}

fn bracket_stream_exec(t: &TokenTree) -> (r: Option<&Vec<TokenTree>>)
    ensures
        match bracket_stream(*t) {
            Some(s) => r matches Some(x) && x@ == s,
            None => r is None,
        },
{
    match t {
        TokenTree::Group(g) => match g.delimiter {
            Delimiter::Bracket => Some(&g.stream),
            _ => None,
        },
        _ => None,
    }
}

/// The outcome of an `enum` entry for the property `name`: the enum type's
/// name, and the enums defined once it is defined (where it is not yet).
pub open spec fn enum_entry(name: Seq<char>, v: TokenTree, extra: ExtraModel) -> Result<
    (Seq<char>, ExtraModel),
    ErrModel,
> {
    match bracket_stream(v) {
        None => Err(fail(ErrorKind::NotBracket)),
        Some(list) => match enum_names(list) {
            Err(e) => Err(e),
            Ok(names) => {
                let n = name + "Enum"@;
                if has_key(extra, n) {
                    Ok((n, extra))
                } else {
                    Ok((n, extra.push((n, enum_definition(n, names)))))
                }
            },
        },
    }
}

/// Reading a string schema for the property `name` from its entry at `pos`
/// on, having seen a `type` entry (`ty`), the type `fmt` so far and the
/// enums `extra` defined so far.
pub open spec fn string_scan(
    s: Seq<TokenTree>,
    pos: int,
    name: Seq<char>,
    ty: bool,
    fmt: Option<Seq<char>>,
    extra: ExtraModel,
) -> Result<(ResultModel, ExtraModel), ErrModel>
    decreases s.len() + 1 - pos,
{
    if pos < 0 || pos > s.len() {
        Err(fail(ErrorKind::MissingKey))
    } else {
        let c = next_sep(s, ',', pos);
        proof {
            lemma_next_sep_bounds(s, ',', pos);
        }
        let step: Result<(bool, Option<Seq<char>>, ExtraModel), ErrModel> = match entry_key(
            s,
            pos,
            c,
        ) {
            None => Err(fail(ErrorKind::MissingKey)),
            Some(k) => if is_lit(k, "\"type\""@) {
                match entry_value(s, pos, c) {
                    None => Err(fail(ErrorKind::MissingValue)),
                    Some(v) => if is_lit(v, "\"string\""@) {
                        Ok((true, fmt, extra))
                    } else {
                        Err(fail(ErrorKind::NotString))
                    },
                }
            } else if is_lit(k, "\"format\""@) {
                match entry_value(s, pos, c) {
                    None => Err(fail(ErrorKind::MissingValue)),
                    Some(v) => if token_text(v) == "\"date-time\""@ {
                        Ok((ty, Some("String"@), extra))
                    } else {
                        Err((ErrorKind::UnsupportedFormat, token_text(v)))
                    },
                }
            } else if is_lit(k, "\"enum\""@) {
                match entry_value(s, pos, c) {
                    None => Err(fail(ErrorKind::MissingValue)),
                    Some(v) => match enum_entry(name, v, extra) {
                        Err(e) => Err(e),
                        Ok((n, e2)) => Ok((ty, Some(n), e2)),
                    },
                }
            } else {
                Ok((ty, fmt, extra))
            },
        };
        match step {
            Err(e) => Err(e),
            Ok((t2, f2, e2)) => if c >= s.len() {
                if !t2 {
                    Err(fail(ErrorKind::MissingType))
                } else {
                    match f2 {
                        None => Err(fail(ErrorKind::MissingFormat)),
                        Some(f) => Ok((ResultModel::Other(f), e2)),
                    }
                }
            } else {
                string_scan(s, c + 1, name, t2, f2, e2)
            },
        }
    }
}

/// A string schema for the property `name`: braces holding
/// `"type": "string"` and either a `format` of `"date-time"`, read as
/// `String`, or an `enum` list, read as the enum `<name>Enum`, which is
/// defined with the list's values as variants unless it is already.
pub open spec fn spec_read_string(name: Seq<char>, t: TokenTree, extra: ExtraModel) -> Result<
    (ResultModel, ExtraModel),
    ErrModel,
> {
    match brace_stream(t) {
        None => Err(fail(ErrorKind::NotBrace)),
        Some(s) => string_scan(s, 0, name, false, None, extra),
    }
}

/// The variant names that the `enum` entry `e` lists, where it lists them.
pub open spec fn listed_names(s: Seq<TokenTree>, e: (int, int)) -> Option<Seq<Seq<char>>> {
    match entry_value(s, e.0, e.1) {
        Some(v) => match bracket_stream(v) {
            Some(list) => match enum_names(list) {
                Ok(names) => Some(names),
                Err(_) => None,
            },
            None => None,
        },
        None => None,
    }
}

/// An entry of a string schema that reads: it has a key, a `type` is
/// `"string"`, a `format` is `"date-time"` and an `enum` is a bracketed
/// list of names.
pub open spec fn string_entry_ok(s: Seq<TokenTree>, e: (int, int)) -> bool {
    &&& entry_key(s, e.0, e.1) is Some
    &&& has_key_named(s, e, "\"type\""@) ==> has_lit_value(s, e, "\"string\""@)
    &&& has_key_named(s, e, "\"format\""@) ==> has_value(s, e, "\"date-time\""@)
    &&& has_key_named(s, e, "\"enum\""@) ==> listed_names(s, e) is Some
}

/// The type that the last `format` or `enum` entry of `es` gives the
/// property `name`: `String` for a format, `<name>Enum` for an enum.
pub open spec fn last_string_type(s: Seq<TokenTree>, name: Seq<char>, es: Seq<(int, int)>) -> Option<
    Seq<char>,
>
    decreases es.len(),
{
    if es.len() == 0 {
        None
    } else {
        match last_string_type(s, name, es.drop_first()) {
            Some(f) => Some(f),
            None => if has_key_named(s, es[0], "\"format\""@) {
                Some("String"@)
            } else if has_key_named(s, es[0], "\"enum\""@) {
                Some(name + "Enum"@)
            } else {
                None
            },
        }
    }
}

/// The names listed by the first `enum` entry of `es`, if there is one.
pub open spec fn first_enum_names(s: Seq<TokenTree>, es: Seq<(int, int)>) -> Option<
    Seq<Seq<char>>,
>
    decreases es.len(),
{
    if es.len() == 0 {
        None
    } else if has_key_named(s, es[0], "\"enum\""@) {
        listed_names(s, es[0])
    } else {
        first_enum_names(s, es.drop_first())
    }
}

/// The enums defined once the enum `n` with the variants `names` is
/// defined, where there are names and `n` is not defined yet.
pub open spec fn with_enum(extra: ExtraModel, n: Seq<char>, names: Option<Seq<Seq<char>>>) -> ExtraModel {
    match names {
        Some(ns) => if has_key(extra, n) {
            extra
        } else {
            extra.push((n, enum_definition(n, ns)))
        },
        None => extra,
    }
}

/// The entries `s` make a string schema: each entry reads, and there is a
/// `type` entry and a `format` or `enum` entry.
pub open spec fn string_schema(s: Seq<TokenTree>) -> bool {
    let es = entries_from(s, 0);
    &&& forall|i: int| 0 <= i < es.len() ==> string_entry_ok(s, #[trigger] es[i])
    &&& exists|i: int| 0 <= i < es.len() && has_key_named(s, #[trigger] es[i], "\"type\""@)
    &&& exists|i: int|
        0 <= i < es.len() && (has_key_named(s, #[trigger] es[i], "\"format\""@) || has_key_named(
            s,
            es[i],
            "\"enum\""@,
        ))
}

proof fn lemma_last_string_type_exists(s: Seq<TokenTree>, name: Seq<char>, es: Seq<(int, int)>)
    ensures
        last_string_type(s, name, es) is Some <==> exists|i: int|
            0 <= i < es.len() && (has_key_named(s, #[trigger] es[i], "\"format\""@)
                || has_key_named(s, es[i], "\"enum\""@)),
    decreases es.len(),
{
    if es.len() > 0 {
        let rest = es.drop_first();
        lemma_last_string_type_exists(s, name, rest);
        if last_string_type(s, name, rest) is Some {
            let i = choose|i: int|
                0 <= i < rest.len() && (has_key_named(s, #[trigger] rest[i], "\"format\""@)
                    || has_key_named(s, rest[i], "\"enum\""@));
            assert(es[i + 1] == rest[i]);
        }
        if exists|i: int|
            0 <= i < es.len() && (has_key_named(s, #[trigger] es[i], "\"format\""@)
                || has_key_named(s, es[i], "\"enum\""@)) {
            let i = choose|i: int|
                0 <= i < es.len() && (has_key_named(s, #[trigger] es[i], "\"format\""@)
                    || has_key_named(s, es[i], "\"enum\""@));
            if i > 0 {
                assert(rest[i - 1] == es[i]);
            }
        }
    }
}

proof fn lemma_string_scan(
    s: Seq<TokenTree>,
    pos: int,
    name: Seq<char>,
    ty: bool,
    fmt: Option<Seq<char>>,
    extra: ExtraModel,
)
    requires
        0 <= pos <= s.len(),
    ensures
        ({
            let es = entries_from(s, pos);
            &&& string_scan(s, pos, name, ty, fmt, extra) is Ok <==> {
                &&& forall|i: int| 0 <= i < es.len() ==> string_entry_ok(s, #[trigger] es[i])
                &&& ty || exists|i: int|
                    0 <= i < es.len() && has_key_named(s, #[trigger] es[i], "\"type\""@)
                &&& fmt is Some || last_string_type(s, name, es) is Some
            }
            &&& string_scan(s, pos, name, ty, fmt, extra) is Ok ==> string_scan(
                s,
                pos,
                name,
                ty,
                fmt,
                extra,
            ) == Ok::<(ResultModel, ExtraModel), ErrModel>(
                (
                    ResultModel::Other(
                        match last_string_type(s, name, es) {
                            Some(f) => f,
                            None => fmt->0,
                        },
                    ),
                    with_enum(extra, name + "Enum"@, first_enum_names(s, es)),
                ),
            )
        }),
    decreases s.len() + 1 - pos,
{
    let es = entries_from(s, pos);
    let c = next_sep(s, ',', pos);
    let n = name + "Enum"@;
    reveal_strlit("\"type\"");
    reveal_strlit("\"format\"");
    reveal_strlit("\"enum\"");
    assert("\"type\""@ != "\"format\""@) by {
        assert("\"type\""@.len() != "\"format\""@.len());
    }
    assert("\"enum\""@ != "\"format\""@) by {
        assert("\"enum\""@.len() != "\"format\""@.len());
    }
    assert("\"type\""@ != "\"enum\""@) by {
        assert("\"type\""@[1] != "\"enum\""@[1]);
    }
    lemma_next_sep_bounds(s, ',', pos);
    lemma_entries_from(s, pos);
    let e0 = es[0];
    assert(e0 == (pos, c));
    let t2 = ty || has_key_named(s, e0, "\"type\""@);
    let f2 = if has_key_named(s, e0, "\"format\""@) {
        Some("String"@)
    } else if has_key_named(s, e0, "\"enum\""@) {
        Some(n)
    } else {
        fmt
    };
    let x2 = if has_key_named(s, e0, "\"enum\""@) {
        with_enum(extra, n, listed_names(s, e0))
    } else {
        extra
    };
    if !string_entry_ok(s, e0) {
        assert(string_scan(s, pos, name, ty, fmt, extra) is Err);
    } else if c >= s.len() {
        assert(string_scan(s, pos, name, ty, fmt, extra) == (if !t2 {
            Err(fail(ErrorKind::MissingType))
        } else {
            match f2 {
                None => Err(fail(ErrorKind::MissingFormat)),
                Some(f) => Ok((ResultModel::Other(f), x2)),
            }
        }));
    } else {
        assert(string_scan(s, pos, name, ty, fmt, extra) == string_scan(s, c + 1, name, t2, f2, x2));
    }
    if has_key_named(s, e0, "\"enum\""@) && listed_names(s, e0) is Some {
        let ns = listed_names(s, e0)->0;
        if !has_key(extra, n) {
            assert(x2[extra.len() as int].0 == n);
        }
        assert(has_key(x2, n));
        assert(forall|o: Option<Seq<Seq<char>>>| with_enum(x2, n, o) == x2);
    }
    if c < s.len() {
        let rest = entries_from(s, c + 1);
        lemma_string_scan(s, c + 1, name, t2, f2, x2);
        assert(rest == es.drop_first());
        assert forall|i: int| 0 <= i < rest.len() implies rest[i] == es[i + 1] by {}
        if (forall|i: int| 0 <= i < es.len() ==> string_entry_ok(s, #[trigger] es[i])) {
            assert forall|i: int| 0 <= i < rest.len() implies string_entry_ok(
                s,
                #[trigger] rest[i],
            ) by {
                assert(string_entry_ok(s, es[i + 1]));
            }
        }
        if string_entry_ok(s, e0) && (forall|i: int|
            0 <= i < rest.len() ==> string_entry_ok(s, #[trigger] rest[i])) {
            assert forall|i: int| 0 <= i < es.len() implies string_entry_ok(s, #[trigger] es[i]) by {
                if i > 0 {
                    assert(rest[i - 1] == es[i]);
                }
            }
        }
        if exists|i: int| 0 <= i < rest.len() && has_key_named(s, #[trigger] rest[i], "\"type\""@) {
            let i = choose|i: int| 0 <= i < rest.len() && has_key_named(s, #[trigger] rest[i], "\"type\""@);
            assert(has_key_named(s, es[i + 1], "\"type\""@));
        }
        if exists|i: int| 0 <= i < es.len() && has_key_named(s, #[trigger] es[i], "\"type\""@) {
            let i = choose|i: int| 0 <= i < es.len() && has_key_named(s, #[trigger] es[i], "\"type\""@);
            if i > 0 {
                assert(has_key_named(s, rest[i - 1], "\"type\""@));
            }
        }
    } else {
        assert(es.drop_first() =~= Seq::<(int, int)>::empty());
        assert(last_string_type(s, name, es.drop_first()) is None);
        assert(first_enum_names(s, es.drop_first()) is None);
        if exists|i: int| 0 <= i < es.len() && has_key_named(s, #[trigger] es[i], "\"type\""@) {
            let i = choose|i: int| 0 <= i < es.len() && has_key_named(s, #[trigger] es[i], "\"type\""@);
            assert(i == 0);
        }
        if has_key_named(s, e0, "\"type\""@) {
            assert(has_key_named(s, es[0], "\"type\""@));
        }
    }
}

/// A string schema for the property `name` reads exactly when it is a
/// braced list of entries that each have a key, whose `type` entries all
/// say `"string"`, whose `format` entries all say `"date-time"` and whose
/// `enum` entries all list names, with a `type` entry and a `format` or
/// `enum` entry. The last `format` or `enum` entry decides the type; the
/// first `enum` entry's names define `<name>Enum`, unless it is defined.
pub proof fn law_read_string_direct(name: Seq<char>, t: TokenTree, extra: ExtraModel)
    ensures
        spec_read_string(name, t, extra) is Ok <==> (brace_stream(t) matches Some(s)
            && string_schema(s)),
        match brace_stream(t) {
            Some(s) => string_schema(s) ==> spec_read_string(name, t, extra) == Ok::<
                (ResultModel, ExtraModel),
                ErrModel,
            >(
                (
                    ResultModel::Other(last_string_type(s, name, entries_from(s, 0))->0),
                    with_enum(extra, name + "Enum"@, first_enum_names(s, entries_from(s, 0))),
                ),
            ),
            None => true,
        },
{
    if let Some(s) = brace_stream(t) {
        lemma_string_scan(s, 0, name, false, None, extra);
        lemma_last_string_type_exists(s, name, entries_from(s, 0));
    }
}

/// An exec result, with the enums defined, agrees with its model.
pub open spec fn agrees_extra(
    r: Result<ReadResult, GenerateError>,
    extra: Seq<(String, String)>,
    m: Result<(ResultModel, ExtraModel), ErrModel>,
) -> bool {
    match m {
        Ok((v, e)) => r matches Ok(x) && result_model(x) == v && extra_model(extra) == e,
        Err(e) => r matches Err(x) && err_model(x) == e,
    }
}

fn read_string(name: &str, input: &TokenTree, extra: &mut Vec<(String, String)>) -> (r: Result<
    ReadResult,
    GenerateError,
>)
    ensures
        agrees_extra(r, final(extra)@, spec_read_string(name@, *input, extra_model(old(extra)@))),
{
    let ghost start = extra_model(extra@);
    let s = match brace_stream_exec(input) {
        Some(s) => s,
        None => return Err(error(ErrorKind::NotBrace)),
    };
    let mut pos: usize = 0;
    let mut ty = false;
    let mut format: Option<String> = None;
    loop
        invariant
            pos <= s@.len(),
            brace_stream(*input) == Some(s@),
            start == extra_model(old(extra)@),
            string_scan(s@, pos as int, name@, ty, opt_view(format), extra_model(extra@))
                == spec_read_string(name@, *input, start),
        decreases s@.len() - pos,
    {
        let c = find_sep(s, ',', pos);
        match entry_key_exec(s, pos, c) {
            None => return Err(error(ErrorKind::MissingKey)),
            Some(k) => {
                if is_lit_exec(k, "\"type\"") {
                    match entry_value_exec(s, pos, c) {
                        None => return Err(error(ErrorKind::MissingValue)),
                        Some(v) => {
                            if is_lit_exec(v, "\"string\"") {
                                ty = true;
                            } else {
                                return Err(error(ErrorKind::NotString));
                            }
                        },
                    }
                } else if is_lit_exec(k, "\"format\"") {
                    match entry_value_exec(s, pos, c) {
                        None => return Err(error(ErrorKind::MissingValue)),
                        Some(v) => {
                            let text = token_text_exec(v);
                            if str_eq(text.as_str(), "\"date-time\"") {
                                format = Some("String".to_owned());
                            } else {
                                return Err(
                                    GenerateError { kind: ErrorKind::UnsupportedFormat, detail: text },
                                );
                            }
                        },
                    }
                } else if is_lit_exec(k, "\"enum\"") {
                    match entry_value_exec(s, pos, c) {
                        None => return Err(error(ErrorKind::MissingValue)),
                        Some(v) => {
                            let list = match bracket_stream_exec(v) {
                                Some(list) => list,
                                None => return Err(error(ErrorKind::NotBracket)),
                            };
                            let names = match enum_names_exec(list) {
                                Ok(names) => names,
                                Err(e) => return Err(e),
                            };
                            let mut n = name.to_owned();
                            n.append("Enum");
                            if !has_key_exec(extra, n.as_str()) {
                                let de = enum_definition_exec(n.as_str(), &names);
                                let ghost before = extra@;
                                extra.push((n.clone(), de));
                                assert(extra_model(extra@) =~= extra_model(before).push(
                                    (n@, enum_definition(n@, names@.map_values(|x: String| x@))),
                                ));
                            }
                            format = Some(n);
                        },
                    }
                }
            },
        }
        if c >= s.len() {
            if !ty {
                return Err(error(ErrorKind::MissingType));
            }
            return match format {
                None => Err(error(ErrorKind::MissingFormat)),
                Some(f) => Ok(ReadResult::Other(f)),
            };
        }
        pos = c + 1;
    }
}

/// A token of a group's stream is smaller than the group.
pub proof fn lemma_stream_smaller(t: TokenTree, i: int)
    requires
        brace_stream(t) is Some,
        0 <= i < brace_stream(t)->0.len(),
    ensures
        decreases_to!(t => brace_stream(t)->0[i]),
{
    match t {
        TokenTree::Group(g) => {
            assert(decreases_to!(t => g));
            assert(decreases_to!(g => g.stream));
            assert(decreases_to!(g.stream => g.stream@));
            assert(decreases_to!(g.stream@ => g.stream@[i]));
        },
        _ => {},
    }
}

/// The value of an entry is a token of the stream.
pub proof fn lemma_entry_value_in(s: Seq<TokenTree>, lo: int, hi: int)
    requires
        0 <= lo <= hi <= s.len(),
        entry_value(s, lo, hi) is Some,
    ensures
        0 <= next_sep(s, ':', lo) + 1 < s.len(),
        entry_value(s, lo, hi)->0 == s[next_sep(s, ':', lo) + 1],
{
    lemma_next_sep_bounds(s, ':', lo);
}

/// Looks up `key` in the entries of a schema from `pos` on: the unquoted
/// value of the first entry with that key, if any.
pub open spec fn lookup(s: Seq<TokenTree>, pos: int, key: Seq<char>) -> Result<Option<Seq<char>>, ErrModel>
    decreases s.len() + 1 - pos,
{
    if pos < 0 || pos > s.len() {
        Err(fail(ErrorKind::MissingKey))
    } else {
        let c = next_sep(s, ',', pos);
        proof {
            lemma_next_sep_bounds(s, ',', pos);
        }
        match entry_key(s, pos, c) {
            None => Err(fail(ErrorKind::MissingKey)),
            Some(k) => if is_lit(k, key) {
                match entry_value(s, pos, c) {
                    None => Err(fail(ErrorKind::MissingValue)),
                    Some(v) => Ok(Some(unquote(token_text(v)))),
                }
            } else if c >= s.len() {
                Ok(None)
            } else {
                lookup(s, c + 1, key)
            },
        }
    }
}

/// Every entry of `es` before index `j` has a key other than `key`.
pub open spec fn keyed_before(s: Seq<TokenTree>, es: Seq<(int, int)>, j: int, key: Seq<char>) -> bool {
    forall|i: int|
        0 <= i < j ==> entry_key(s, (#[trigger] es[i]).0, es[i].1) is Some && !has_key_named(
            s,
            es[i],
            key,
        )
}

proof fn lemma_lookup(s: Seq<TokenTree>, pos: int, key: Seq<char>)
    requires
        0 <= pos <= s.len(),
    ensures
        ({
            let es = entries_from(s, pos);
            &&& keyed_before(s, es, es.len() as int, key) ==> lookup(s, pos, key) == Ok::<
                Option<Seq<char>>,
                ErrModel,
            >(None)
            &&& forall|j: int|
                0 <= j < es.len() && keyed_before(s, es, j, key) && has_key_named(
                    s,
                    #[trigger] es[j],
                    key,
                ) ==> lookup(s, pos, key) == match entry_value(s, es[j].0, es[j].1) {
                    Some(v) => Ok::<Option<Seq<char>>, ErrModel>(Some(unquote(token_text(v)))),
                    None => Err(fail(ErrorKind::MissingValue)),
                }
            &&& forall|j: int|
                0 <= j < es.len() && keyed_before(s, es, j, key) && entry_key(
                    s,
                    (#[trigger] es[j]).0,
                    es[j].1,
                ) is None ==> lookup(s, pos, key) == Err::<Option<Seq<char>>, ErrModel>(
                    fail(ErrorKind::MissingKey),
                )
        }),
    decreases s.len() + 1 - pos,
{
    let es = entries_from(s, pos);
    let c = next_sep(s, ',', pos);
    lemma_next_sep_bounds(s, ',', pos);
    lemma_entries_from(s, pos);
    assert(es[0] == (pos, c));
    if c < s.len() {
        let rest = entries_from(s, c + 1);
        lemma_lookup(s, c + 1, key);
        assert forall|i: int| 0 <= i < rest.len() implies rest[i] == es[i + 1] by {}
        if keyed_before(s, es, es.len() as int, key) {
            assert(entry_key(s, es[0].0, es[0].1) is Some && !has_key_named(s, es[0], key));
            assert(keyed_before(s, rest, rest.len() as int, key)) by {
                assert forall|i: int| 0 <= i < rest.len() implies entry_key(
                    s,
                    (#[trigger] rest[i]).0,
                    rest[i].1,
                ) is Some && !has_key_named(s, rest[i], key) by {
                    assert(es[i + 1] == rest[i]);
                }
            }
        }
        assert forall|j: int|
            0 <= j < es.len() && keyed_before(s, es, j, key) && (has_key_named(
                s,
                #[trigger] es[j],
                key,
            ) || entry_key(s, es[j].0, es[j].1) is None) implies lookup(s, pos, key) == (
        if has_key_named(s, es[j], key) {
            match entry_value(s, es[j].0, es[j].1) {
                Some(v) => Ok::<Option<Seq<char>>, ErrModel>(Some(unquote(token_text(v)))),
                None => Err(fail(ErrorKind::MissingValue)),
            }
        } else {
            Err(fail(ErrorKind::MissingKey))
        }) by {
            if j > 0 {
                assert(entry_key(s, es[0].0, es[0].1) is Some && !has_key_named(s, es[0], key));
                assert(rest[j - 1] == es[j]);
                assert(keyed_before(s, rest, j - 1, key)) by {
                    assert forall|i: int| 0 <= i < j - 1 implies entry_key(
                        s,
                        (#[trigger] rest[i]).0,
                        rest[i].1,
                    ) is Some && !has_key_named(s, rest[i], key) by {
                        assert(es[i + 1] == rest[i]);
                    }
                }
                if has_key_named(s, rest[j - 1], key) {
                } else {
                    assert(entry_key(s, rest[j - 1].0, rest[j - 1].1) is None);
                }
            }
        }
    } else {
        assert(es.len() == 1);
        if keyed_before(s, es, 1, key) {
            assert(entry_key(s, es[0].0, es[0].1) is Some && !has_key_named(s, es[0], key));
        }
    }
}

/// Looking up `key` in the entries `s` finds the first entry keyed `key`:
/// where every entry before it has a key, it gives that entry's value
/// unquoted, or fails where the entry has no value. Where an entry without
/// a key comes first it fails, and where every entry has a key and none is
/// `key` it finds nothing.
pub proof fn law_lookup_direct(s: Seq<TokenTree>, key: Seq<char>)
    ensures
        ({
            let es = entries_from(s, 0);
            &&& keyed_before(s, es, es.len() as int, key) ==> lookup(s, 0, key) == Ok::<
                Option<Seq<char>>,
                ErrModel,
            >(None)
            &&& forall|j: int|
                0 <= j < es.len() && keyed_before(s, es, j, key) && has_key_named(
                    s,
                    #[trigger] es[j],
                    key,
                ) ==> lookup(s, 0, key) == match entry_value(s, es[j].0, es[j].1) {
                    Some(v) => Ok::<Option<Seq<char>>, ErrModel>(Some(unquote(token_text(v)))),
                    None => Err(fail(ErrorKind::MissingValue)),
                }
            &&& forall|j: int|
                0 <= j < es.len() && keyed_before(s, es, j, key) && entry_key(
                    s,
                    (#[trigger] es[j]).0,
                    es[j].1,
                ) is None ==> lookup(s, 0, key) == Err::<Option<Seq<char>>, ErrModel>(
                    fail(ErrorKind::MissingKey),
                )
        }),
{
    lemma_lookup(s, 0, key);
}

/// Reads a schema for the property `name` by its `type`: an object, an
/// integer, a string or a boolean.
pub open spec fn spec_read_type(name: Seq<char>, t: TokenTree, extra: ExtraModel) -> Result<
    (ResultModel, ExtraModel),
    ErrModel,
>
    decreases t, 3nat, 0nat,
{
    match brace_stream(t) {
        None => Err(fail(ErrorKind::NotBrace)),
        Some(s) => match lookup(s, 0, "\"type\""@) {
            Err(e) => Err(e),
            Ok(None) => Err(fail(ErrorKind::MissingType)),
            Ok(Some(ty)) => if ty == "object"@ {
                spec_read_object(t, extra)
            } else if ty == "integer"@ {
                match spec_read_integer(t) {
                    Ok(m) => Ok((m, extra)),
                    Err(e) => Err(e),
                }
            } else if ty == "string"@ {
                spec_read_string(name, t, extra)
            } else if ty == "boolean"@ {
                match spec_read_boolean(t) {
                    Ok(m) => Ok((m, extra)),
                    Err(e) => Err(e),
                }
            } else {
                Err((ErrorKind::UnsupportedType, ty))
            },
        },
    }
}

/// An object schema: braces holding `"type": "object"` and, optionally, the
/// `properties` (the last such entry counts).
pub open spec fn spec_read_object(t: TokenTree, extra: ExtraModel) -> Result<
    (ResultModel, ExtraModel),
    ErrModel,
>
    decreases t, 2nat, 0nat,
{
    match brace_stream(t) {
        None => Err(fail(ErrorKind::NotBrace)),
        Some(s) => object_scan(t, 0, false, Seq::empty(), extra),
    }
}

/// Reading the object schema `t` from its entry at `pos` on, having seen a
/// `type` entry (`ty`), the properties `props` so far and the enums `extra`.
pub open spec fn object_scan(
    t: TokenTree,
    pos: int,
    ty: bool,
    props: Seq<FieldModel>,
    extra: ExtraModel,
) -> Result<(ResultModel, ExtraModel), ErrModel>
    decreases t, 1nat, brace_stream(t)->0.len() + 1 - pos,
{
    match brace_stream(t) {
        None => Err(fail(ErrorKind::NotBrace)),
        Some(s) => if pos < 0 || pos > s.len() {
            Err(fail(ErrorKind::MissingKey))
        } else {
            let c = next_sep(s, ',', pos);
            proof {
                lemma_next_sep_bounds(s, ',', pos);
            }
            let step: Result<(bool, Seq<FieldModel>, ExtraModel), ErrModel> = match entry_key(
                s,
                pos,
                c,
            ) {
                None => Err(fail(ErrorKind::MissingKey)),
                Some(k) => if is_lit(k, "\"type\""@) {
                    match entry_value(s, pos, c) {
                        None => Err(fail(ErrorKind::MissingValue)),
                        Some(v) => if is_lit(v, "\"object\""@) {
                            Ok((true, props, extra))
                        } else {
                            Err(fail(ErrorKind::NotObjectType))
                        },
                    }
                } else if is_lit(k, "\"properties\""@) {
                    match entry_value(s, pos, c) {
                        None => Err(fail(ErrorKind::MissingValue)),
                        Some(v) => match {
                            proof {
                                lemma_entry_value_in(s, pos, c);
                                lemma_stream_smaller(t, next_sep(s, ':', pos) + 1);
                            }
                            spec_read_props(v, extra)
                        } {
                            Err(e) => Err(e),
                            Ok((fields, e2)) => Ok((ty, fields, e2)),
                        },
                    }
                } else {
                    Ok((ty, props, extra))
                },
            };
            match step {
                Err(e) => Err(e),
                Ok((t2, p2, e2)) => if c >= s.len() {
                    if !t2 {
                        Err(fail(ErrorKind::MissingType))
                    } else {
                        Ok((ResultModel::Object(p2), e2))
                    }
                } else {
                    object_scan(t, c + 1, t2, p2, e2)
                },
            }
        },
    }
}

/// The `properties` of an object schema: braces holding `"name": schema`
/// entries; each name is unquoted, and its schema read for the capitalised
/// name.
pub open spec fn spec_read_props(t: TokenTree, extra: ExtraModel) -> Result<
    (Seq<FieldModel>, ExtraModel),
    ErrModel,
>
    decreases t, 2nat, 0nat,
{
    match brace_stream(t) {
        None => Err(fail(ErrorKind::PropertiesNotBrace)),
        Some(s) => props_scan(t, 0, Seq::empty(), extra),
    }
}

/// Reading the properties `t` from the entry at `pos` on, having read the
/// fields `acc` so far and defined the enums `extra`.
pub open spec fn props_scan(t: TokenTree, pos: int, acc: Seq<FieldModel>, extra: ExtraModel) -> Result<
    (Seq<FieldModel>, ExtraModel),
    ErrModel,
>
    decreases t, 1nat, brace_stream(t)->0.len() + 1 - pos,
{
    match brace_stream(t) {
        None => Err(fail(ErrorKind::PropertiesNotBrace)),
        Some(s) => if pos < 0 || pos > s.len() {
            Err(fail(ErrorKind::MissingKey))
        } else {
            let c = next_sep(s, ',', pos);
            proof {
                lemma_next_sep_bounds(s, ',', pos);
            }
            let step: Result<(Seq<FieldModel>, ExtraModel), ErrModel> = match entry_key(s, pos, c) {
                None => Err(fail(ErrorKind::MissingKey)),
                Some(k) => match k {
                    TokenTree::Literal(x) => {
                        let pname = unquote(x@);
                        match capitalize(pname) {
                            None => Err((ErrorKind::BadName, pname)),
                            Some(n) => match entry_value(s, pos, c) {
                                None => Err(fail(ErrorKind::MissingValue)),
                                Some(v) => match {
                                    proof {
                                        lemma_entry_value_in(s, pos, c);
                                        lemma_stream_smaller(t, next_sep(s, ':', pos) + 1);
                                    }
                                    spec_read_type(n, v, extra)
                                } {
                                    Err(e) => Err(e),
                                    Ok((ty, e2)) => Ok((acc.push(FieldModel { name: pname, ty }), e2)),
                                },
                            },
                        }
                    },
                    _ => Err(fail(ErrorKind::NameNotLiteral)),
                },
            };
            match step {
                Err(e) => Err(e),
                Ok((a2, e2)) => if c >= s.len() {
                    Ok((a2, e2))
                } else {
                    props_scan(t, c + 1, a2, e2)
                },
            }
        },
    }
}

fn lookup_exec(s: &Vec<TokenTree>, key: &str) -> (r: Result<Option<String>, GenerateError>)
    ensures
        match lookup(s@, 0, key@) {
            Ok(o) => r matches Ok(x) && opt_view(x) == o,
            Err(e) => r matches Err(x) && err_model(x) == e,
        },
{
    let mut pos: usize = 0;
    loop
        invariant
            pos <= s@.len(),
            lookup(s@, pos as int, key@) == lookup(s@, 0, key@),
        decreases s@.len() - pos,
    {
        let c = find_sep(s, ',', pos);
        match entry_key_exec(s, pos, c) {
            None => return Err(error(ErrorKind::MissingKey)),
            Some(k) => {
                if is_lit_exec(k, key) {
                    return match entry_value_exec(s, pos, c) {
                        None => Err(error(ErrorKind::MissingValue)),
                        Some(v) => {
                            let text = token_text_exec(v);
                            Ok(Some(unquote_exec(text.as_str())))
                        },
                    };
                }
            },
        }
        if c >= s.len() {
            return Ok(None);
        }
        pos = c + 1;
    }
}

fn read_type(name: &str, input: &TokenTree, extra: &mut Vec<(String, String)>) -> (r: Result<
    ReadResult,
    GenerateError,
>)
    ensures
        agrees_extra(r, final(extra)@, spec_read_type(name@, *input, extra_model(old(extra)@))),
    decreases *input, 3nat, 0nat,
{
    let s = match brace_stream_exec(input) {
        Some(s) => s,
        None => return Err(error(ErrorKind::NotBrace)),
    };
    let ty = match lookup_exec(s, "\"type\"") {
        Err(e) => return Err(e),
        Ok(None) => return Err(error(ErrorKind::MissingType)),
        Ok(Some(ty)) => ty,
    };
    if str_eq(ty.as_str(), "object") {
        read_object(input, extra)
    } else if str_eq(ty.as_str(), "integer") {
        read_integer(input)
    } else if str_eq(ty.as_str(), "string") {
        read_string(name, input, extra)
    } else if str_eq(ty.as_str(), "boolean") {
        read_boolean(input)
    } else {
        Err(GenerateError { kind: ErrorKind::UnsupportedType, detail: ty })
    }
}

fn read_object(input: &TokenTree, extra: &mut Vec<(String, String)>) -> (r: Result<
    ReadResult,
    GenerateError,
>)
    ensures
        agrees_extra(r, final(extra)@, spec_read_object(*input, extra_model(old(extra)@))),
    decreases *input, 2nat, 0nat,
{
    let ghost start = extra_model(extra@);
    let s = match brace_stream_exec(input) {
        Some(s) => s,
        None => return Err(error(ErrorKind::NotBrace)),
    };
    let mut pos: usize = 0;
    let mut ty = false;
    let mut props: Vec<Field> = Vec::new();
    assert(fields_model(props@) =~= Seq::<FieldModel>::empty());
    loop
        invariant
            pos <= s@.len(),
            brace_stream(*input) == Some(s@),
            start == extra_model(old(extra)@),
            object_scan(*input, pos as int, ty, fields_model(props@), extra_model(extra@))
                == spec_read_object(*input, start),
        decreases s@.len() - pos,
    {
        let c = find_sep(s, ',', pos);
        match entry_key_exec(s, pos, c) {
            None => return Err(error(ErrorKind::MissingKey)),
            Some(k) => {
                if is_lit_exec(k, "\"type\"") {
                    match entry_value_exec(s, pos, c) {
                        None => return Err(error(ErrorKind::MissingValue)),
                        Some(v) => {
                            if is_lit_exec(v, "\"object\"") {
                                ty = true;
                            } else {
                                return Err(error(ErrorKind::NotObjectType));
                            }
                        },
                    }
                } else if is_lit_exec(k, "\"properties\"") {
                    match entry_value_exec(s, pos, c) {
                        None => return Err(error(ErrorKind::MissingValue)),
                        Some(v) => {
                            proof {
                                lemma_entry_value_in(s@, pos as int, c as int);
                                lemma_stream_smaller(*input, next_sep(s@, ':', pos as int) + 1);
                            }
                            props = match read_props(v, extra) {
                                Ok(fields) => fields,
                                Err(e) => return Err(e),
                            };
                        },
                    }
                }
            },
        }
        if c >= s.len() {
            if !ty {
                return Err(error(ErrorKind::MissingType));
            }
            return Ok(ReadResult::Object(props));
        }
        pos = c + 1;
    }
}

fn read_props(input: &TokenTree, extra: &mut Vec<(String, String)>) -> (r: Result<
    Vec<Field>,
    GenerateError,
>)
    ensures
        match spec_read_props(*input, extra_model(old(extra)@)) {
            Ok((fields, e)) => r matches Ok(v) && fields_model(v@) == fields && extra_model(
                final(extra)@,
            ) == e,
            Err(e) => r matches Err(x) && err_model(x) == e,
        },
    decreases *input, 2nat, 0nat,
{
    let ghost start = extra_model(extra@);
    let s = match brace_stream_exec(input) {
        Some(s) => s,
        None => return Err(error(ErrorKind::PropertiesNotBrace)),
    };
    let mut pos: usize = 0;
    let mut acc: Vec<Field> = Vec::new();
    assert(fields_model(acc@) =~= Seq::<FieldModel>::empty());
    loop
        invariant
            pos <= s@.len(),
            brace_stream(*input) == Some(s@),
            start == extra_model(old(extra)@),
            props_scan(*input, pos as int, fields_model(acc@), extra_model(extra@))
                == spec_read_props(*input, start),
        decreases s@.len() - pos,
    {
        let c = find_sep(s, ',', pos);
        let k = match entry_key_exec(s, pos, c) {
            None => return Err(error(ErrorKind::MissingKey)),
            Some(k) => k,
        };
        let pname = match k {
            TokenTree::Literal(x) => unquote_exec(x.as_str()),
            _ => return Err(error(ErrorKind::NameNotLiteral)),
        };
        let n = match capitalize_exec(pname.as_str()) {
            Some(n) => n,
            None => return Err(GenerateError { kind: ErrorKind::BadName, detail: pname }),
        };
        let v = match entry_value_exec(s, pos, c) {
            None => return Err(error(ErrorKind::MissingValue)),
            Some(v) => v,
        };
        proof {
            lemma_entry_value_in(s@, pos as int, c as int);
            lemma_stream_smaller(*input, next_sep(s@, ':', pos as int) + 1);
        }
        let ty = match read_type(n.as_str(), v, extra) {
            Ok(ty) => ty,
            Err(e) => return Err(e),
        };
        let ghost before = acc@;
        acc.push(Field { name: pname, ty });
        assert(acc@.drop_last() =~= before);
        if c >= s.len() {
            return Ok(acc);
        }
        pos = c + 1;
    }
}

impl ReadResult {
    /// The Rust type name of a type that is not an object.
    pub fn name(&self) -> (r: String)
        requires
            self is Other,
        ensures
            ResultModel::Other(r@) == result_model(*self),
    {
        match self {
            ReadResult::Other(v) => v.clone(),
            ReadResult::Object(_) => unreached(),
        }
    }
}

/// The name and Rust type of each field, where none is an object.
pub open spec fn field_types(fields: Seq<FieldModel>) -> Option<Seq<(Seq<char>, Seq<char>)>>
    decreases fields.len(),
{
    if fields.len() == 0 {
        Some(Seq::empty())
    } else {
        match field_types(fields.drop_last()) {
            None => None,
            Some(prev) => match fields.last().ty {
                ResultModel::Other(t) => Some(prev.push((fields.last().name, t))),
                ResultModel::Object(_) => None,
            },
        }
    }
}

/// The struct's name from the entries of the top-level schema from `pos`
/// on: the `name` in the first `xml` entry that has one.
pub open spec fn xml_name(s: Seq<TokenTree>, pos: int) -> Result<Option<Seq<char>>, ErrModel>
    decreases s.len() + 1 - pos,
{
    if pos < 0 || pos > s.len() {
        Err(fail(ErrorKind::MissingKey))
    } else {
        let c = next_sep(s, ',', pos);
        proof {
            lemma_next_sep_bounds(s, ',', pos);
        }
        let found: Result<Option<Seq<char>>, ErrModel> = match entry_key(s, pos, c) {
            None => Err(fail(ErrorKind::MissingKey)),
            Some(k) => if is_lit(k, "\"xml\""@) {
                match entry_value(s, pos, c) {
                    None => Err(fail(ErrorKind::MissingValue)),
                    Some(v) => match brace_stream(v) {
                        None => Err(fail(ErrorKind::NotBrace)),
                        Some(inner) => lookup(inner, 0, "\"name\""@),
                    },
                }
            } else {
                Ok(None)
            },
        };
        match found {
            Err(e) => Err(e),
            Ok(Some(n)) => Ok(Some(n)),
            Ok(None) => if c >= s.len() {
                Ok(None)
            } else {
                xml_name(s, c + 1)
            },
        }
    }
}

/// What the entry `e` of `s` says of the struct's name: nothing for an
/// entry other than `xml`, the `name` in the braces of an `xml` entry, or
/// the error met on the way.
#[verifier::opaque]
pub open spec fn entry_xml_name(s: Seq<TokenTree>, e: (int, int)) -> Result<Option<Seq<char>>, ErrModel> {
    match entry_key(s, e.0, e.1) {
        None => Err(fail(ErrorKind::MissingKey)),
        Some(k) => if is_lit(k, "\"xml\""@) {
            match entry_value(s, e.0, e.1) {
                None => Err(fail(ErrorKind::MissingValue)),
                Some(v) => match brace_stream(v) {
                    None => Err(fail(ErrorKind::NotBrace)),
                    Some(inner) => lookup(inner, 0, "\"name\""@),
                },
            }
        } else {
            Ok(None)
        },
    }
}

/// No entry of `es` before index `j` says anything of the struct's name.
pub open spec fn silent_before(s: Seq<TokenTree>, es: Seq<(int, int)>, j: int) -> bool {
    forall|i: int| 0 <= i < j ==> entry_xml_name(s, #[trigger] es[i]) == Ok::<
        Option<Seq<char>>,
        ErrModel,
    >(None)
}

proof fn lemma_xml_name(s: Seq<TokenTree>, pos: int)
    requires
        0 <= pos <= s.len(),
    ensures
        ({
            let es = entries_from(s, pos);
            &&& silent_before(s, es, es.len() as int) ==> xml_name(s, pos) == Ok::<
                Option<Seq<char>>,
                ErrModel,
            >(None)
            &&& forall|j: int|
                0 <= j < es.len() && silent_before(s, es, j) && entry_xml_name(s, #[trigger] es[j])
                    != Ok::<Option<Seq<char>>, ErrModel>(None) ==> xml_name(s, pos)
                    == entry_xml_name(s, es[j])
        }),
    decreases s.len() + 1 - pos,
{
    let es = entries_from(s, pos);
    let c = next_sep(s, ',', pos);
    lemma_next_sep_bounds(s, ',', pos);
    lemma_entries_from(s, pos);
    assert(es[0] == (pos, c));
    assert(xml_name(s, pos) == match entry_xml_name(s, es[0]) {
        Ok(None) => if c >= s.len() {
            Ok(None)
        } else {
            xml_name(s, c + 1)
        },
        other => other,
    }) by {
        reveal(entry_xml_name);
    }
    if c < s.len() {
        let rest = entries_from(s, c + 1);
        lemma_xml_name(s, c + 1);
        assert forall|i: int| 0 <= i < rest.len() implies rest[i] == es[i + 1] by {}
        if silent_before(s, es, es.len() as int) {
            assert(entry_xml_name(s, es[0]) == Ok::<Option<Seq<char>>, ErrModel>(None));
            assert(silent_before(s, rest, rest.len() as int)) by {
                assert forall|i: int| 0 <= i < rest.len() implies entry_xml_name(
                    s,
                    #[trigger] rest[i],
                ) == Ok::<Option<Seq<char>>, ErrModel>(None) by {
                    assert(es[i + 1] == rest[i]);
                }
            }
        }
        assert forall|j: int|
            0 <= j < es.len() && silent_before(s, es, j) && entry_xml_name(s, #[trigger] es[j])
                != Ok::<Option<Seq<char>>, ErrModel>(None) implies xml_name(s, pos)
            == entry_xml_name(s, es[j]) by {
            if j > 0 {
                assert(entry_xml_name(s, es[0]) == Ok::<Option<Seq<char>>, ErrModel>(None));
                assert(rest[j - 1] == es[j]);
                assert(silent_before(s, rest, j - 1)) by {
                    assert forall|i: int| 0 <= i < j - 1 implies entry_xml_name(
                        s,
                        #[trigger] rest[i],
                    ) == Ok::<Option<Seq<char>>, ErrModel>(None) by {
                        assert(es[i + 1] == rest[i]);
                    }
                }
            }
        }
    } else {
        assert(es.len() == 1);
        if silent_before(s, es, 1) {
            assert(entry_xml_name(s, es[0]) == Ok::<Option<Seq<char>>, ErrModel>(None));
        }
    }
}

/// The struct's name comes from the first entry that says anything of it:
/// an entry without a key fails, and an `xml` entry gives the `name` in
/// its braces, or its error; where no entry says anything, there is none.
pub proof fn law_xml_name_direct(s: Seq<TokenTree>)
    ensures
        ({
            let es = entries_from(s, 0);
            &&& silent_before(s, es, es.len() as int) ==> xml_name(s, 0) == Ok::<
                Option<Seq<char>>,
                ErrModel,
            >(None)
            &&& forall|j: int|
                0 <= j < es.len() && silent_before(s, es, j) && entry_xml_name(s, #[trigger] es[j])
                    != Ok::<Option<Seq<char>>, ErrModel>(None) ==> xml_name(s, 0)
                    == entry_xml_name(s, es[j])
        }),
{
    lemma_xml_name(s, 0);
}

/// The mathematical value of a `GenerateContext`.
pub struct ContextModel {
    pub extra_types: Seq<Seq<char>>,
    pub name: Seq<char>,
    pub fields: Seq<(Seq<char>, Seq<char>)>,
}

pub open spec fn context_model(c: GenerateContext) -> ContextModel {
    ContextModel {
        extra_types: c.extra_types@.map_values(|x: String| x@),
        name: c.name@,
        fields: c.fields@.map_values(|f: Fd| (f.name@, f.ty@)),
    }
}

/// What `GenerateContext::new` makes of its input: the first token must be
/// an object schema whose properties are not objects; the struct takes its
/// fields from them, its name from the `xml` entry, and the enums that the
/// string schemas call for, in the order they were first met.
pub open spec fn spec_new(input: Seq<TokenTree>) -> Result<ContextModel, ErrModel> {
    if input.len() == 0 {
        Err(fail(ErrorKind::EmptyInput))
    } else {
        match spec_read_type(Seq::empty(), input[0], Seq::empty()) {
            Err(e) => Err(e),
            Ok((ResultModel::Other(_), _)) => Err(fail(ErrorKind::NotObject)),
            Ok((ResultModel::Object(fields), extra)) => match field_types(fields) {
                None => Err(fail(ErrorKind::NestedObject)),
                Some(fds) => match brace_stream(input[0]) {
                    None => Err(fail(ErrorKind::NotBrace)),
                    Some(s) => match xml_name(s, 0) {
                        Err(e) => Err(e),
                        Ok(None) => Err(fail(ErrorKind::MissingName)),
                        Ok(Some(n)) => Ok(
                            ContextModel {
                                extra_types: extra.map_values(|e: (Seq<char>, Seq<char>)| e.1),
                                name: n,
                                fields: fds,
                            },
                        ),
                    },
                },
            },
        }
    }
}

fn xml_name_exec(s: &Vec<TokenTree>) -> (r: Result<Option<String>, GenerateError>)
    ensures
        match xml_name(s@, 0) {
            Ok(o) => r matches Ok(x) && opt_view(x) == o,
            Err(e) => r matches Err(x) && err_model(x) == e,
        },
{
    let mut pos: usize = 0;
    loop
        invariant
            pos <= s@.len(),
            xml_name(s@, pos as int) == xml_name(s@, 0),
        decreases s@.len() - pos,
    {
        let c = find_sep(s, ',', pos);
        match entry_key_exec(s, pos, c) {
            None => return Err(error(ErrorKind::MissingKey)),
            Some(k) => {
                if is_lit_exec(k, "\"xml\"") {
                    match entry_value_exec(s, pos, c) {
                        None => return Err(error(ErrorKind::MissingValue)),
                        Some(v) => match brace_stream_exec(v) {
                            None => return Err(error(ErrorKind::NotBrace)),
                            Some(inner) => match lookup_exec(inner, "\"name\"") {
                                Err(e) => return Err(e),
                                Ok(Some(n)) => return Ok(Some(n)),
                                Ok(None) => {},
                            },
                        },
                    }
                }
            },
        }
        if c >= s.len() {
            return Ok(None);
        }
        pos = c + 1;
    }
}

impl GenerateContext {
    /// Reads the JSON-schema-like macro input into the struct to generate.
    pub fn new(input: Vec<TokenTree>) -> (r: Result<Self, GenerateError>)
        ensures
            match spec_new(input@) {
                Ok(m) => r matches Ok(c) && context_model(c) == m,
                Err(e) => r matches Err(x) && err_model(x) == e,
            },
    {
        if input.len() == 0 {
            return Err(error(ErrorKind::EmptyInput));
        }
        let first = &input[0];
        let mut extra: Vec<(String, String)> = Vec::new();
        assert(extra_model(extra@) =~= Seq::<(Seq<char>, Seq<char>)>::empty());
        let empty = String::new();
        let ty = match read_type(empty.as_str(), first, &mut extra) {
            Ok(ty) => ty,
            Err(e) => return Err(e),
        };
        let props = match ty {
            ReadResult::Object(props) => props,
            ReadResult::Other(_) => return Err(error(ErrorKind::NotObject)),
        };
        let mut fields: Vec<Fd> = Vec::new();
        let mut i: usize = 0;
        let ghost pm = fields_model(props@);
        proof {
            lemma_fields_model_len(props@);
        }
        assert(pm.take(0) =~= Seq::<FieldModel>::empty());
        while i < props.len()
            invariant
                i <= props@.len(),
                pm == fields_model(props@),
                pm.len() == props@.len(),
                input@.len() > 0,
                *first == input@[0],
                spec_read_type(Seq::empty(), input@[0], Seq::empty()) == Ok::<
                    (ResultModel, ExtraModel),
                    ErrModel,
                >((ResultModel::Object(pm), extra_model(extra@))),
                field_types(pm.take(i as int)) matches Some(f) && fields@.map_values(
                    |f: Fd| (f.name@, f.ty@),
                ) == f,
            decreases props@.len() - i,
        {
            assert(pm.take(i + 1).drop_last() =~= pm.take(i as int));
            proof {
                lemma_fields_model_at(props@, i as int);
            }
            assert(pm.take(i + 1).last() == pm[i as int]);
            let f = &props[i];
            match &f.ty {
                ReadResult::Object(_) => {
                    proof {
                        assert(pm[i as int].ty is Object);
                        assert(field_types(pm.take(i + 1)) is None);
                        lemma_field_types_none_stays(pm, i as int + 1);
                    }
                    return Err(error(ErrorKind::NestedObject));
                },
                ReadResult::Other(_) => {},
            }
            let t = f.ty.name();
            let ghost before = fields@;
            fields.push(Fd { name: f.name.clone(), ty: t });
            assert(fields@.map_values(|f: Fd| (f.name@, f.ty@)) =~= before.map_values(
                |f: Fd| (f.name@, f.ty@),
            ).push((props@[i as int].name@, t@)));
            i = i + 1;
        }
        assert(pm.take(props@.len() as int) =~= pm);
        let s = match brace_stream_exec(first) {
            Some(s) => s,
            None => return Err(error(ErrorKind::NotBrace)),
        };
        let name = match xml_name_exec(s) {
            Err(e) => return Err(e),
            Ok(None) => return Err(error(ErrorKind::MissingName)),
            Ok(Some(n)) => n,
        };
        let mut extra_types: Vec<String> = Vec::new();
        let mut j: usize = 0;
        while j < extra.len()
            invariant
                j <= extra@.len(),
                extra_types@.len() == j,
                forall|k: int| 0 <= k < j ==> #[trigger] extra_types@[k]@ == extra@[k].1@,
            decreases extra@.len() - j,
        {
            extra_types.push(extra[j].1.clone());
            j = j + 1;
        }
        assert(extra_types@.map_values(|x: String| x@) =~= extra_model(extra@).map_values(
            |e: (Seq<char>, Seq<char>)| e.1,
        ));
        Ok(GenerateContext { extra_types, name, fields })
    }
}

pub proof fn lemma_fields_model_len(fs: Seq<Field>)
    ensures
        fields_model(fs).len() == fs.len(),
    decreases fs.len(),
{
    if fs.len() > 0 {
        lemma_fields_model_len(fs.drop_last());
    }
}

pub proof fn lemma_fields_model_at(fs: Seq<Field>, i: int)
    requires
        0 <= i < fs.len(),
    ensures
        fields_model(fs)[i] == (FieldModel { name: fs[i].name@, ty: result_model(fs[i].ty) }),
    decreases fs.len(),
{
    lemma_fields_model_len(fs.drop_last());
    if i < fs.len() - 1 {
        lemma_fields_model_at(fs.drop_last(), i);
    }
}

/// Once a field is an object, the fields have no types, however many follow.
pub proof fn lemma_field_types_none_stays(fs: Seq<FieldModel>, k: int)
    requires
        0 <= k <= fs.len(),
        field_types(fs.take(k)) is None,
    ensures
        field_types(fs) is None,
    decreases fs.len() - k,
{
    if k < fs.len() {
        assert(fs.take(k + 1).drop_last() =~= fs.take(k));
        lemma_field_types_none_stays(fs, k + 1);
    } else {
        assert(fs.take(k) =~= fs);
    }
}

/// No enum name is defined twice.
pub open spec fn distinct_names(extra: ExtraModel) -> bool {
    forall|i: int, j: int| 0 <= i < j < extra.len() ==> extra[i].0 != extra[j].0
}

pub proof fn lemma_enum_entry_distinct(name: Seq<char>, v: TokenTree, extra: ExtraModel)
    requires
        distinct_names(extra),
    ensures
        enum_entry(name, v, extra) matches Ok((_, e2)) ==> distinct_names(e2),
{
}

pub proof fn lemma_string_scan_distinct(
    s: Seq<TokenTree>,
    pos: int,
    name: Seq<char>,
    ty: bool,
    fmt: Option<Seq<char>>,
    extra: ExtraModel,
)
    requires
        distinct_names(extra),
    ensures
        string_scan(s, pos, name, ty, fmt, extra) matches Ok((_, e2)) ==> distinct_names(e2),
    decreases s.len() + 1 - pos,
{
    if 0 <= pos <= s.len() {
        let c = next_sep(s, ',', pos);
        lemma_next_sep_bounds(s, ',', pos);
        if let Some(v) = entry_value(s, pos, c) {
            lemma_enum_entry_distinct(name, v, extra);
            if let Ok((_, e2)) = enum_entry(name, v, extra) {
                if c < s.len() {
                    lemma_string_scan_distinct(s, c + 1, name, ty, Some(name + "Enum"@), e2);
                }
            }
        }
        if c < s.len() {
            lemma_string_scan_distinct(s, c + 1, name, true, fmt, extra);
            lemma_string_scan_distinct(s, c + 1, name, ty, Some("String"@), extra);
            lemma_string_scan_distinct(s, c + 1, name, ty, fmt, extra);
        }
    }
}

/// Reading a schema never defines an enum name twice.
pub proof fn lemma_read_type_distinct(name: Seq<char>, t: TokenTree, extra: ExtraModel)
    requires
        distinct_names(extra),
    ensures
        spec_read_type(name, t, extra) matches Ok((_, e2)) ==> distinct_names(e2),
    decreases t, 3nat, 0nat,
{
    if let Some(s) = brace_stream(t) {
        lemma_read_object_distinct(t, extra);
        lemma_string_scan_distinct(s, 0, name, false, None, extra);
    }
}

pub proof fn lemma_read_object_distinct(t: TokenTree, extra: ExtraModel)
    requires
        distinct_names(extra),
    ensures
        spec_read_object(t, extra) matches Ok((_, e2)) ==> distinct_names(e2),
    decreases t, 2nat, 0nat,
{
    lemma_object_scan_distinct(t, 0, false, Seq::empty(), extra);
}

pub proof fn lemma_object_scan_distinct(
    t: TokenTree,
    pos: int,
    ty: bool,
    props: Seq<FieldModel>,
    extra: ExtraModel,
)
    requires
        distinct_names(extra),
    ensures
        object_scan(t, pos, ty, props, extra) matches Ok((_, e2)) ==> distinct_names(e2),
    decreases t, 1nat, brace_stream(t)->0.len() + 1 - pos,
{
    if let Some(s) = brace_stream(t) {
        if 0 <= pos <= s.len() {
            let c = next_sep(s, ',', pos);
            lemma_next_sep_bounds(s, ',', pos);
            if let Some(v) = entry_value(s, pos, c) {
                lemma_entry_value_in(s, pos, c);
                lemma_stream_smaller(t, next_sep(s, ':', pos) + 1);
                lemma_read_props_distinct(v, extra);
                if let Ok((fields, e2)) = spec_read_props(v, extra) {
                    if c < s.len() {
                        lemma_object_scan_distinct(t, c + 1, ty, fields, e2);
                    }
                }
            }
            if c < s.len() {
                lemma_object_scan_distinct(t, c + 1, true, props, extra);
                lemma_object_scan_distinct(t, c + 1, ty, props, extra);
            }
        }
    }
}

pub proof fn lemma_read_props_distinct(t: TokenTree, extra: ExtraModel)
    requires
        distinct_names(extra),
    ensures
        spec_read_props(t, extra) matches Ok((_, e2)) ==> distinct_names(e2),
    decreases t, 2nat, 0nat,
{
    lemma_props_scan_distinct(t, 0, Seq::empty(), extra);
}

pub proof fn lemma_props_scan_distinct(t: TokenTree, pos: int, acc: Seq<FieldModel>, extra: ExtraModel)
    requires
        distinct_names(extra),
    ensures
        props_scan(t, pos, acc, extra) matches Ok((_, e2)) ==> distinct_names(e2),
    decreases t, 1nat, brace_stream(t)->0.len() + 1 - pos,
{
    if let Some(s) = brace_stream(t) {
        if 0 <= pos <= s.len() {
            let c = next_sep(s, ',', pos);
            lemma_next_sep_bounds(s, ',', pos);
            if let Some(TokenTree::Literal(x)) = entry_key(s, pos, c) {
                let pname = unquote(x@);
                if let Some(n) = capitalize(pname) {
                    if let Some(v) = entry_value(s, pos, c) {
                        lemma_entry_value_in(s, pos, c);
                        lemma_stream_smaller(t, next_sep(s, ':', pos) + 1);
                        lemma_read_type_distinct(n, v, extra);
                        if let Ok((ty, e2)) = spec_read_type(n, v, extra) {
                            if c < s.len() {
                                lemma_props_scan_distinct(
                                    t,
                                    c + 1,
                                    acc.push(FieldModel { name: pname, ty }),
                                    e2,
                                );
                            }
                        }
                    }
                }
            }
        }
    }
}

/// The enums of a generated struct are defined once each: no two of them
/// have the same name.
pub proof fn law_enums_defined_once(input: Seq<TokenTree>)
    requires
        input.len() > 0,
    ensures
        spec_read_type(Seq::empty(), input[0], Seq::empty()) matches Ok((_, extra))
            ==> distinct_names(extra),
{
    lemma_read_type_distinct(Seq::empty(), input[0], Seq::empty());
}

/// How the definition of the enum `n` opens: `pub enum <n> {` and a line
/// feed.
pub open spec fn enum_opening(n: Seq<char>) -> Seq<char> {
    "pub enum "@ + n + " {\n"@
}

/// A type the schema reader names without defining it.
pub open spec fn is_builtin_type(t: Seq<char>) -> bool {
    t == "i64"@ || t == "i32"@ || t == "String"@ || t == "bool"@
}

/// `defs` defines the enums `names`, each once: `defs[k]` opens as the
/// definition of `names[k]`, and no name comes twice.
pub open spec fn defines_each_once(defs: Seq<Seq<char>>, names: Seq<Seq<char>>) -> bool {
    &&& defs.len() == names.len()
    &&& forall|k: int| 0 <= k < defs.len() ==> enum_opening(names[k]).is_prefix_of(#[trigger] defs[k])
    &&& forall|i: int, j: int| 0 <= i < j < names.len() ==> names[i] != names[j]
}

/// Each enum of `extra` holds a definition that opens with its name.
pub open spec fn catalogued(extra: ExtraModel) -> bool {
    forall|k: int| 0 <= k < extra.len() ==> enum_opening((#[trigger] extra[k]).0).is_prefix_of(extra[k].1)
}

/// `b` holds the enums of `a`, in the same places, and maybe more after.
pub open spec fn extends(a: ExtraModel, b: ExtraModel) -> bool {
    a.len() <= b.len() && forall|k: int| 0 <= k < a.len() ==> #[trigger] b[k] == a[k]
}

/// `t` is a built-in type or an enum of `extra`.
pub open spec fn known_type(extra: ExtraModel, t: Seq<char>) -> bool {
    is_builtin_type(t) || has_key(extra, t)
}

/// Every property of `fields` read as a plain type has a known type.
pub open spec fn fields_known(fields: Seq<FieldModel>, extra: ExtraModel) -> bool {
    forall|i: int|
        0 <= i < fields.len() ==> ((#[trigger] fields[i]).ty matches ResultModel::Other(f)
            ==> known_type(extra, f))
}

/// What a schema reads as names only known types.
pub open spec fn result_known(r: ResultModel, extra: ExtraModel) -> bool {
    match r {
        ResultModel::Other(f) => known_type(extra, f),
        ResultModel::Object(fs) => fields_known(fs, extra),
    }
}

proof fn lemma_extends_known(a: ExtraModel, b: ExtraModel, t: Seq<char>)
    requires
        extends(a, b),
        known_type(a, t),
    ensures
        known_type(b, t),
{
    if has_key(a, t) {
        let i = choose|i: int| 0 <= i < a.len() && a[i].0 == t;
        assert(b[i] == a[i]);
    }
}

proof fn lemma_extends_fields(fs: Seq<FieldModel>, a: ExtraModel, b: ExtraModel)
    requires
        extends(a, b),
        fields_known(fs, a),
    ensures
        fields_known(fs, b),
{
    assert forall|i: int| 0 <= i < fs.len() implies ((#[trigger] fs[i]).ty matches ResultModel::Other(
        f,
    ) ==> known_type(b, f)) by {
        if let ResultModel::Other(f) = fs[i].ty {
            lemma_extends_known(a, b, f);
        }
    }
}

proof fn lemma_enum_entry_known(name: Seq<char>, v: TokenTree, extra: ExtraModel)
    requires
        catalogued(extra),
    ensures
        enum_entry(name, v, extra) matches Ok((n, e2)) ==> catalogued(e2) && extends(extra, e2)
            && has_key(e2, n),
{
    if let Ok((n, e2)) = enum_entry(name, v, extra) {
        if !has_key(extra, n) {
            let names = enum_names(bracket_stream(v)->0)->Ok_0;
            let d = enum_definition(n, names);
            assert(enum_opening(n).is_prefix_of(d)) by {
                assert(d =~= enum_opening(n) + (enum_body(names) + "\n}"@));
                assert(d.subrange(0, enum_opening(n).len() as int) =~= enum_opening(n));
            }
            assert(e2[extra.len() as int].0 == n);
        }
    }
}

proof fn lemma_string_scan_known(
    s: Seq<TokenTree>,
    pos: int,
    name: Seq<char>,
    ty: bool,
    fmt: Option<Seq<char>>,
    extra: ExtraModel,
)
    requires
        catalogued(extra),
        fmt matches Some(f) ==> known_type(extra, f),
    ensures
        string_scan(s, pos, name, ty, fmt, extra) matches Ok((r, e2)) ==> catalogued(e2) && extends(
            extra,
            e2,
        ) && result_known(r, e2),
    decreases s.len() + 1 - pos,
{
    if 0 <= pos <= s.len() {
        let c = next_sep(s, ',', pos);
        lemma_next_sep_bounds(s, ',', pos);
        if let Some(v) = entry_value(s, pos, c) {
            lemma_enum_entry_known(name, v, extra);
            if let Ok((n, e2)) = enum_entry(name, v, extra) {
                if c < s.len() {
                    lemma_string_scan_known(s, c + 1, name, ty, Some(n), e2);
                }
            }
        }
        if c < s.len() {
            lemma_string_scan_known(s, c + 1, name, true, fmt, extra);
            lemma_string_scan_known(s, c + 1, name, ty, Some("String"@), extra);
            lemma_string_scan_known(s, c + 1, name, ty, fmt, extra);
        }
    }
}

proof fn lemma_last_format_values(s: Seq<TokenTree>, es: Seq<(int, int)>)
    ensures
        last_format(s, es) matches Some(f) ==> f == "i64"@ || f == "i32"@,
    decreases es.len(),
{
    if es.len() > 0 {
        lemma_last_format_values(s, es.drop_first());
    }
}

/// Reading a schema keeps each enum's definition opening with its name,
/// keeps the enums defined before, and names only known types.
proof fn lemma_read_type_known(name: Seq<char>, t: TokenTree, extra: ExtraModel)
    requires
        catalogued(extra),
    ensures
        spec_read_type(name, t, extra) matches Ok((r, e2)) ==> catalogued(e2) && extends(extra, e2)
            && result_known(r, e2),
    decreases t, 3nat, 0nat,
{
    if let Some(s) = brace_stream(t) {
        lemma_read_object_known(t, extra);
        lemma_string_scan_known(s, 0, name, false, None, extra);
        lemma_integer_scan(s, 0, false, None);
        lemma_last_format_values(s, entries_from(s, 0));
        law_read_boolean_direct(t);
    }
}

proof fn lemma_read_object_known(t: TokenTree, extra: ExtraModel)
    requires
        catalogued(extra),
    ensures
        spec_read_object(t, extra) matches Ok((r, e2)) ==> catalogued(e2) && extends(extra, e2)
            && result_known(r, e2),
    decreases t, 2nat, 0nat,
{
    lemma_object_scan_known(t, 0, false, Seq::empty(), extra);
}

proof fn lemma_object_scan_known(
    t: TokenTree,
    pos: int,
    ty: bool,
    props: Seq<FieldModel>,
    extra: ExtraModel,
)
    requires
        catalogued(extra),
        fields_known(props, extra),
    ensures
        object_scan(t, pos, ty, props, extra) matches Ok((r, e2)) ==> catalogued(e2) && extends(
            extra,
            e2,
        ) && result_known(r, e2),
    decreases t, 1nat, brace_stream(t)->0.len() + 1 - pos,
{
    if let Some(s) = brace_stream(t) {
        if 0 <= pos <= s.len() {
            let c = next_sep(s, ',', pos);
            lemma_next_sep_bounds(s, ',', pos);
            if let Some(v) = entry_value(s, pos, c) {
                lemma_entry_value_in(s, pos, c);
                lemma_stream_smaller(t, next_sep(s, ':', pos) + 1);
                lemma_read_props_known(v, extra);
                if let Ok((fields, e2)) = spec_read_props(v, extra) {
                    if c < s.len() {
                        lemma_object_scan_known(t, c + 1, ty, fields, e2);
                    }
                }
            }
            if c < s.len() {
                lemma_object_scan_known(t, c + 1, true, props, extra);
                lemma_object_scan_known(t, c + 1, ty, props, extra);
            }
        }
    }
}

proof fn lemma_read_props_known(t: TokenTree, extra: ExtraModel)
    requires
        catalogued(extra),
    ensures
        spec_read_props(t, extra) matches Ok((fs, e2)) ==> catalogued(e2) && extends(extra, e2)
            && fields_known(fs, e2),
    decreases t, 2nat, 0nat,
{
    lemma_props_scan_known(t, 0, Seq::empty(), extra);
}

proof fn lemma_props_scan_known(t: TokenTree, pos: int, acc: Seq<FieldModel>, extra: ExtraModel)
    requires
        catalogued(extra),
        fields_known(acc, extra),
    ensures
        props_scan(t, pos, acc, extra) matches Ok((fs, e2)) ==> catalogued(e2) && extends(extra, e2)
            && fields_known(fs, e2),
    decreases t, 1nat, brace_stream(t)->0.len() + 1 - pos,
{
    if let Some(s) = brace_stream(t) {
        if 0 <= pos <= s.len() {
            let c = next_sep(s, ',', pos);
            lemma_next_sep_bounds(s, ',', pos);
            if let Some(TokenTree::Literal(x)) = entry_key(s, pos, c) {
                let pname = unquote(x@);
                if let Some(n) = capitalize(pname) {
                    if let Some(v) = entry_value(s, pos, c) {
                        lemma_entry_value_in(s, pos, c);
                        lemma_stream_smaller(t, next_sep(s, ':', pos) + 1);
                        lemma_read_type_known(n, v, extra);
                        if let Ok((ty, e2)) = spec_read_type(n, v, extra) {
                            let acc2 = acc.push(FieldModel { name: pname, ty });
                            lemma_extends_fields(acc, extra, e2);
                            assert(fields_known(acc2, e2)) by {
                                assert forall|i: int| 0 <= i < acc2.len() implies ((
                                #[trigger] acc2[i]).ty matches ResultModel::Other(f) ==> known_type(
                                    e2,
                                    f,
                                )) by {
                                    if i < acc.len() {
                                        assert(acc2[i] == acc[i]);
                                    }
                                }
                            }
                            if c < s.len() {
                                lemma_props_scan_known(t, c + 1, acc2, e2);
                            }
                        }
                    }
                }
            }
        }
    }
}

proof fn lemma_field_types_known(fs: Seq<FieldModel>, extra: ExtraModel)
    requires
        fields_known(fs, extra),
    ensures
        field_types(fs) matches Some(fds) ==> fds.len() == fs.len() && forall|j: int|
            0 <= j < fds.len() ==> known_type(extra, (#[trigger] fds[j]).1),
    decreases fs.len(),
{
    if fs.len() > 0 {
        let prev = fs.drop_last();
        assert(fields_known(prev, extra)) by {
            assert forall|i: int| 0 <= i < prev.len() implies ((#[trigger] prev[i]).ty matches ResultModel::Other(
                f,
            ) ==> known_type(extra, f)) by {
                assert(prev[i] == fs[i]);
            }
        }
        lemma_field_types_known(prev, extra);
        assert(fs[fs.len() - 1] == fs.last());
    }
}

/// The enums a generated struct defines are each defined once, and every
/// type its fields name is built in or one of them: the context's
/// `extra_types[k]` is the definition of the `k`-th enum (it opens with
/// `pub enum <name> {`), no name comes twice, and each field's type is
/// `i64`, `i32`, `String`, `bool` or a name so defined.
pub proof fn law_context_defines_each_enum_once(input: Seq<TokenTree>)
    ensures
        spec_new(input) matches Ok(m) ==> exists|names: Seq<Seq<char>>|
            {
                &&& defines_each_once(m.extra_types, names)
                &&& forall|f: int|
                    0 <= f < m.fields.len() ==> is_builtin_type((#[trigger] m.fields[f]).1)
                        || names.contains(m.fields[f].1)
            },
{
    if input.len() > 0 {
        lemma_read_type_known(Seq::empty(), input[0], Seq::empty());
        law_enums_defined_once(input);
        if let Ok(m) = spec_new(input) {
            let (r, extra) = spec_read_type(Seq::empty(), input[0], Seq::empty())->Ok_0;
            let fields = r->Object_0;
            lemma_field_types_known(fields, extra);
            let names = extra.map_values(|e: (Seq<char>, Seq<char>)| e.0);
            assert(m.extra_types == extra.map_values(|e: (Seq<char>, Seq<char>)| e.1));
            assert(defines_each_once(m.extra_types, names)) by {
                assert forall|k: int| 0 <= k < m.extra_types.len() implies enum_opening(
                    names[k],
                ).is_prefix_of(#[trigger] m.extra_types[k]) by {
                    assert(enum_opening(extra[k].0).is_prefix_of(extra[k].1));
                }
            }
            assert forall|f: int| 0 <= f < m.fields.len() implies is_builtin_type(
                (#[trigger] m.fields[f]).1,
            ) || names.contains(m.fields[f].1) by {
                let t = m.fields[f].1;
                assert(known_type(extra, t));
                if has_key(extra, t) {
                    let i = choose|i: int| 0 <= i < extra.len() && extra[i].0 == t;
                    assert(names[i] == t);
                }
            }
        }
    }
}

} // verus!
