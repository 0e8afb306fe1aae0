use vstd::prelude::*;
use vstd::std_specs::iter::IteratorSpec;
use vstd::string::{StrSliceExecFns, StringExecFns, StringSliceAdditionalSpecFns};
use vstd::utf8::*;

verus! {

broadcast use vstd::string::group_string_axioms;

/// `k` is the position of the first `c` in `s`.
pub open spec fn is_first_occurrence(s: Seq<char>, c: char, k: int) -> bool {
    &&& 0 <= k < s.len()
    &&& s[k] == c
    &&& forall|j: int| 0 <= j < k ==> s[j] != c
}

/// The position of the first `c` in `s`, if there is one.
pub open spec fn first_occurrence(s: Seq<char>, c: char) -> Option<int> {
    if s.contains(c) {
        Some(choose|k: int| is_first_occurrence(s, c, k))
    } else {
        None
    }
}

/// The first occurrence of a character is unique, and `first_occurrence` finds it.
pub proof fn lemma_first_occurrence(s: Seq<char>, c: char, k: int)
    requires
        is_first_occurrence(s, c, k),
    ensures
        first_occurrence(s, c) == Some(k),
{
    assert(s.contains(c));
    let k2 = choose|k2: int| is_first_occurrence(s, c, k2);
    assert(is_first_occurrence(s, c, k2));
    if k2 < k {
        assert(s[k2] != c);
    } else if k < k2 {
        assert(s[k] != c);
    }
}

/// If `c` occurs in `s`, it has a first occurrence.
pub proof fn lemma_first_occurrence_exists(s: Seq<char>, c: char)
    requires
        s.contains(c),
    ensures
        first_occurrence(s, c) is Some,
        is_first_occurrence(s, c, first_occurrence(s, c)->0),
    decreases s.len(),
{
    if s[0] == c {
        lemma_first_occurrence(s, c, 0);
    } else {
        let t = s.drop_first();
        let i = choose|i: int| 0 <= i < s.len() && s[i] == c;
        assert(t[i - 1] == c);
        lemma_first_occurrence_exists(t, c);
        let k = first_occurrence(t, c)->0;
        assert forall|j: int| 0 <= j < k + 1 implies s[j] != c by {
            if j > 0 {
                assert(s[j] == t[j - 1]);
            }
        }
        lemma_first_occurrence(s, c, k + 1);
    }
}

/// Cutting a text at the first `c` and putting the pieces back together with
/// `c` between them gives back the text; the first piece holds no `c`.
pub proof fn law_cut_reassembles(s: Seq<char>, c: char)
    requires
        first_occurrence(s, c) is Some,
    ensures
        ({
            let k = first_occurrence(s, c)->0;
            &&& s.take(k) + seq![c] + s.skip(k + 1) == s
            &&& !s.take(k).contains(c)
        }),
{
    lemma_first_occurrence_exists(s, c);
    let k = first_occurrence(s, c)->0;
    assert(s.take(k) + seq![c] + s.skip(k + 1) =~= s);
    assert forall|j: int| 0 <= j < s.take(k).len() implies s.take(k)[j] != c by {
        assert(s.take(k)[j] == s[j]);
    }
}

/// A text with no `c` in it, followed by `c`, has its first `c` there.
pub proof fn lemma_first_occurrence_after(a: Seq<char>, c: char, b: Seq<char>)
    requires
        !a.contains(c),
    ensures
        first_occurrence(a + seq![c] + b, c) == Some(a.len() as int),
        (a + seq![c] + b).skip(a.len() + 1int) == b,
        (a + seq![c] + b).take(a.len() as int) == a,
{
    let s = a + seq![c] + b;
    assert forall|j: int| 0 <= j < a.len() implies s[j] != c by {
        assert(s[j] == a[j]);
    }
    assert(s[a.len() as int] == c);
    lemma_first_occurrence(s, c, a.len() as int);
    assert(s.skip(a.len() + 1int) =~= b);
    assert(s.take(a.len() as int) =~= a);
}

/// UTF-8 encoding distributes over concatenation.
pub proof fn lemma_encode_utf8_concat(a: Seq<char>, b: Seq<char>)
    ensures
        encode_utf8(a + b) == encode_utf8(a) + encode_utf8(b),
    decreases a.len(),
{
    if a.len() == 0 {
        assert(a + b =~= b);
        assert(encode_utf8(a) =~= Seq::<u8>::empty());
        assert(encode_utf8(a) + encode_utf8(b) =~= encode_utf8(b));
    } else {
        assert((a + b).drop_first() =~= a.drop_first() + b);
        assert((a + b)[0] == a[0]);
        lemma_encode_utf8_concat(a.drop_first(), b);
        assert(encode_utf8(a + b) =~= encode_utf8(a) + encode_utf8(b));
    }
}

/// The encoding of a single character is that character's scalar encoding.
pub proof fn lemma_encode_utf8_single(c: char)
    ensures
        encode_utf8(seq![c]) == encode_scalar(c as u32),
{
    assert(seq![c].drop_first() =~= Seq::<char>::empty());
    assert(encode_utf8(seq![c].drop_first()) =~= Seq::<u8>::empty());
    assert(encode_scalar(c as u32) + Seq::<u8>::empty() =~= encode_scalar(c as u32));
}

/// Encoding one more character of a prefix appends that character's encoding.
pub proof fn lemma_encode_utf8_take_next(s: Seq<char>, k: int)
    requires
        0 <= k < s.len(),
    ensures
        encode_utf8(s.take(k + 1)) == encode_utf8(s.take(k)) + encode_scalar(s[k] as u32),
{
    assert(s.take(k + 1) =~= s.take(k) + seq![s[k]]);
    lemma_encode_utf8_concat(s.take(k), seq![s[k]]);
    lemma_encode_utf8_single(s[k]);
}

/// The encoding of a prefix is a prefix of the encoding.
pub proof fn lemma_encode_utf8_split(s: Seq<char>, k: int)
    requires
        0 <= k <= s.len(),
    ensures
        encode_utf8(s) == encode_utf8(s.take(k)) + encode_utf8(s.skip(k)),
{
    assert(s =~= s.take(k) + s.skip(k));
    lemma_encode_utf8_concat(s.take(k), s.skip(k));
}

/// Decoding undoes encoding, so equal encodings come from equal text.
pub proof fn lemma_encode_utf8_injective(a: Seq<char>, b: Seq<char>)
    requires
        encode_utf8(a) == encode_utf8(b),
    ensures
        a == b,
{
    encode_utf8_decode_utf8(a);
    encode_utf8_decode_utf8(b);
}

/// The byte offset just after an encoded prefix is a character boundary.
pub proof fn lemma_boundary_after_prefix(a: Seq<char>, b: Seq<char>)
    ensures
        is_char_boundary(encode_utf8(a + b), encode_utf8(a).len() as int),
    decreases a.len(),
{
    let bytes = encode_utf8(a + b);
    encode_utf8_valid_utf8(a + b);
    if a.len() == 0 {
        assert(encode_utf8(a) =~= Seq::<u8>::empty());
    } else {
        let ab = a + b;
        assert(ab.drop_first() =~= a.drop_first() + b);
        assert(ab[0] == a[0]);
        encode_utf8_first_scalar(ab);
        let n = encode_scalar(ab[0] as u32).len() as int;
        assert(pop_first_scalar(bytes) =~= encode_utf8(a.drop_first() + b));
        lemma_boundary_after_prefix(a.drop_first(), b);
        assert(encode_utf8(a).len() == n + encode_utf8(a.drop_first()).len());
        lemma_encode_utf8_concat(a.drop_first(), b);
        lemma_encode_utf8_concat(a, b);
    }
}

/// Whether two strings hold the same text.
pub fn str_eq(a: &str, b: &str) -> (r: bool)
    ensures
        r == (a@ == b@),
{
    let x = a.as_bytes();
    let y = b.as_bytes();
    if x.len() != y.len() {
        return false;
    }
    let mut i: usize = 0;
    while i < x.len()
        invariant
            x@ == encode_utf8(a@),
            y@ == encode_utf8(b@),
            x@.len() == y@.len(),
            i <= x@.len(),
            forall|j: int| 0 <= j < i ==> x@[j] == y@[j],
        decreases x@.len() - i,
    {
        if x[i] != y[i] {
            return false;
        }
        i = i + 1;
    }
    proof {
        assert(x@ =~= y@);
        lemma_encode_utf8_injective(a@, b@);
    }
    true
}

/// `s` with every `c` at its end removed.
pub open spec fn strip_trailing(s: Seq<char>, c: char) -> Seq<char>
    decreases s.len(),
{
    if s.len() > 0 && s.last() == c {
        strip_trailing(s.drop_last(), c)
    } else {
        s
    }
}

/// `s` with every `c` at its start removed.
pub open spec fn strip_leading(s: Seq<char>, c: char) -> Seq<char>
    decreases s.len(),
{
    if s.len() > 0 && s[0] == c {
        strip_leading(s.drop_first(), c)
    } else {
        s
    }
}

/// The characters of `s`.
pub fn chars_of(s: &str) -> (r: Vec<char>)
    ensures
        r@ == s@,
{
    let mut it = s.chars();
    let mut r: Vec<char> = Vec::new();
    assert(s@.skip(0) =~= s@);
    loop
        invariant
            r@.len() <= s@.len(),
            r@ == s@.take(r@.len() as int),
            it.remaining() == s@.skip(r@.len() as int),
            it.obeys_prophetic_iter_laws(),
        decreases s@.len() - r@.len(),
    {
        match it.next() {
            None => {
                assert(s@.take(r@.len() as int) =~= s@);
                return r;
            },
            Some(c) => {
                proof {
                    assert(s@.skip(r@.len() as int).drop_first() =~= s@.skip(r@.len() + 1int));
                    assert(s@.take(r@.len() + 1int) =~= s@.take(r@.len() as int).push(c));
                }
                r.push(c);
            },
        }
    }
}

/// `needle` occurs in `hay` at character position `i`.
pub open spec fn occurs_at(hay: Seq<char>, needle: Seq<char>, i: int) -> bool {
    0 <= i && i + needle.len() <= hay.len() && hay.subrange(i, i + needle.len()) == needle
}

/// `needle` occurs somewhere in `hay`.
pub open spec fn is_substring(needle: Seq<char>, hay: Seq<char>) -> bool {
    exists|i: int| occurs_at(hay, needle, i)
}

/// Whether `needle` occurs in `hay`.
pub fn contains_str(hay: &str, needle: &str) -> (r: bool)
    ensures
        r == is_substring(needle@, hay@),
{
    let h = chars_of(hay);
    let n = chars_of(needle);
    if n.len() > h.len() {
        assert forall|i: int| !occurs_at(hay@, needle@, i) by {}
        return false;
    }
    let hl = h.len();
    let last = hl - n.len();
    let mut i: usize = 0;
    while i <= last
        invariant
            h@ == hay@,
            n@ == needle@,
            last == h@.len() - n@.len(),
            n@.len() <= h@.len(),
            hl == h@.len(),
            i <= last,
            forall|k: int| 0 <= k < i ==> !occurs_at(hay@, needle@, k),
        decreases last + 1 - i,
    {
        let mut j: usize = 0;
        let mut same = true;
        while j < n.len()
            invariant
                h@ == hay@,
                n@ == needle@,
                i <= last,
                last == h@.len() - n@.len(),
                n@.len() <= h@.len(),
                hl == h@.len(),
                j <= n@.len(),
                same <==> forall|t: int| 0 <= t < j ==> h@[i + t] == n@[t],
            decreases n@.len() - j,
        {
            if h[i + j] != n[j] {
                same = false;
            }
            j = j + 1;
        }
        if same {
            assert(hay@.subrange(i as int, i + needle@.len()) =~= needle@);
            assert(occurs_at(hay@, needle@, i as int));
            return true;
        }
        assert(!occurs_at(hay@, needle@, i as int)) by {
            let t = choose|t: int| 0 <= t < n@.len() && h@[i + t] != n@[t];
            if occurs_at(hay@, needle@, i as int) {
                assert(hay@.subrange(i as int, i + needle@.len())[t] == needle@[t]);
            }
        }
        if i == last {
            assert forall|k: int| !occurs_at(hay@, needle@, k) by {}
            return false;
        }
        i = i + 1;
    }
    assert forall|k: int| !occurs_at(hay@, needle@, k) by {}
    false
}

/// `s` without the `c`s at its end.
pub fn trim_end_char(s: &str, c: char) -> (r: &str)
    ensures
        r@ == strip_trailing(s@, c),
{
    let n = s.unicode_len();
    let mut j = n;
    assert(s@.take(n as int) =~= s@);
    while j > 0 && s.get_char(j - 1) == c
        invariant
            j <= n,
            n == s@.len(),
            strip_trailing(s@.take(j as int), c) == strip_trailing(s@, c),
        decreases j,
    {
        assert(s@.take(j as int).drop_last() =~= s@.take(j - 1));
        j = j - 1;
    }
    s.substring_char(0, j)
}

/// `s` without the `c`s at its start.
pub fn trim_start_char(s: &str, c: char) -> (r: &str)
    ensures
        r@ == strip_leading(s@, c),
{
    let n = s.unicode_len();
    let mut i: usize = 0;
    assert(s@.skip(0) =~= s@);
    while i < n && s.get_char(i) == c
        invariant
            i <= n,
            n == s@.len(),
            strip_leading(s@.skip(i as int), c) == strip_leading(s@, c),
        decreases n - i,
    {
        assert(s@.skip(i as int).drop_first() =~= s@.skip(i + 1));
        i = i + 1;
    }
    assert(s@.subrange(i as int, n as int) =~= s@.skip(i as int));
    s.substring_char(i, n)
}

/// The number of bytes in the UTF-8 encoding of `c`.
pub fn char_len_utf8(c: char) -> (n: usize)
    ensures
        n == encode_scalar(c as u32).len(),
        1 <= n <= 4,
{
    proof {
        char_is_scalar(c);
    }
    let u = c as u32;
    if u <= 0x7f {
        1
    } else if u <= 0x7ff {
        2
    } else if u <= 0xffff {
        3
    } else {
        4
    }
}

/// The byte offset of the first `pat` in `s`, or `None` where `s` has no `pat`.
pub fn find_char(s: &str, pat: char) -> (r: Option<usize>)
    ensures
        match r {
            Some(b) => first_occurrence(s@, pat) is Some && b == encode_utf8(
                s@.take(first_occurrence(s@, pat)->0),
            ).len(),
            None => !s@.contains(pat),
        },
{
    let bytes = s.as_bytes();
    let total = bytes.len();
    let mut it = s.chars();
    let mut b: usize = 0;
    let ghost mut k: int = 0;
    assert(s@.take(0) =~= Seq::<char>::empty());
    assert(s@.skip(0) =~= s@);
    loop
        invariant
            0 <= k <= s@.len(),
            it.remaining() == s@.skip(k),
            it.obeys_prophetic_iter_laws(),
            b == encode_utf8(s@.take(k)).len(),
            bytes@ == encode_utf8(s@),
            total == bytes@.len(),
            forall|j: int| 0 <= j < k ==> s@[j] != pat,
        decreases s@.len() - k,
    {
        let next = it.next();
        match next {
            None => {
                assert(s@.skip(k).len() == 0);
                assert forall|j: int| 0 <= j < s@.len() implies s@[j] != pat by {}
                return None;
            },
            Some(c) => {
                assert(c == s@[k]);
                if c == pat {
                    proof {
                        lemma_first_occurrence(s@, pat, k);
                    }
                    return Some(b);
                }
                let n = char_len_utf8(c);
                proof {
                    lemma_encode_utf8_take_next(s@, k);
                    lemma_encode_utf8_split(s@, k + 1);
                    assert(s@.skip(k).drop_first() =~= s@.skip(k + 1));
                }
                b = b + n;
                proof {
                    k = k + 1;
                }
            },
        }
    }
}

/// Calls `ToString::to_string` on a character: the one-character text.
#[verifier::external_body]
pub(crate) fn char_to_string(c: char) -> (r: String)
    ensures
        r@ == seq![c],
{
    c.to_string()
}

/// The decimal digit for `d < 10`.
pub open spec fn digit_char(d: nat) -> char {
    (48 + d) as char
}

/// The decimal digits of `n`, most significant first, with no leading zero.
pub open spec fn decimal(n: nat) -> Seq<char>
    decreases n,
{
    if n < 10 {
        seq![digit_char(n)]
    } else {
        decimal(n / 10).push(digit_char(n % 10))
    }
}

/// `n` in decimal.
pub fn decimal_string(n: usize) -> (r: String)
    ensures
        r@ == decimal(n as nat),
    decreases n,
{
    let d: u8 = (n % 10) as u8;
    let c = (48u8 + d) as char;
    if n < 10 {
        char_to_string(c)
    } else {
        let mut r = decimal_string(n / 10);
        let last = char_to_string(c);
        r.append(last.as_str());
        assert(r@ =~= decimal((n / 10) as nat).push(digit_char((n % 10) as nat)));
        r
    }
}

/// `count` spaces.
pub open spec fn spaces(count: nat) -> Seq<char> {
    Seq::new(count, |i: int| ' ')
}

/// `s` with spaces before it up to `width` characters; `s` itself where it
/// is that long already.
pub open spec fn pad_left(s: Seq<char>, width: nat) -> Seq<char> {
    if s.len() >= width {
        s
    } else {
        spaces((width - s.len()) as nat) + s
    }
}

/// `s` with spaces after it up to `width` characters; `s` itself where it
/// is that long already.
pub open spec fn pad_right(s: Seq<char>, width: nat) -> Seq<char> {
    if s.len() >= width {
        s
    } else {
        s + spaces((width - s.len()) as nat)
    }
}

/// A text of `count` spaces.
fn spaces_string(count: usize) -> (r: String)
    ensures
        r@ == spaces(count as nat),
{
    let space = char_to_string(' ');
    let mut r = String::new();
    let mut i: usize = 0;
    assert(r@ =~= spaces(0));
    while i < count
        invariant
            i <= count,
            r@ == spaces(i as nat),
            space@ == seq![' '],
        decreases count - i,
    {
        r.append(space.as_str());
        i = i + 1;
        assert(r@ =~= spaces(i as nat));
    }
    r
}

/// `s` right-aligned in `width` characters.
pub fn pad_left_string(s: &str, width: usize) -> (r: String)
    ensures
        r@ == pad_left(s@, width as nat),
{
    let len = s.unicode_len();
    if len >= width {
        s.to_owned()
    } else {
        let mut r = spaces_string(width - len);
        r.append(s);
        r
    }
}

/// `s` left-aligned in `width` characters.
pub fn pad_right_string(s: &str, width: usize) -> (r: String)
    ensures
        r@ == pad_right(s@, width as nat),
{
    let len = s.unicode_len();
    if len >= width {
        s.to_owned()
    } else {
        let mut r = s.to_owned();
        let fill = spaces_string(width - len);
        r.append(fill.as_str());
        r
    }
}

/// The texts of `lines` with a line feed between each two.
pub open spec fn joined_lines(lines: Seq<Seq<char>>) -> Seq<char>
    decreases lines.len(),
{
    if lines.len() == 0 {
        Seq::empty()
    } else if lines.len() == 1 {
        lines[0]
    } else {
        joined_lines(lines.drop_last()) + seq!['\n'] + lines.last()
    }
}

/// `lines` joined by line feeds.
pub fn join_lines(lines: &Vec<String>) -> (r: String)
    ensures
        r@ == joined_lines(lines@.map_values(|l: String| l@)),
{
    let newline = char_to_string('\n');
    let mut r = String::new();
    let ghost views = lines@.map_values(|l: String| l@);
    let mut i: usize = 0;
    assert(views.take(0) =~= Seq::<Seq<char>>::empty());
    while i < lines.len()
        invariant
            i <= lines@.len(),
            views == lines@.map_values(|l: String| l@),
            newline@ == seq!['\n'],
            r@ == joined_lines(views.take(i as int)),
        decreases lines@.len() - i,
    {
        assert(views.take(i + 1).drop_last() =~= views.take(i as int));
        assert(views.take(i + 1).last() == lines@[i as int]@);
        if i > 0 {
            r.append(newline.as_str());
        } else {
            assert(views.take(1) =~= seq![lines@[0]@]);
        }
        r.append(lines[i].as_str());
        i = i + 1;
    }
    assert(views.take(lines@.len() as int) =~= views);
    r
}

} // verus!
