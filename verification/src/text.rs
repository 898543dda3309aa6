//! Character-level string helpers: lexicographic order, equality against
//! literals, and building strings out of pieces.

use vstd::prelude::*;

verus! {

/// Three-way comparison outcome.
#[derive(Clone, Copy, Debug, PartialEq, Eq, Structural)]
pub enum Comparison {
    Less,
    Equal,
    Greater,
}

/// Lexicographic `<=` on character sequences, characters compared by code point —
/// the order `str`'s `Ord` gives, since UTF-8 preserves code-point order.
pub open spec fn seq_lex_le(a: Seq<char>, b: Seq<char>) -> bool
    decreases a.len(),
{
    if a.len() == 0 {
        true
    } else if b.len() == 0 {
        false
    } else if (a[0] as u32) < (b[0] as u32) {
        true
    } else if a[0] == b[0] {
        seq_lex_le(a.drop_first(), b.drop_first())
    } else {
        false
    }
}

/// Strict lexicographic order.
pub open spec fn seq_lex_lt(a: Seq<char>, b: Seq<char>) -> bool {
    seq_lex_le(a, b) && a != b
}

/// The comparison outcome the lexicographic order gives.
pub open spec fn seq_compare(a: Seq<char>, b: Seq<char>) -> Comparison {
    if a == b {
        Comparison::Equal
    } else if seq_lex_le(a, b) {
        Comparison::Less
    } else {
        Comparison::Greater
    }
}

pub proof fn lemma_lex_reflexive(a: Seq<char>)
    ensures
        seq_lex_le(a, a),
    decreases a.len(),
{
    if a.len() > 0 {
        lemma_lex_reflexive(a.drop_first());
    }
}

pub proof fn lemma_lex_total(a: Seq<char>, b: Seq<char>)
    ensures
        seq_lex_le(a, b) || seq_lex_le(b, a),
    decreases a.len(),
{
    if a.len() > 0 && b.len() > 0 {
        if a[0] == b[0] {
            lemma_lex_total(a.drop_first(), b.drop_first());
        } else {
            lemma_char_code_injective(a[0], b[0]);
        }
    }
}

/// Distinct characters have distinct code points.
pub proof fn lemma_char_code_injective(x: char, y: char)
    requires
        x != y,
    ensures
        (x as u32) != (y as u32),
{
    broadcast use vstd::utf8::char_u32_cast;
    assert((x as u32) as char == x);
}

pub proof fn lemma_lex_antisymmetric(a: Seq<char>, b: Seq<char>)
    requires
        seq_lex_le(a, b),
        seq_lex_le(b, a),
    ensures
        a == b,
    decreases a.len(),
{
    if a.len() > 0 && b.len() > 0 {
        lemma_lex_antisymmetric(a.drop_first(), b.drop_first());
        assert(a =~= seq![a[0]] + a.drop_first());
        assert(b =~= seq![b[0]] + b.drop_first());
    } else {
        assert(a =~= b);
    }
}

pub proof fn lemma_lex_transitive(a: Seq<char>, b: Seq<char>, c: Seq<char>)
    requires
        seq_lex_le(a, b),
        seq_lex_le(b, c),
    ensures
        seq_lex_le(a, c),
    decreases a.len(),
{
    if a.len() > 0 && b.len() > 0 && c.len() > 0 && a[0] == b[0] && b[0] == c[0] {
        lemma_lex_transitive(a.drop_first(), b.drop_first(), c.drop_first());
    }
}

/// Compares two strings in the lexicographic order of their characters.
pub fn compare_str(a: &str, b: &str) -> (r: Comparison)
    ensures
        r == seq_compare(a@, b@),
{
    let n = a.unicode_len();
    let m = b.unicode_len();
    let mut i: usize = 0;
    proof {
        assert(a@.skip(0) =~= a@);
        assert(b@.skip(0) =~= b@);
    }
    while i < n && i < m
        invariant
            n == a@.len(),
            m == b@.len(),
            i <= n,
            i <= m,
            a@.subrange(0, i as int) == b@.subrange(0, i as int),
            seq_lex_le(a@, b@) == seq_lex_le(a@.skip(i as int), b@.skip(i as int)),
        decreases n - i,
    {
        let ca = a.get_char(i);
        let cb = b.get_char(i);
        if ca != cb {
            proof {
                assert(a@ != b@) by {
                    if a@ == b@ {
                        assert(a@[i as int] == b@[i as int]);
                    }
                }
            }
            if (ca as u32) < (cb as u32) {
                return Comparison::Less;
            } else {
                return Comparison::Greater;
            }
        }
        proof {
            assert(a@.skip(i as int).drop_first() =~= a@.skip(i + 1));
            assert(b@.skip(i as int).drop_first() =~= b@.skip(i + 1));
            assert(a@.subrange(0, i + 1) =~= a@.subrange(0, i as int).push(ca));
            assert(b@.subrange(0, i + 1) =~= b@.subrange(0, i as int).push(cb));
        }
        i = i + 1;
    }
    if n == m {
        proof {
            assert(a@ =~= a@.subrange(0, i as int));
            assert(b@ =~= b@.subrange(0, i as int));
        }
        Comparison::Equal
    } else if n < m {
        proof {
            assert(a@.skip(i as int).len() == 0);
            assert(a@ != b@);
        }
        Comparison::Less
    } else {
        proof {
            assert(b@.skip(i as int).len() == 0);
            assert(a@.skip(i as int).len() > 0);
            assert(a@ != b@);
        }
        Comparison::Greater
    }
}

/// Whether two strings hold the same characters.
pub fn str_eq(a: &str, b: &str) -> (r: bool)
    ensures
        r == (a@ == b@),
{
    compare_str(a, b) == Comparison::Equal
}

/// A fresh string holding `s`'s characters.
pub fn owned(s: &str) -> (r: String)
    ensures
        r@ == s@,
{
    s.to_owned()
}

/// `a` followed by `b`.
pub fn join2(a: &str, b: &str) -> (r: String)
    ensures
        r@ == a@ + b@,
{
    let mut s = a.to_owned();
    s.append(b);
    s
}

/// `a`, `b` and `c`, in order.
pub fn join3(a: &str, b: &str, c: &str) -> (r: String)
    ensures
        r@ == a@ + b@ + c@,
{
    let mut s = a.to_owned();
    s.append(b);
    s.append(c);
    s
}

/// Unicode `White_Space`, the set `char::is_whitespace` tests.
pub open spec fn is_white_space(c: char) -> bool {
    let u = c as u32;
    (0x9 <= u <= 0xd) || u == 0x20 || u == 0x85 || u == 0xa0 || u == 0x1680 || (0x2000 <= u
        <= 0x200a) || u == 0x2028 || u == 0x2029 || u == 0x202f || u == 0x205f || u == 0x3000
}

pub fn white_space(c: char) -> (r: bool)
    ensures
        r == is_white_space(c),
{
    let u = c as u32;
    (0x9 <= u && u <= 0xd) || u == 0x20 || u == 0x85 || u == 0xa0 || u == 0x1680 || (0x2000 <= u
        && u <= 0x200a) || u == 0x2028 || u == 0x2029 || u == 0x202f || u == 0x205f || u == 0x3000
}

/// `s` without leading and trailing white space, as `str::trim` gives it: the
/// characters from the first non-white-space one to the last.
#[verifier::opaque]
pub open spec fn trimmed(s: Seq<char>) -> Seq<char> {
    if forall|i: int| 0 <= i < s.len() ==> is_white_space(#[trigger] s[i]) {
        Seq::empty()
    } else {
        let a = choose|a: int|
            0 <= a < s.len() && !is_white_space(s[a]) && forall|k: int|
                0 <= k < a ==> is_white_space(#[trigger] s[k]);
        let b = choose|b: int|
            0 <= b < s.len() && !is_white_space(s[b]) && forall|k: int|
                b < k < s.len() ==> is_white_space(#[trigger] s[k]);
        s.subrange(a, b + 1)
    }
}

/// `s` without trailing white space, as `str::trim_end` gives it.
#[verifier::opaque]
pub open spec fn trimmed_end(s: Seq<char>) -> Seq<char> {
    if forall|i: int| 0 <= i < s.len() ==> is_white_space(#[trigger] s[i]) {
        Seq::empty()
    } else {
        let b = choose|b: int|
            0 <= b < s.len() && !is_white_space(s[b]) && forall|k: int|
                b < k < s.len() ==> is_white_space(#[trigger] s[k]);
        s.subrange(0, b + 1)
    }
}

/// The last index `< end` holding a non-white-space character, if any.
fn last_non_space(s: &str, end: usize) -> (r: Option<usize>)
    requires
        end <= s@.len(),
    ensures
        match r {
            Some(b) => b < end && !is_white_space(s@[b as int]) && forall|k: int|
                b < k < end ==> is_white_space(#[trigger] s@[k]),
            None => forall|k: int| 0 <= k < end ==> is_white_space(#[trigger] s@[k]),
        },
{
    let mut j = end;
    while j > 0
        invariant
            j <= end <= s@.len(),
            forall|k: int| j <= k < end ==> is_white_space(#[trigger] s@[k]),
        decreases j,
    {
        if !white_space(s.get_char(j - 1)) {
            return Some(j - 1);
        }
        j = j - 1;
    }
    None
}

/// `str::trim`.
pub fn trim(s: &str) -> (r: String)
    ensures
        r@ == trimmed(s@),
{
    reveal(trimmed);
    let n = s.unicode_len();
    let mut a: usize = 0;
    while a < n && white_space(s.get_char(a))
        invariant
            n == s@.len(),
            a <= n,
            forall|k: int| 0 <= k < a ==> is_white_space(#[trigger] s@[k]),
        decreases n - a,
    {
        a = a + 1;
    }
    if a == n {
        return String::new();
    }
    let b = last_non_space(s, n).unwrap();
    proof {
        let sa = choose|x: int|
            0 <= x < s@.len() && !is_white_space(s@[x]) && forall|k: int|
                0 <= k < x ==> is_white_space(#[trigger] s@[k]);
        let sb = choose|x: int|
            0 <= x < s@.len() && !is_white_space(s@[x]) && forall|k: int|
                x < k < s@.len() ==> is_white_space(#[trigger] s@[k]);
        assert(!is_white_space(s@[a as int]));
        assert(sa == a) by {
            if sa < a {
                assert(is_white_space(s@[sa]));
            }
            if sa > a {
                assert(is_white_space(s@[a as int]));
            }
        }
        assert(sb == b) by {
            if sb < b {
                assert(is_white_space(s@[b as int]));
            }
            if sb > b {
                assert(is_white_space(s@[sb]));
            }
        }
        assert(a <= b) by {
            if b < a {
                assert(is_white_space(s@[b as int]));
            }
        }
    }
    s.substring_char(a, b + 1).to_owned()
}

/// `str::trim_end`.
pub fn trim_end(s: &str) -> (r: String)
    ensures
        r@ == trimmed_end(s@),
{
    reveal(trimmed_end);
    let n = s.unicode_len();
    match last_non_space(s, n) {
        None => String::new(),
        Some(b) => {
            proof {
                let sb = choose|x: int|
                    0 <= x < s@.len() && !is_white_space(s@[x]) && forall|k: int|
                        x < k < s@.len() ==> is_white_space(#[trigger] s@[k]);
                assert(sb == b) by {
                    if sb < b {
                        assert(is_white_space(s@[b as int]));
                    }
                    if sb > b {
                        assert(is_white_space(s@[sb]));
                    }
                }
            }
            s.substring_char(0, b + 1).to_owned()
        },
    }
}

/// What `String::from_utf8_lossy` makes of a byte sequence: every maximal
/// ill-formed subsequence becomes one U+FFFD. Only this name is used; where the
/// bytes are valid UTF-8 it is their decoding.
pub uninterp spec fn utf8_lossy(bytes: Seq<u8>) -> Seq<char>;

/// `String::from_utf8_lossy`, owned.
#[verifier::external_body]
pub fn lossy_text(bytes: &[u8]) -> (r: String)
    ensures
        r@ == utf8_lossy(bytes@),
        vstd::utf8::valid_utf8(bytes@) ==> r@ == vstd::utf8::decode_utf8(bytes@),
{
    String::from_utf8_lossy(bytes).into_owned()
}

/// `std::str::from_utf8`: the decoded text when the bytes are valid UTF-8.
#[verifier::external_body]
pub fn utf8_text(bytes: &[u8]) -> (r: Option<String>)
    ensures
        r is Some <==> vstd::utf8::valid_utf8(bytes@),
        r matches Some(t) ==> t@ == vstd::utf8::decode_utf8(bytes@),
{
    std::str::from_utf8(bytes).ok().map(|s| s.to_string())
}

/// The strings of `parts`, each followed by `sep` but the last.
pub open spec fn joined(parts: Seq<Seq<char>>, sep: Seq<char>) -> Seq<char>
    decreases parts.len(),
{
    if parts.len() == 0 {
        Seq::empty()
    } else if parts.len() == 1 {
        parts[0]
    } else {
        joined(parts.drop_last(), sep) + sep + parts.last()
    }
}

/// The views of a sequence of strings.
pub open spec fn views(s: Seq<String>) -> Seq<Seq<char>> {
    s.map_values(|x: String| x@)
}

/// `parts.join(sep)`.
pub fn join(parts: &Vec<String>, sep: &str) -> (r: String)
    ensures
        r@ == joined(views(parts@), sep@),
{
    let mut out = String::new();
    let mut i: usize = 0;
    while i < parts.len()
        invariant
            i <= parts@.len(),
            out@ == joined(views(parts@.take(i as int)), sep@),
        decreases parts@.len() - i,
    {
        proof {
            assert(views(parts@.take(i + 1)).drop_last() =~= views(parts@.take(i as int)));
            assert(views(parts@.take(i + 1)).last() == parts@[i as int]@);
        }
        if i > 0 {
            out.append(sep);
        } else {
            proof {
                assert(views(parts@.take(0)) =~= Seq::<Seq<char>>::empty());
                assert(out@ =~= Seq::<char>::empty());
            }
        }
        out.append(parts[i].as_str());
        proof {
            if i == 0 {
                assert(out@ =~= parts@[0]@);
            }
        }
        i = i + 1;
    }
    proof {
        assert(parts@.take(parts@.len() as int) =~= parts@);
    }
    out
}

pub open spec fn is_digit(c: char) -> bool {
    '0' <= c <= '9'
}

/// The decimal value of a run of ASCII digits.
pub open spec fn decimal_value(d: Seq<char>) -> int
    decreases d.len(),
{
    if d.len() == 0 {
        0
    } else {
        decimal_value(d.drop_last()) * 10 + ((d.last() as u32) - ('0' as u32))
    }
}

/// The digit run of an unsigned literal: the text after an optional leading `+`.
pub open spec fn unsigned_digits(s: Seq<char>) -> Seq<char> {
    if s.len() > 0 && s[0] == '+' {
        s.drop_first()
    } else {
        s
    }
}

/// A non-empty run of ASCII digits whose value is at most `max`.
pub open spec fn parse_digit_run(d: Seq<char>, max: int) -> Option<int> {
    if d.len() == 0 || !(forall|i: int| 0 <= i < d.len() ==> is_digit(#[trigger] d[i])) {
        None
    } else if decimal_value(d) > max {
        None
    } else {
        Some(decimal_value(d))
    }
}

/// What `<unsigned integer>::from_str` accepts: an optional `+`, then at least one
/// ASCII digit, with a value no larger than `max`.
pub open spec fn parse_unsigned(s: Seq<char>, max: int) -> Option<int> {
    parse_digit_run(unsigned_digits(s), max)
}

/// A parsed value lies between zero and the bound.
pub proof fn lemma_parse_unsigned_range(s: Seq<char>, max: int)
    ensures
        parse_unsigned(s, max) matches Some(v) ==> 0 <= v <= max,
{
    let d = unsigned_digits(s);
    if parse_unsigned(s, max) is Some {
        lemma_decimal_nonneg(d);
    }
}

proof fn lemma_decimal_nonneg(d: Seq<char>)
    requires
        forall|i: int| 0 <= i < d.len() ==> is_digit(#[trigger] d[i]),
    ensures
        decimal_value(d) >= 0,
    decreases d.len(),
{
    if d.len() > 0 {
        lemma_decimal_nonneg(d.drop_last());
    }
}

proof fn lemma_decimal_prefix_le(d: Seq<char>, k: int)
    requires
        0 <= k <= d.len(),
        forall|i: int| 0 <= i < d.len() ==> is_digit(#[trigger] d[i]),
    ensures
        decimal_value(d.take(k)) <= decimal_value(d),
    decreases d.len() - k,
{
    if k < d.len() {
        lemma_decimal_prefix_le(d, k + 1);
        assert(d.take(k + 1).drop_last() =~= d.take(k));
        lemma_decimal_nonneg(d.take(k));
    } else {
        assert(d.take(k) =~= d);
    }
}

/// Parses an unsigned decimal the way `str::parse` does for an unsigned type whose
/// largest value is `max`.
pub fn parse_unsigned_str(s: &str, max: u64) -> (r: Option<u64>)
    ensures
        match parse_unsigned(s@, max as int) {
            Some(v) => r is Some && r->0 as int == v,
            None => r is None,
        },
{
    let n = s.unicode_len();
    let mut i: usize = 0;
    if n > 0 && s.get_char(0) == '+' {
        i = 1;
    }
    let start = i;
    let ghost d = unsigned_digits(s@);
    proof {
        assert(d =~= s@.skip(start as int));
    }
    if start == n {
        return None;
    }
    let mut acc: u64 = 0;
    while i < n
        invariant
            n == s@.len(),
            d == unsigned_digits(s@),
            d =~= s@.skip(start as int),
            start <= i <= n,
            start < n,
            forall|k: int| 0 <= k < i - start ==> is_digit(#[trigger] d[k]),
            acc as int == decimal_value(d.take(i - start)),
            acc <= max,
        decreases n - i,
    {
        let c = s.get_char(i);
        if !('0' <= c && c <= '9') {
            proof {
                assert(!is_digit(d[i - start]));
                assert(parse_digit_run(d, max as int) is None);
            }
            return None;
        }
        let digit = (c as u32) - ('0' as u32);
        let next: u128 = (acc as u128) * 10 + (digit as u128);
        proof {
            assert(d.take(i - start + 1).drop_last() =~= d.take(i - start));
            assert(d.take(i - start + 1).last() == c);
        }
        if next > max as u128 {
            proof {
                let k = i - start + 1;
                assert forall|j: int| 0 <= j < d.len() implies is_digit(#[trigger] d[j]) || j >= k
                    by {}
                // a prefix already exceeds the bound: either a later non-digit or the
                // whole value is too large
                if forall|j: int| 0 <= j < d.len() ==> is_digit(#[trigger] d[j]) {
                    lemma_decimal_prefix_le(d, k);
                    assert(decimal_value(d.take(k)) == next);
                }
                assert(parse_digit_run(d, max as int) is None);
            }
            return None;
        }
        acc = next as u64;
        i = i + 1;
    }
    proof {
        assert(d.take(i - start) =~= d);
    }
    Some(acc)
}

/// The first position of `sep` in `s`, if any.
pub open spec fn first_index<T>(s: Seq<T>, sep: T) -> Option<int> {
    if exists|k: int| 0 <= k < s.len() && s[k] == sep {
        Some(
            choose|k: int|
                0 <= k < s.len() && s[k] == sep && forall|j: int|
                    0 <= j < k ==> #[trigger] s[j] != sep,
        )
    } else {
        None
    }
}

pub proof fn lemma_first_index<T>(s: Seq<T>, sep: T)
    ensures
        match first_index(s, sep) {
            Some(k) => 0 <= k < s.len() && s[k] == sep && forall|j: int|
                0 <= j < k ==> #[trigger] s[j] != sep,
            None => forall|j: int| 0 <= j < s.len() ==> #[trigger] s[j] != sep,
        },
{
    if exists|k: int| 0 <= k < s.len() && s[k] == sep {
        let w = choose|k: int| 0 <= k < s.len() && s[k] == sep;
        lemma_least_index(s, sep, w);
    }
}

pub proof fn lemma_least_index<T>(s: Seq<T>, sep: T, w: int)
    requires
        0 <= w < s.len(),
        s[w] == sep,
    ensures
        exists|k: int|
            0 <= k < s.len() && s[k] == sep && forall|j: int| 0 <= j < k ==> #[trigger] s[j] != sep,
    decreases w,
{
    if exists|j: int| 0 <= j < w && s[j] == sep {
        let j = choose|j: int| 0 <= j < w && s[j] == sep;
        lemma_least_index(s, sep, j);
    } else {
        assert(forall|j: int| 0 <= j < w ==> #[trigger] s[j] != sep);
    }
}

/// `s` split at every occurrence of `sep`, as slice and `str` splitting give it: one
/// more piece than there are separators, empty pieces included.
#[verifier::opaque]
pub open spec fn split_seq<T>(s: Seq<T>, sep: T) -> Seq<Seq<T>>
    decreases s.len(),
{
    match first_index(s, sep) {
        Some(k) => if 0 <= k < s.len() {
            seq![s.take(k)] + split_seq(s.skip(k + 1), sep)
        } else {
            seq![s]
        },
        None => seq![s],
    }
}

/// Splitting at a separator found after a separator-free stretch.
pub proof fn lemma_split_step<T>(s: Seq<T>, start: int, i: int, sep: T)
    requires
        0 <= start <= i < s.len(),
        s[i] == sep,
        forall|j: int| start <= j < i ==> #[trigger] s[j] != sep,
    ensures
        split_seq(s.skip(start), sep) == seq![s.subrange(start, i)] + split_seq(s.skip(i + 1), sep),
{
    reveal(split_seq);
    let rest = s.skip(start);
    lemma_first_index(rest, sep);
    assert(rest[i - start] == sep);
    let k = first_index(rest, sep)->0;
    assert(k == i - start) by {
        if k < i - start {
            assert(rest[k] == s[start + k]);
        }
    }
    assert(rest.take(k) =~= s.subrange(start, i));
    assert(rest.skip(k + 1) =~= s.skip(i + 1));
}

/// A separator-free tail is one last piece.
pub proof fn lemma_split_last<T>(s: Seq<T>, start: int, sep: T)
    requires
        0 <= start <= s.len(),
        forall|j: int| start <= j < s.len() ==> #[trigger] s[j] != sep,
    ensures
        split_seq(s.skip(start), sep) == seq![s.skip(start)],
{
    reveal(split_seq);
    let rest = s.skip(start);
    lemma_first_index(rest, sep);
    assert forall|j: int| 0 <= j < rest.len() implies #[trigger] rest[j] != sep by {
        assert(rest[j] == s[start + j]);
    }
}

/// Splitting always yields at least one piece.
pub proof fn lemma_split_nonempty<T>(s: Seq<T>, sep: T)
    ensures
        split_seq(s, sep).len() >= 1,
{
    reveal(split_seq);
}

/// The pieces of `s` between occurrences of `sep`.
pub fn split_on_char(s: &str, sep: char) -> (r: Vec<String>)
    ensures
        views(r@) == split_seq(s@, sep),
{
    let n = s.unicode_len();
    let mut out: Vec<String> = Vec::new();
    let mut start: usize = 0;
    let mut i: usize = 0;
    proof {
        assert(s@.skip(0) =~= s@);
        assert(views(out@) =~= Seq::<Seq<char>>::empty());
    }
    while i < n
        invariant
            n == s@.len(),
            start <= i <= n,
            forall|j: int| start <= j < i ==> #[trigger] s@[j] != sep,
            split_seq(s@, sep) == views(out@) + split_seq(s@.skip(start as int), sep),
        decreases n - i,
    {
        if s.get_char(i) == sep {
            let piece = s.substring_char(start, i).to_owned();
            proof {
                lemma_split_step(s@, start as int, i as int, sep);
                assert(views(out@.push(piece)) =~= views(out@).push(piece@));
                assert(views(out@) + (seq![piece@] + split_seq(s@.skip(i + 1), sep)) =~= views(
                    out@,
                ).push(piece@) + split_seq(s@.skip(i + 1), sep));
            }
            out.push(piece);
            start = i + 1;
        }
        i = i + 1;
    }
    let piece = s.substring_char(start, n).to_owned();
    proof {
        lemma_split_last(s@, start as int, sep);
        assert(s@.skip(start as int) =~= piece@);
        assert(views(out@.push(piece)) =~= views(out@).push(piece@));
        assert(views(out@) + seq![piece@] =~= views(out@).push(piece@));
    }
    out.push(piece);
    out
}

} // verus!
