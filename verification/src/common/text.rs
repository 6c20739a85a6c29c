//! Text: the order of strings, their bytes, and decimal numbers.

use std::cmp::Ordering;
use std::num::ParseIntError;

use vstd::prelude::*;
use vstd::string::*;
use vstd::utf8::*;

use crate::common::path;

verus! {

/// `a` and `b` agree below `i`, and at `i` the byte sequence `a` either ends or
/// holds the smaller byte.
pub open spec fn splits_at(a: Seq<u8>, b: Seq<u8>, i: int) -> bool {
    &&& 0 <= i < b.len()
    &&& i <= a.len()
    &&& forall|j: int| 0 <= j < i ==> a[j] == b[j]
    &&& (i == a.len() || a[i] < b[i])
}

/// Lexicographic order of byte sequences.
pub open spec fn bytes_lt(a: Seq<u8>, b: Seq<u8>) -> bool {
    exists|i: int| splits_at(a, b, i)
}

/// The order of strings: lexicographic over their UTF-8 bytes.
#[verifier::opaque]
pub open spec fn text_lt(a: Seq<char>, b: Seq<char>) -> bool {
    bytes_lt(encode_utf8(a), encode_utf8(b))
}

/// Different texts have different bytes.
pub proof fn lemma_encode_injective(a: Seq<char>, b: Seq<char>)
    requires
        encode_utf8(a) == encode_utf8(b),
    ensures
        a == b,
{
    encode_utf8_decode_utf8(a);
    encode_utf8_decode_utf8(b);
}

/// The length of a text is zero exactly when it has no bytes.
pub proof fn lemma_encode_empty(a: Seq<char>)
    ensures
        encode_utf8(a).len() == 0 <==> a.len() == 0,
{
    if encode_utf8(a).len() == 0 {
        assert(encode_utf8(a) =~= encode_utf8(Seq::<char>::empty()));
        lemma_encode_injective(a, Seq::<char>::empty());
    }
}

proof fn lemma_bytes_total_from(a: Seq<u8>, b: Seq<u8>, i: int)
    requires
        0 <= i <= a.len(),
        i <= b.len(),
        forall|j: int| 0 <= j < i ==> a[j] == b[j],
    ensures
        a == b || bytes_lt(a, b) || bytes_lt(b, a),
    decreases a.len() - i,
{
    if i == a.len() {
        if i == b.len() {
            assert(a =~= b);
        } else {
            assert(splits_at(a, b, i));
        }
    } else if i == b.len() {
        assert(splits_at(b, a, i));
    } else if a[i] == b[i] {
        lemma_bytes_total_from(a, b, i + 1);
    } else if a[i] < b[i] {
        assert(splits_at(a, b, i));
    } else {
        assert(splits_at(b, a, i));
    }
}

/// No text comes before itself.
pub broadcast proof fn lemma_text_irreflexive(a: Seq<char>)
    ensures
        !#[trigger] text_lt(a, a),
{
    reveal(text_lt);
}

/// The order of texts is transitive.
pub broadcast proof fn lemma_text_transitive(a: Seq<char>, b: Seq<char>, c: Seq<char>)
    requires
        #[trigger] text_lt(a, b),
        #[trigger] text_lt(b, c),
    ensures
        text_lt(a, c),
{
    reveal(text_lt);
    let (x, y, z) = (encode_utf8(a), encode_utf8(b), encode_utf8(c));
    let i = choose|i: int| splits_at(x, y, i);
    let j = choose|j: int| splits_at(y, z, j);
    let k = if i <= j { i } else { j };
    assert(splits_at(x, z, k));
}

/// Two texts are equal or one of them comes first.
pub proof fn lemma_text_total(a: Seq<char>, b: Seq<char>)
    ensures
        a == b || text_lt(a, b) || text_lt(b, a),
{
    reveal(text_lt);
    lemma_bytes_total_from(encode_utf8(a), encode_utf8(b), 0);
    if encode_utf8(a) == encode_utf8(b) {
        lemma_encode_injective(a, b);
    }
}

/// The first position at which two byte slices differ, or the length of the
/// shorter one.
fn common_prefix(a: &[u8], b: &[u8]) -> (n: usize)
    ensures
        n <= a@.len(),
        n <= b@.len(),
        forall|j: int| 0 <= j < n ==> a@[j] == b@[j],
        n < a@.len() && n < b@.len() ==> a@[n as int] != b@[n as int],
{
    let mut i: usize = 0;
    while i < a.len() && i < b.len() && a[i] == b[i]
        invariant
            i <= a@.len(),
            i <= b@.len(),
            forall|j: int| 0 <= j < i ==> a@[j] == b@[j],
        decreases a@.len() - i,
    {
        i += 1;
    }
    i
}

/// Whether `a` comes before `b`.
pub fn precedes(a: &str, b: &str) -> (r: bool)
    ensures
        r == text_lt(a@, b@),
{
    reveal(text_lt);
    let x = a.as_bytes();
    let y = b.as_bytes();
    let n: usize = common_prefix(x, y);
    if n < y.len() && (n == x.len() || x[n] < y[n]) {
        assert(splits_at(x@, y@, n as int));
        true
    } else {
        assert forall|i: int| !splits_at(x@, y@, i) by {
            if 0 <= i < n {
                assert(x@[i] == y@[i]);
            } else if i > n && splits_at(x@, y@, i) {
                assert(x@[n as int] == y@[n as int]);
            }
        }
        false
    }
}

/// Whether two strings are equal.
pub fn same(a: &str, b: &str) -> (r: bool)
    ensures
        r == (a@ == b@),
{
    let x = a.as_bytes();
    let y = b.as_bytes();
    let n: usize = common_prefix(x, y);
    if n == x.len() && n == y.len() {
        assert(x@ =~= y@);
        proof {
            lemma_encode_injective(a@, b@);
        }
        true
    } else {
        false
    }
}

/// Compares two strings.
pub fn compare(a: &str, b: &str) -> (o: Ordering)
    ensures
        o is Less <==> text_lt(a@, b@),
        o is Equal <==> a@ == b@,
        o is Greater <==> text_lt(b@, a@),
{
    proof {
        lemma_text_total(a@, b@);
        lemma_text_irreflexive(a@);
        if text_lt(a@, b@) && text_lt(b@, a@) {
            lemma_text_transitive(a@, b@, a@);
        }
    }
    if precedes(a, b) {
        Ordering::Less
    } else if precedes(b, a) {
        Ordering::Greater
    } else {
        Ordering::Equal
    }
}

/// The length of a string in bytes.
pub fn byte_len(s: &str) -> (n: usize)
    ensures
        n == encode_utf8(s@).len(),
{
    s.as_bytes().len()
}

/// `std::str::from_utf8`: `bytes` as a text when they are valid UTF-8, and an
/// error otherwise.
#[verifier::external_body]
pub(crate) fn from_utf8(bytes: &[u8]) -> (r: Option<&str>)
    ensures
        r is Some <==> valid_utf8(bytes@),
        r matches Some(s) ==> s@ == decode_utf8(bytes@),
{
    std::str::from_utf8(bytes).ok()
}

/// The text that `String::from_utf8_lossy` makes of bytes that are not valid
/// UTF-8.
pub uninterp spec fn lossy_text(bytes: Seq<u8>) -> Seq<char>;

/// The text that a reader takes from `bytes`: what they encode, with invalid
/// parts replaced.
pub open spec fn read_text(bytes: Seq<u8>) -> Seq<char> {
    if valid_utf8(bytes) {
        decode_utf8(bytes)
    } else {
        lossy_text(bytes)
    }
}

/// `String::from_utf8_lossy`: the text of `bytes` when they are valid UTF-8;
/// otherwise a text in which what is invalid has been replaced.
#[verifier::external_body]
pub(crate) fn from_utf8_lossy(bytes: &[u8]) -> (s: String)
    ensures
        valid_utf8(bytes@) ==> s@ == decode_utf8(bytes@),
        !valid_utf8(bytes@) ==> s@ == lossy_text(bytes@),
{
    String::from_utf8_lossy(bytes).to_string()
}

/// Reading back the bytes of a text gives that text.
pub proof fn lemma_read_encoded(s: Seq<char>)
    ensures
        valid_utf8(encode_utf8(s)),
        decode_utf8(encode_utf8(s)) == s,
        read_text(encode_utf8(s)) == s,
{
    encode_utf8_valid_utf8(s);
    encode_utf8_decode_utf8(s);
}

/// The character of a decimal digit.
pub open spec fn digit_char(d: nat) -> char {
    ('0' as nat + d) as char
}

/// The decimal notation of `n`.
pub open spec fn decimal_text(n: nat) -> Seq<char>
    decreases n,
{
    if n < 10 {
        seq![digit_char(n)]
    } else {
        decimal_text(n / 10).push(digit_char(n % 10))
    }
}

/// Whether `s` is made of decimal digits only.
pub open spec fn all_digits(s: Seq<char>) -> bool {
    forall|i: int| 0 <= i < s.len() ==> '0' <= #[trigger] s[i] <= '9'
}

/// The number that a sequence of digits denotes.
pub open spec fn digits_value(s: Seq<char>) -> nat
    decreases s.len(),
{
    if s.len() == 0 {
        0
    } else {
        digits_value(s.drop_last()) * 10 + (s.last() as nat - '0' as nat) as nat
    }
}

/// The digits of a number: the text without an optional leading `+`.
pub open spec fn unsigned_digits(s: Seq<char>) -> Seq<char> {
    if s.len() > 0 && s[0] == '+' {
        s.drop_first()
    } else {
        s
    }
}

/// The number that `s` denotes, if it is an optional `+` followed by at least
/// one digit and nothing else, and at most `max`.
pub open spec fn parsed_number(s: Seq<char>, max: nat) -> Option<nat> {
    let digits = unsigned_digits(s);
    if digits.len() > 0 && all_digits(digits) && digits_value(digits) <= max {
        Some(digits_value(digits))
    } else {
        None
    }
}

fn digit(d: u64) -> (s: &'static str)
    requires
        d < 10,
    ensures
        s@ == seq![digit_char(d as nat)],
{
    proof {
        reveal_strlit("0");
        reveal_strlit("1");
        reveal_strlit("2");
        reveal_strlit("3");
        reveal_strlit("4");
        reveal_strlit("5");
        reveal_strlit("6");
        reveal_strlit("7");
        reveal_strlit("8");
        reveal_strlit("9");
    }
    let s = match d {
        0 => "0",
        1 => "1",
        2 => "2",
        3 => "3",
        4 => "4",
        5 => "5",
        6 => "6",
        7 => "7",
        8 => "8",
        _ => "9",
    };
    assert(s@ =~= seq![digit_char(d as nat)]);
    s
}

/// Writes a number in decimal.
pub fn decimal(n: u64) -> (s: String)
    ensures
        s@ == decimal_text(n as nat),
    decreases n,
{
    if n < 10 {
        digit(n).to_owned()
    } else {
        let mut s = decimal(n / 10);
        s.append(digit(n % 10));
        assert(s@ =~= decimal_text((n / 10) as nat).push(digit_char((n % 10) as nat)));
        s
    }
}

/// The characters of a string.
pub fn chars_of(s: &str) -> (v: Vec<char>)
    ensures
        v@ == s@,
{
    let mut v: Vec<char> = Vec::new();
    for c in it: s.chars()
        invariant
            v@ == it.seq().take(it.index() as int),
            it.seq() == s@,
    {
        v.push(c);
        assert(it.seq().take(it.index() as int + 1) =~= it.seq().take(it.index() as int).push(c));
    }
    assert(s@.take(s@.len() as int) =~= s@);
    v
}

/// The value of more digits is larger.
proof fn lemma_digits_prefix(s: Seq<char>, i: int)
    requires
        all_digits(s),
        0 <= i <= s.len(),
    ensures
        digits_value(s.take(i)) <= digits_value(s),
    decreases s.len(),
{
    if i < s.len() {
        lemma_digits_prefix(s.drop_last(), i);
        assert(s.drop_last().take(i) =~= s.take(i));
    } else {
        assert(s.take(i) =~= s);
    }
}

/// Reads `chars[from..to]` as a number of at most `max`.
pub fn parse_chars(chars: &Vec<char>, from: usize, to: usize, max: u64) -> (r: Option<u64>)
    requires
        from <= to <= chars@.len(),
    ensures
        r is Some <==> parsed_number(chars@.subrange(from as int, to as int), max as nat) is Some,
        r matches Some(n) ==> parsed_number(chars@.subrange(from as int, to as int), max as nat)
            == Some(n as nat),
{
    let ghost s = chars@.subrange(from as int, to as int);
    let ghost ds = unsigned_digits(s);
    let start: usize = if from < to && chars[from] == '+' {
        from + 1
    } else {
        from
    };
    assert(ds =~= chars@.subrange(start as int, to as int));
    if start == to {
        return None;
    }
    let mut i: usize = start;
    let mut n: u64 = 0;
    assert(ds.take(0) =~= Seq::<char>::empty());
    while i < to
        invariant
            start <= i <= to <= chars@.len(),
            ds == chars@.subrange(start as int, to as int),
            ds == unsigned_digits(chars@.subrange(from as int, to as int)),
            all_digits(ds.take(i - start)),
            n == digits_value(ds.take(i - start)),
            n <= max,
        decreases to - i,
    {
        let c = chars[i];
        assert(ds[i - start] == c);
        if c < '0' || c > '9' {
            return None;
        }
        let d: u64 = (c as u32 - '0' as u32) as u64;
        let ghost p = ds.take(i - start);
        let ghost q = ds.take(i - start + 1);
        assert(q.drop_last() =~= p);
        assert(all_digits(q));
        assert(digits_value(q) == n * 10 + d);
        if n > (u64::MAX - d) / 10 || n * 10 + d > max {
            proof {
                assert(digits_value(q) > max);
                if all_digits(ds) {
                    lemma_digits_prefix(ds, i - start + 1);
                }
            }
            return None;
        }
        n = n * 10 + d;
        i += 1;
    }
    assert(ds.take(to - start) =~= ds);
    Some(n)
}

/// Reads a number of at most `max` in decimal.
pub fn parse_decimal(s: &str, max: u64) -> (r: Option<u64>)
    ensures
        r is Some <==> parsed_number(s@, max as nat) is Some,
        r matches Some(n) ==> parsed_number(s@, max as nat) == Some(n as nat),
{
    let chars = chars_of(s);
    assert(chars@.subrange(0, chars@.len() as int) =~= s@);
    parse_chars(&chars, 0, chars.len(), max)
}

/// The error of `str::parse` for `u64` on a text that is no such number. Nothing is
/// claimed of what it says.
#[verifier::external_body]
fn parse_error(s: &str) -> (e: ParseIntError)
    requires
        parsed_number(s@, u64::MAX as nat) is None,
{
    s.parse::<u64>().unwrap_err()
}

/// Reads a number in decimal.
pub(crate) fn parse_u64(s: &str) -> (r: Result<u64, ParseIntError>)
    ensures
        r is Ok <==> parsed_number(s@, u64::MAX as nat) is Some,
        r matches Ok(n) ==> parsed_number(s@, u64::MAX as nat) == Some(n as nat),
{
    match parse_decimal(s, u64::MAX) {
        Some(n) => Ok(n),
        None => Err(parse_error(s)),
    }
}

/// The decimal notation of a number is made of digits and denotes that number.
pub proof fn lemma_decimal_digits(n: nat)
    ensures
        decimal_text(n).len() > 0,
        all_digits(decimal_text(n)),
        digits_value(decimal_text(n)) == n,
    decreases n,
{
    if n < 10 {
        let s = decimal_text(n);
        assert(s.drop_last() =~= Seq::<char>::empty());
        assert(digits_value(s.drop_last()) == 0);
    } else {
        lemma_decimal_digits(n / 10);
        let s = decimal_text(n);
        assert(s.drop_last() =~= decimal_text(n / 10));
    }
}

/// The decimal notation of a number is a plain file name.
pub proof fn lemma_decimal_plain(n: nat)
    ensures
        path::plain_name(decimal_text(n)),
{
    lemma_decimal_digits(n);
    let s = decimal_text(n);
    assert('0' <= s[s.len() - 1] <= '9');
    assert forall|i: int| 0 <= i < s.len() implies #[trigger] s[i] != '/' by {
        assert('0' <= s[i] <= '9');
    }
}

/// What is written in decimal is read back as the same number.
pub proof fn law_decimal_round_trip(n: nat, max: nat)
    requires
        n <= max,
    ensures
        parsed_number(decimal_text(n), max) == Some(n),
{
    lemma_decimal_digits(n);
    let s = decimal_text(n);
    assert('0' <= s[0] <= '9');
    assert(unsigned_digits(s) == s);
}

/// One text comes before another exactly when their bytes agree up to a place where
/// the first one ends, or has the smaller byte.
pub proof fn law_text_order(a: Seq<char>, b: Seq<char>)
    ensures
        text_lt(a, b) <==> exists|i: int|
            {
                &&& 0 <= i < encode_utf8(b).len()
                &&& i <= encode_utf8(a).len()
                &&& #[trigger] encode_utf8(a).take(i) == encode_utf8(b).take(i)
                &&& i == encode_utf8(a).len() || encode_utf8(a)[i] < encode_utf8(b)[i]
            },
{
    reveal(text_lt);
    let (x, y) = (encode_utf8(a), encode_utf8(b));
    if text_lt(a, b) {
        let i = choose|i: int| splits_at(x, y, i);
        assert(x.take(i) =~= y.take(i));
    }
    assert forall|i: int|
        0 <= i < y.len() && i <= x.len() && #[trigger] x.take(i) == y.take(i) && (i == x.len()
            || x[i] < y[i]) implies text_lt(a, b) by {
        assert forall|j: int| 0 <= j < i implies x[j] == y[j] by {
            assert(x.take(i)[j] == y.take(i)[j]);
        }
        assert(splits_at(x, y, i));
    }
}

/// The decimal notation of a number ends with its last digit, behind the notation of the
/// others if there are any.
pub proof fn law_decimal_digits(n: nat, d: nat)
    requires
        d < 10,
    ensures
        decimal_text(d) == seq![('0' as nat + d) as char],
        n > 0 ==> decimal_text(10 * n + d) == decimal_text(n).push(('0' as nat + d) as char),
{
}

} // verus!
