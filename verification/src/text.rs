//! Text as sequences of characters: order, search, splitting and decimal numerals.
//!
//! Strings compare by code point, character by character, which is the order of
//! `str`: UTF-8 keeps the order of code points.

use vstd::prelude::*;
use vstd::std_specs::iter::IteratorSpec;

verus! {

/// `String::push` appends the character to the end of the string.
pub assume_specification[ std::string::String::push ](s: &mut std::string::String, c: char)
    ensures
        final(s)@ == old(s)@.push(c),
;

/// The message of the error that UTF-8 decoding gives for bytes that are not UTF-8.
pub uninterp spec fn utf8_error_text(bytes: Seq<u8>) -> Seq<char>;

/// `String::from_utf8` succeeds exactly on well-formed UTF-8, and then gives the text
/// that the bytes encode. On other bytes the message of its error depends on the bytes
/// alone.
#[verifier::external_body]
pub(crate) fn utf8_string(bytes: &[u8]) -> (r: Result<String, String>)
    ensures
        match r {
            Ok(s) => vstd::utf8::valid_utf8(bytes@) && s@ == vstd::utf8::decode_utf8(bytes@),
            Err(e) => !vstd::utf8::valid_utf8(bytes@) && e@ == utf8_error_text(bytes@),
        },
{
    String::from_utf8(bytes.to_vec()).map_err(|e| e.to_string())
}

// ---------------------------------------------------------------------------
// Order
// ---------------------------------------------------------------------------
/// Outcome of comparing two texts.
#[derive(Clone, Copy, Debug, PartialEq, Eq, Structural)]
pub enum Order {
    Less,
    Equal,
    Greater,
}

/// `a` without its first `i` characters comes strictly before `b` without its first `i`.
pub open spec fn less_from(a: Seq<char>, b: Seq<char>, i: int) -> bool
    decreases b.len() - i,
{
    if i < 0 || i >= b.len() {
        false
    } else if i >= a.len() {
        true
    } else if a[i] != b[i] {
        a[i] < b[i]
    } else {
        less_from(a, b, i + 1)
    }
}

/// `a` comes strictly before `b` in the order of strings.
pub open spec fn less(a: Seq<char>, b: Seq<char>) -> bool {
    less_from(a, b, 0)
}

proof fn lemma_less_from_transitive(a: Seq<char>, b: Seq<char>, c: Seq<char>, i: int)
    requires
        0 <= i,
        less_from(a, b, i),
        less_from(b, c, i),
    ensures
        less_from(a, c, i),
    decreases c.len() - i,
{
    if i < a.len() && i < b.len() && i < c.len() && a[i] == b[i] && b[i] == c[i] {
        lemma_less_from_transitive(a, b, c, i + 1);
    }
}

proof fn lemma_less_from_irreflexive(a: Seq<char>, i: int)
    requires
        0 <= i,
    ensures
        !less_from(a, a, i),
    decreases a.len() - i,
{
    if i < a.len() {
        lemma_less_from_irreflexive(a, i + 1);
    }
}

proof fn lemma_less_from_total(a: Seq<char>, b: Seq<char>, i: int)
    requires
        0 <= i <= a.len(),
        i <= b.len(),
        a.take(i) == b.take(i),
        !less_from(a, b, i),
        !less_from(b, a, i),
    ensures
        a == b,
    decreases b.len() - i,
{
    if i < a.len() && i < b.len() {
        assert(a[i] == b[i]);
        assert(a.take(i + 1) =~= a.take(i).push(a[i]));
        assert(b.take(i + 1) =~= b.take(i).push(b[i]));
        lemma_less_from_total(a, b, i + 1);
    } else {
        assert(a =~= a.take(i));
        assert(b =~= b.take(i));
    }
}

/// The order of strings is a strict total order.
pub proof fn lemma_less_total_order()
    ensures
        forall|a: Seq<char>| !#[trigger] less(a, a),
        forall|a: Seq<char>, b: Seq<char>, c: Seq<char>| #[trigger]
            less(a, b) && #[trigger] less(b, c) ==> less(a, c),
        forall|a: Seq<char>, b: Seq<char>|
            !#[trigger] less(a, b) && !less(b, a) ==> a == b,
{
    assert forall|a: Seq<char>| !#[trigger] less(a, a) by {
        lemma_less_from_irreflexive(a, 0);
    }
    assert forall|a: Seq<char>, b: Seq<char>, c: Seq<char>| #[trigger]
        less(a, b) && #[trigger] less(b, c) implies less(a, c) by {
        lemma_less_from_transitive(a, b, c, 0);
    }
    assert forall|a: Seq<char>, b: Seq<char>| !#[trigger] less(a, b) && !less(b, a) implies a
        == b by {
        assert(a.take(0) =~= b.take(0));
        lemma_less_from_total(a, b, 0);
    }
}

/// Texts are in strictly increasing order, hence without repetition.
pub open spec fn increasing(s: Seq<Seq<char>>) -> bool {
    forall|i: int, j: int| 0 <= i < j < s.len() ==> less(#[trigger] s[i], #[trigger] s[j])
}

/// Texts in increasing order are determined by which texts they are.
pub proof fn lemma_increasing_unique(a: Seq<Seq<char>>, b: Seq<Seq<char>>)
    requires
        increasing(a),
        increasing(b),
        forall|k: Seq<char>|
            #![trigger a.contains(k)]
            #![trigger b.contains(k)]
            a.contains(k) <==> b.contains(k),
    ensures
        a == b,
    decreases a.len(),
{
    lemma_less_total_order();
    if a.len() == 0 {
        if b.len() > 0 {
            assert(b.contains(b[0]));
        }
        assert(a =~= b);
    } else {
        assert(a.contains(a.last()));
        let j = b.index_of(a.last());
        assert(b.contains(b.last()));
        let i = a.index_of(b.last());
        if a.last() != b.last() {
            assert(less(b[j], b[b.len() - 1]));
            assert(less(a[i], a[a.len() - 1]));
            assert(false);
        }
        let a0 = a.drop_last();
        let b0 = b.drop_last();
        assert forall|k: Seq<char>|
            #![trigger a0.contains(k)]
            #![trigger b0.contains(k)]
            a0.contains(k) <==> b0.contains(k) by {
            if a0.contains(k) {
                let m = a0.index_of(k);
                assert(a[m] == k && less(a[m], a[a.len() - 1]));
                assert(a.contains(k));
                assert(b.contains(k));
                let n = b.index_of(k);
                assert(n < b.len() - 1);
                assert(b0[n] == k);
            }
            if b0.contains(k) {
                let m = b0.index_of(k);
                assert(b[m] == k && less(b[m], b[b.len() - 1]));
                assert(b.contains(k));
                assert(a.contains(k));
                let n = a.index_of(k);
                assert(n < a.len() - 1);
                assert(a0[n] == k);
            }
        }
        lemma_increasing_unique(a0, b0);
        assert(a =~= a0.push(a.last()));
        assert(b =~= b0.push(b.last()));
    }
}

/// `list` holds the texts of `source` in increasing order, each once.
pub open spec fn lists(list: Seq<Seq<char>>, source: Seq<Seq<char>>) -> bool {
    &&& increasing(list)
    &&& forall|k: Seq<char>|
        #![trigger list.contains(k)]
        #![trigger source.contains(k)]
        list.contains(k) <==> source.contains(k)
}

/// A text put between the lesser and the greater ones keeps them in order.
pub proof fn lemma_insert_increasing(texts: Seq<Seq<char>>, p: int, t: Seq<char>)
    requires
        increasing(texts),
        0 <= p <= texts.len(),
        forall|j: int| 0 <= j < p ==> less(#[trigger] texts[j], t),
        forall|j: int| p <= j < texts.len() ==> less(t, #[trigger] texts[j]),
    ensures
        increasing(texts.insert(p, t)),
        forall|k: Seq<char>| #[trigger]
            texts.insert(p, t).contains(k) <==> texts.contains(k) || k == t,
{
    let after = texts.insert(p, t);
    assert forall|i: int, j: int| 0 <= i < j < after.len() implies less(
        #[trigger] after[i],
        #[trigger] after[j],
    ) by {
        let i0 = if i < p {
            i
        } else {
            i - 1
        };
        let j0 = if j < p {
            j
        } else {
            j - 1
        };
        if i != p && j != p {
            assert(after[i] == texts[i0]);
            assert(after[j] == texts[j0]);
            assert(less(texts[i0], texts[j0]));
        } else if i == p {
            assert(after[j] == texts[j0]);
        } else {
            assert(after[i] == texts[i0]);
        }
    }
    assert forall|k: Seq<char>| #[trigger] after.contains(k) <==> texts.contains(k) || k == t by {
        if after.contains(k) {
            let i = after.index_of(k);
            if i != p {
                let i0 = if i < p {
                    i
                } else {
                    i - 1
                };
                assert(texts[i0] == k);
            }
        }
        if texts.contains(k) {
            let i = texts.index_of(k);
            let i1 = if i < p {
                i
            } else {
                i + 1
            };
            assert(after[i1] == k);
        }
        assert(after[p] == t);
    }
}

proof fn lemma_less_from_agrees(a: Seq<char>, b: Seq<char>, i: int)
    requires
        0 <= i <= a.len(),
        i <= b.len(),
        a.take(i) == b.take(i),
    ensures
        less(a, b) == less_from(a, b, i),
    decreases i,
{
    if i > 0 {
        assert(a.take(i - 1) =~= a.take(i).drop_last());
        assert(b.take(i - 1) =~= b.take(i).drop_last());
        assert(a.take(i)[i - 1] == a[i - 1]);
        assert(b.take(i)[i - 1] == b[i - 1]);
        lemma_less_from_agrees(a, b, i - 1);
    }
}

/// Compare two strings by code point.
pub fn compare(a: &str, b: &str) -> (r: Order)
    ensures
        r is Less <==> less(a@, b@),
        r is Greater <==> less(b@, a@),
        r is Equal <==> a@ == b@,
{
    let mut left = a.chars();
    let mut right = b.chars();
    let ghost mut i: int = 0;
    proof {
        lemma_less_total_order();
        assert(a@.take(0) =~= b@.take(0));
    }
    loop
        invariant
            0 <= i <= a@.len(),
            i <= b@.len(),
            a@.take(i) == b@.take(i),
            left.remaining() == a@.skip(i),
            right.remaining() == b@.skip(i),
            left.obeys_prophetic_iter_laws(),
            right.obeys_prophetic_iter_laws(),
            forall|x: Seq<char>| !#[trigger] less(x, x),
        decreases a@.len() - i,
    {
        proof {
            lemma_less_from_agrees(a@, b@, i);
            lemma_less_from_agrees(b@, a@, i);
        }
        let l = left.next();
        let r = right.next();
        match (l, r) {
            (Some(x), Some(y)) => {
                if x < y {
                    return Order::Less;
                }
                if y < x {
                    return Order::Greater;
                }
                proof {
                    assert(a@.take(i + 1) =~= a@.take(i).push(a@[i]));
                    assert(b@.take(i + 1) =~= b@.take(i).push(b@[i]));
                    i = i + 1;
                }
            },
            (Some(_), None) => {
                return Order::Greater;
            },
            (None, Some(_)) => {
                return Order::Less;
            },
            (None, None) => {
                proof {
                    assert(a@ =~= a@.take(i));
                    assert(b@ =~= b@.take(i));
                }
                return Order::Equal;
            },
        }
    }
}

/// Whether two strings hold the same text.
pub fn equal(a: &str, b: &str) -> (r: bool)
    ensures
        r == (a@ == b@),
{
    compare(a, b) == Order::Equal
}

// ---------------------------------------------------------------------------
// Characters and concatenation
// ---------------------------------------------------------------------------
/// The characters of `s`, in order.
pub fn chars_of(s: &str) -> (r: Vec<char>)
    ensures
        r@ == s@,
{
    let mut r: Vec<char> = Vec::new();
    for c in iter: s.chars()
        invariant
            r@ == s@.take(iter.index() as int),
            iter.seq() == s@,
    {
        r.push(c);
        assert(r@ =~= s@.take(iter.index() + 1));
    }
    r
}

/// The string of the characters at `start..end`.
pub fn string_of_range(chars: &[char], start: usize, end: usize) -> (r: String)
    requires
        start <= end <= chars@.len(),
    ensures
        r@ == chars@.subrange(start as int, end as int),
{
    let mut r = String::new();
    let mut i: usize = start;
    while i < end
        invariant
            start <= i <= end <= chars@.len(),
            r@ == chars@.subrange(start as int, i as int),
        decreases end - i,
    {
        r.push(chars[i]);
        i += 1;
        assert(r@ =~= chars@.subrange(start as int, i as int));
    }
    r
}

/// The string of `chars`.
pub fn string_of(chars: &[char]) -> (r: String)
    ensures
        r@ == chars@,
{
    let r = string_of_range(chars, 0, chars.len());
    assert(r@ =~= chars@);
    r
}

/// `a` followed by `b`.
pub fn concat2(a: &str, b: &str) -> (r: String)
    ensures
        r@ == a@ + b@,
{
    let mut r = a.to_owned();
    r.append(b);
    r
}

/// `a`, `b`, `c` in sequence.
pub fn concat3(a: &str, b: &str, c: &str) -> (r: String)
    ensures
        r@ == a@ + b@ + c@,
{
    let mut r = concat2(a, b);
    r.append(c);
    r
}

/// `a`, `b`, `c`, `d` in sequence.
pub fn concat4(a: &str, b: &str, c: &str, d: &str) -> (r: String)
    ensures
        r@ == a@ + b@ + c@ + d@,
{
    let mut r = concat3(a, b, c);
    r.append(d);
    r
}

/// `a`, `b`, `c`, `d`, `e` in sequence.
pub fn concat5(a: &str, b: &str, c: &str, d: &str, e: &str) -> (r: String)
    ensures
        r@ == a@ + b@ + c@ + d@ + e@,
{
    let mut r = concat4(a, b, c, d);
    r.append(e);
    r
}

/// The views of the strings, in order.
pub open spec fn views(s: Seq<String>) -> Seq<Seq<char>> {
    Seq::new(s.len(), |i: int| s[i]@)
}

/// The views of the string slices, in order.
pub open spec fn slice_views(s: Seq<&'static str>) -> Seq<Seq<char>> {
    Seq::new(s.len(), |i: int| s[i]@)
}

/// The texts one after the other, with `separator` between neighbours.
pub open spec fn joined(parts: Seq<Seq<char>>, separator: Seq<char>) -> Seq<char>
    decreases parts.len(),
{
    if parts.len() == 0 {
        Seq::empty()
    } else if parts.len() == 1 {
        parts[0]
    } else {
        joined(parts.drop_last(), separator) + separator + parts.last()
    }
}

/// Join strings with a separator.
pub fn join(parts: &Vec<String>, separator: &str) -> (r: String)
    ensures
        r@ == joined(views(parts@), separator@),
{
    let mut r = String::new();
    let mut i: usize = 0;
    while i < parts.len()
        invariant
            i <= parts@.len(),
            r@ == joined(views(parts@).take(i as int), separator@),
        decreases parts@.len() - i,
    {
        let ghost before = views(parts@).take(i as int);
        let ghost after = views(parts@).take(i + 1);
        assert(after.drop_last() =~= before);
        assert(after.last() == parts@[i as int]@);
        if i > 0 {
            r.append(separator);
        }
        r.append(parts[i].as_str());
        assert(i == 0 ==> r@ =~= parts@[0]@);
        i += 1;
    }
    assert(views(parts@).take(i as int) =~= views(parts@));
    r
}

// ---------------------------------------------------------------------------
// Decimal numerals
// ---------------------------------------------------------------------------
/// The character of a decimal digit.
pub open spec fn digit_char(d: nat) -> char {
    (('0' as u32) + d) as char
}

/// The decimal numeral of a natural number, without leading zeros.
pub open spec fn decimal(n: nat) -> Seq<char>
    decreases n,
{
    if n < 10 {
        seq![digit_char(n)]
    } else {
        decimal(n / 10).push(digit_char(n % 10))
    }
}

/// The decimal numeral of an integer, with a leading `-` below zero.
pub open spec fn decimal_int(n: int) -> Seq<char> {
    if n < 0 {
        seq!['-'] + decimal((-n) as nat)
    } else {
        decimal(n as nat)
    }
}

fn digit(d: u64) -> (c: char)
    requires
        d < 10,
    ensures
        c == digit_char(d as nat),
{
    match d {
        0 => '0',
        1 => '1',
        2 => '2',
        3 => '3',
        4 => '4',
        5 => '5',
        6 => '6',
        7 => '7',
        8 => '8',
        _ => '9',
    }
}

fn push_decimal(out: &mut String, n: u64)
    ensures
        final(out)@ == old(out)@ + decimal(n as nat),
    decreases n,
{
    if n >= 10 {
        push_decimal(out, n / 10);
    }
    out.push(digit(n % 10));
    assert(out@ =~= old(out)@ + decimal(n as nat));
}

/// The decimal numeral of `n`.
pub fn decimal_string(n: u64) -> (r: String)
    ensures
        r@ == decimal(n as nat),
{
    let mut r = String::new();
    push_decimal(&mut r, n);
    assert(r@ =~= decimal(n as nat));
    r
}

/// The decimal numeral of a signed number.
pub fn decimal_string_signed(n: i64) -> (r: String)
    ensures
        r@ == decimal_int(n as int),
{
    if n >= 0 {
        decimal_string(n as u64)
    } else {
        let mut r = String::new();
        r.push('-');
        let magnitude: u64 = (-(n as i128)) as u64;
        push_decimal(&mut r, magnitude);
        assert(r@ =~= decimal_int(n as int));
        r
    }
}

/// The decimal numerals of the numbers, in order.
pub open spec fn decimals(s: Seq<usize>) -> Seq<Seq<char>> {
    Seq::new(s.len(), |i: int| decimal(s[i] as nat))
}

/// A list of numbers as `[a, b, c]`.
pub open spec fn number_list(s: Seq<usize>) -> Seq<char> {
    "["@ + joined(decimals(s), ", "@) + "]"@
}

/// Render a list of numbers as `[a, b, c]`.
pub fn number_list_string(s: &[usize]) -> (r: String)
    ensures
        r@ == number_list(s@),
{
    let mut parts: Vec<String> = Vec::new();
    let mut i: usize = 0;
    while i < s.len()
        invariant
            i <= s@.len(),
            parts@.len() == i,
            views(parts@) =~= decimals(s@).take(i as int),
        decreases s@.len() - i,
    {
        parts.push(decimal_string(s[i] as u64));
        i += 1;
    }
    assert(decimals(s@).take(i as int) =~= decimals(s@));
    let body = join(&parts, ", ");
    concat3("[", body.as_str(), "]")
}

/// The value of a digit character, if it is one.
pub open spec fn digit_value(c: char) -> Option<nat> {
    if '0' <= c && c <= '9' {
        Some(((c as u32) - ('0' as u32)) as nat)
    } else {
        None
    }
}

/// All characters are decimal digits.
pub open spec fn all_digits(s: Seq<char>) -> bool {
    forall|i: int| 0 <= i < s.len() ==> digit_value(#[trigger] s[i]) is Some
}

/// The number that a sequence of digits denotes.
pub open spec fn digits_value(s: Seq<char>) -> nat
    decreases s.len(),
{
    if s.len() == 0 {
        0
    } else {
        10 * digits_value(s.drop_last()) + digit_value(s.last()).unwrap_or(0)
    }
}

/// A numeral consists of digits, denotes its number, and has no leading zero.
pub proof fn lemma_decimal(n: nat)
    ensures
        decimal(n).len() >= 1,
        forall|k: int|
            0 <= k < decimal(n).len() ==> digit_value(#[trigger] decimal(n)[k]) is Some,
        digits_value(decimal(n)) == n,
        decimal(n)[0] == '0' ==> n == 0 && decimal(n).len() == 1,
    decreases n,
{
    let d = decimal(n);
    if n < 10 {
        assert(d.drop_last() =~= Seq::<char>::empty());
        assert(digits_value(d.drop_last()) == 0);
    } else {
        lemma_decimal(n / 10);
        assert(d.drop_last() =~= decimal(n / 10));
        assert(d[0] == decimal(n / 10)[0]);
    }
}

/// The number that `s` denotes as `str::parse` reads an unsigned number: an optional
/// `+`, then digits, with a value of at most `max`.
pub open spec fn parsed_unsigned(s: Seq<char>, max: nat) -> Option<nat> {
    let body = if s.len() > 0 && s[0] == '+' {
        s.skip(1)
    } else {
        s
    };
    if body.len() > 0 && all_digits(body) && digits_value(body) <= max {
        Some(digits_value(body))
    } else {
        None
    }
}

proof fn lemma_digits_value_monotone(s: Seq<char>, i: int)
    requires
        0 <= i <= s.len(),
    ensures
        digits_value(s.take(i)) <= digits_value(s),
    decreases s.len() - i,
{
    if i < s.len() {
        assert(s.take(i + 1).drop_last() =~= s.take(i));
        lemma_digits_value_monotone(s, i + 1);
    } else {
        assert(s.take(i) =~= s);
    }
}

/// Read the unsigned number at `start..end`, digits only.
pub fn digits_number(chars: &[char], start: usize, end: usize) -> (r: Option<u64>)
    requires
        start <= end <= chars@.len(),
    ensures
        ({
            let body = chars@.subrange(start as int, end as int);
            match r {
                Some(n) => all_digits(body) && n == digits_value(body),
                None => !all_digits(body) || digits_value(body) > u64::MAX,
            }
        }),
{
    let ghost body = chars@.subrange(start as int, end as int);
    let mut value: u64 = 0;
    let mut i: usize = start;
    while i < end
        invariant
            start <= i <= end <= chars@.len(),
            body == chars@.subrange(start as int, end as int),
            all_digits(body.take(i - start)),
            value == digits_value(body.take(i - start)),
        decreases end - i,
    {
        let c = chars[i];
        let ghost k = i - start;
        assert(body.take(k + 1).drop_last() =~= body.take(k));
        assert(body.take(k + 1).last() == c);
        assert(body[k] == c);
        if !(c >= '0' && c <= '9') {
            return None;
        }
        let d: u64 = (c as u64) - ('0' as u64);
        assert(digits_value(body.take(k + 1)) == 10 * value + d);
        proof {
            lemma_digits_value_monotone(body, k + 1);
        }
        value = match value.checked_mul(10) {
            None => {
                return None;
            },
            Some(v) => match v.checked_add(d) {
                None => {
                    return None;
                },
                Some(v) => v,
            },
        };
        i += 1;
        assert forall|j: int| 0 <= j < k + 1 implies digit_value(
            #[trigger] body.take(k + 1)[j],
        ) is Some by {
            if j < k {
                assert(body.take(k)[j] == body.take(k + 1)[j]);
            }
        }
    }
    assert(body.take(i - start) =~= body);
    Some(value)
}

/// Read an unsigned number of the host's word size, with an optional leading `+`.
pub fn parse_usize(chars: &[char]) -> (r: Option<usize>)
    ensures
        match r {
            Some(n) => parsed_unsigned(chars@, usize::MAX as nat) == Some(n as nat),
            None => parsed_unsigned(chars@, usize::MAX as nat) is None,
        },
{
    let start: usize = if chars.len() > 0 && chars[0] == '+' {
        1
    } else {
        0
    };
    assert(start == 1 ==> chars@.skip(1) =~= chars@.subrange(1, chars@.len() as int));
    assert(start == 0 ==> chars@ =~= chars@.subrange(0, chars@.len() as int));
    if start == chars.len() {
        return None;
    }
    match digits_number(chars, start, chars.len()) {
        None => None,
        Some(n) => {
            if n > usize::MAX as u64 {
                None
            } else {
                Some(n as usize)
            }
        },
    }
}

// ---------------------------------------------------------------------------
// Search
// ---------------------------------------------------------------------------
/// `word` stands at `i`.
pub open spec fn occurs_at(s: Seq<char>, i: int, word: Seq<char>) -> bool {
    0 <= i && i + word.len() <= s.len() && s.subrange(i, i + word.len()) == word
}

/// `word` stands somewhere in `s`.
pub open spec fn contains_text(s: Seq<char>, word: Seq<char>) -> bool {
    exists|i: int| #[trigger] occurs_at(s, i, word)
}

/// `s` ends with `word`.
pub open spec fn ends_with_text(s: Seq<char>, word: Seq<char>) -> bool {
    occurs_at(s, s.len() - word.len(), word)
}

/// `s` starts with `word`.
pub open spec fn starts_with_text(s: Seq<char>, word: Seq<char>) -> bool {
    occurs_at(s, 0, word)
}

fn letters_occur(chars: &[char], i: usize, letters: &Vec<char>) -> (r: bool)
    requires
        i <= chars@.len(),
    ensures
        r == occurs_at(chars@, i as int, letters@),
{
    if letters.len() > chars.len() - i {
        return false;
    }
    let mut k: usize = 0;
    while k < letters.len()
        invariant
            k <= letters@.len(),
            i + letters@.len() <= chars@.len(),
            chars@.len() <= usize::MAX,
            forall|m: int| 0 <= m < k ==> chars@[i + m] == #[trigger] letters@[m],
        decreases letters@.len() - k,
    {
        if chars[i + k] != letters[k] {
            proof {
                let part = chars@.subrange(i as int, i + letters@.len());
                assert(part[k as int] == chars@[i + k]);
            }
            return false;
        }
        k += 1;
    }
    assert(chars@.subrange(i as int, i + letters@.len()) =~= letters@);
    true
}

/// Whether `word` stands at `i`.
pub fn occurs(chars: &[char], i: usize, word: &str) -> (r: bool)
    requires
        i <= chars@.len(),
    ensures
        r == occurs_at(chars@, i as int, word@),
{
    letters_occur(chars, i, &chars_of(word))
}

/// Whether `word` stands somewhere in `chars`.
pub fn contains(chars: &[char], word: &str) -> (r: bool)
    ensures
        r == contains_text(chars@, word@),
{
    let letters = chars_of(word);
    let mut i: usize = 0;
    while i <= chars.len()
        invariant
            i <= chars@.len() + 1,
            letters@ == word@,
            forall|k: int| 0 <= k < i ==> !#[trigger] occurs_at(chars@, k, word@),
        decreases chars@.len() + 1 - i,
    {
        if letters_occur(chars, i, &letters) {
            return true;
        }
        if i == chars.len() {
            return false;
        }
        i += 1;
    }
    false
}

/// Whether `chars` ends with `word`.
pub fn ends_with(chars: &[char], word: &str) -> (r: bool)
    ensures
        r == ends_with_text(chars@, word@),
{
    let letters = chars_of(word);
    if letters.len() > chars.len() {
        return false;
    }
    letters_occur(chars, chars.len() - letters.len(), &letters)
}

/// Whether the characters spell `word`.
pub fn spells(chars: &[char], word: &str) -> (r: bool)
    ensures
        r == (chars@ == word@),
{
    let letters = chars_of(word);
    if letters.len() != chars.len() {
        return false;
    }
    let r = letters_occur(chars, 0, &letters);
    assert(chars@.subrange(0, chars@.len() as int) =~= chars@);
    r
}

// ---------------------------------------------------------------------------
// Lower case and pieces
// ---------------------------------------------------------------------------
/// A character with ASCII upper case turned into lower case.
pub open spec fn lower_char(c: char) -> char {
    if 'A' <= c && c <= 'Z' {
        ((c as u32) + 32) as char
    } else {
        c
    }
}

/// A text with ASCII upper case turned into lower case.
pub open spec fn lowered(s: Seq<char>) -> Seq<char> {
    Seq::new(s.len(), |i: int| lower_char(s[i]))
}

/// The characters of `s` with ASCII upper case turned into lower case.
pub fn lowercase_chars(s: &str) -> (r: Vec<char>)
    ensures
        r@ == lowered(s@),
{
    let chars = chars_of(s);
    let mut r: Vec<char> = Vec::new();
    let mut i: usize = 0;
    while i < chars.len()
        invariant
            i <= chars@.len(),
            chars@ == s@,
            r@ =~= lowered(s@).take(i as int),
        decreases chars@.len() - i,
    {
        let c = chars[i];
        let low = if c >= 'A' && c <= 'Z' {
            (c as u8 + 32) as char
        } else {
            c
        };
        r.push(low);
        i += 1;
    }
    assert(lowered(s@).take(i as int) =~= lowered(s@));
    r
}

/// The part of `s` behind its last separator.
pub open spec fn open_piece(s: Seq<char>, separators: Seq<char>) -> Seq<char>
    decreases s.len(),
{
    if s.len() == 0 || separators.contains(s.last()) {
        Seq::empty()
    } else {
        open_piece(s.drop_last(), separators).push(s.last())
    }
}

/// The piece, unless it is empty.
pub open spec fn kept(piece: Seq<char>) -> Seq<Seq<char>> {
    if piece.len() == 0 {
        Seq::empty()
    } else {
        seq![piece]
    }
}

/// The pieces of `s` that end at a separator, without the empty ones.
pub open spec fn closed_pieces(s: Seq<char>, separators: Seq<char>) -> Seq<Seq<char>>
    decreases s.len(),
{
    if s.len() == 0 {
        Seq::empty()
    } else if separators.contains(s.last()) {
        closed_pieces(s.drop_last(), separators) + kept(open_piece(s.drop_last(), separators))
    } else {
        closed_pieces(s.drop_last(), separators)
    }
}

/// The pieces of `s` between separators, without the empty ones.
pub open spec fn pieces(s: Seq<char>, separators: Seq<char>) -> Seq<Seq<char>> {
    closed_pieces(s, separators) + kept(open_piece(s, separators))
}

/// The views of the pieces, in order.
pub open spec fn piece_views(s: Seq<Vec<char>>) -> Seq<Seq<char>> {
    Seq::new(s.len(), |i: int| s[i]@)
}

fn is_one_of(c: char, separators: &[char]) -> (r: bool)
    ensures
        r == separators@.contains(c),
{
    let mut i: usize = 0;
    while i < separators.len()
        invariant
            i <= separators@.len(),
            forall|k: int| 0 <= k < i ==> #[trigger] separators@[k] != c,
        decreases separators@.len() - i,
    {
        if separators[i] == c {
            return true;
        }
        i += 1;
    }
    false
}

/// Split at the separators and drop empty pieces.
pub fn split(chars: &[char], separators: &[char]) -> (r: Vec<Vec<char>>)
    ensures
        piece_views(r@) == pieces(chars@, separators@),
{
    let mut out: Vec<Vec<char>> = Vec::new();
    let mut current: Vec<char> = Vec::new();
    let mut i: usize = 0;
    assert(piece_views(out@) =~= closed_pieces(chars@.take(0), separators@));
    while i < chars.len()
        invariant
            i <= chars@.len(),
            piece_views(out@) == closed_pieces(chars@.take(i as int), separators@),
            current@ == open_piece(chars@.take(i as int), separators@),
        decreases chars@.len() - i,
    {
        let c = chars[i];
        assert(chars@.take(i + 1).drop_last() =~= chars@.take(i as int));
        assert(chars@.take(i + 1).last() == c);
        if is_one_of(c, separators) {
            let ghost before = piece_views(out@);
            if current.len() > 0 {
                let ghost piece = current@;
                out.push(current);
                assert(piece_views(out@) =~= before + kept(piece));
                current = Vec::new();
            } else {
                assert(before =~= before + kept(current@));
            }
        } else {
            current.push(c);
        }
        i += 1;
    }
    assert(chars@.take(i as int) =~= chars@);
    let ghost before = piece_views(out@);
    let ghost piece = current@;
    if current.len() > 0 {
        out.push(current);
    }
    assert(piece_views(out@) =~= before + kept(piece));
    out
}

// ---------------------------------------------------------------------------
// Laws
// ---------------------------------------------------------------------------
/// A text contains what was put into it, ends with what was put last and starts with what
/// was put first; and what it contains stands between two parts of it.
pub proof fn law_texts_contain_their_parts(before: Seq<char>, word: Seq<char>, after: Seq<char>)
    ensures
        contains_text(before + word + after, word),
        ends_with_text(before + word, word),
        starts_with_text(word + after, word),
{
    let s = before + word + after;
    assert(s.subrange(before.len() as int, (before + word).len() as int) =~= word);
    assert(occurs_at(s, before.len() as int, word));
    let e = before + word;
    assert(e.subrange(before.len() as int, (before + word).len() as int) =~= word);
    let b = word + after;
    assert(b.subrange(0, word.len() as int) =~= word);
}

/// What a text contains, ends with or starts with can be cut out of it.
pub proof fn law_contained_texts_are_parts(s: Seq<char>, word: Seq<char>)
    ensures
        contains_text(s, word) ==> exists|i: int|
            0 <= i <= s.len() - word.len() && s == #[trigger] s.take(i) + word + s.skip(
                i + word.len(),
            ),
        ends_with_text(s, word) ==> s.len() >= word.len() && s == s.take(s.len() - word.len())
            + word,
        starts_with_text(s, word) ==> s.len() >= word.len() && s == word + s.skip(
            word.len() as int,
        ),
{
    if contains_text(s, word) {
        let i = choose|i: int| #[trigger] occurs_at(s, i, word);
        assert(s =~= s.take(i) + s.subrange(i, i + word.len()) + s.skip(i + word.len()));
    }
    if ends_with_text(s, word) {
        let i = s.len() - word.len();
        assert(s =~= s.take(i) + s.subrange(i, i + word.len()));
    }
    if starts_with_text(s, word) {
        assert(s =~= s.subrange(0, word.len() as int) + s.skip(word.len() as int));
    }
}

/// Lowering keeps every character but the 26 capital letters of ASCII, which it moves by 32.
pub proof fn law_lowering(s: Seq<char>, i: int)
    requires
        0 <= i < s.len(),
    ensures
        lowered(s).len() == s.len(),
        65 <= s[i] as int <= 90 ==> lowered(s)[i] as int == s[i] as int + 32,
        !(65 <= s[i] as int <= 90) ==> lowered(s)[i] == s[i],
        lowered(lowered(s)) == lowered(s),
{
    assert(lowered(lowered(s)) =~= lowered(s));
}

/// A number is read back from its numeral, with or without a plus sign in front.
pub proof fn law_numerals_are_read_back(n: nat, max: nat)
    ensures
        parsed_unsigned(decimal(n), max) == (if n <= max {
            Some(n)
        } else {
            None
        }),
        parsed_unsigned(seq!['+'] + decimal(n), max) == parsed_unsigned(decimal(n), max),
{
    lemma_decimal(n);
    let d = decimal(n);
    assert(digit_value(d[0]) is Some);
    assert((seq!['+'] + d).skip(1) =~= d);
}

/// `s` has no separator.
pub open spec fn unbroken(s: Seq<char>, separators: Seq<char>) -> bool {
    forall|i: int| 0 <= i < s.len() ==> !separators.contains(#[trigger] s[i])
}

/// `word` stands at `i`, between separators or the ends of `s`.
pub open spec fn is_word_at(s: Seq<char>, separators: Seq<char>, i: int, word: Seq<char>) -> bool {
    &&& 0 <= i <= s.len() - word.len()
    &&& forall|k: int| 0 <= k < word.len() ==> s[i + k] == #[trigger] word[k]
    &&& i == 0 || separators.contains(s[i - 1])
    &&& i + word.len() == s.len() || separators.contains(s[i + word.len()])
}

proof fn lemma_open_piece_shape(s: Seq<char>, separators: Seq<char>)
    ensures
        ({
            let o = open_piece(s, separators);
            &&& o.len() <= s.len()
            &&& s.skip(s.len() - o.len()) == o
            &&& unbroken(o, separators)
            &&& o.len() < s.len() ==> separators.contains(s[s.len() - o.len() - 1])
        }),
    decreases s.len(),
{
    if s.len() > 0 && !separators.contains(s.last()) {
        let front = s.drop_last();
        lemma_open_piece_shape(front, separators);
        let o = open_piece(front, separators);
        assert(s.skip(s.len() - o.len() - 1) =~= o.push(s.last()));
    } else {
        assert(s.skip(s.len() as int) =~= Seq::empty());
    }
}

proof fn lemma_open_piece_is(s: Seq<char>, separators: Seq<char>, word: Seq<char>)
    requires
        unbroken(word, separators),
    ensures
        open_piece(s, separators) == word <==> {
            &&& word.len() <= s.len()
            &&& forall|k: int| 0 <= k < word.len() ==> s[s.len() - word.len() + k] == #[trigger] word[k]
            &&& word.len() == s.len() || separators.contains(s[s.len() - word.len() - 1])
        },
{
    let o = open_piece(s, separators);
    lemma_open_piece_shape(s, separators);
    assert forall|k: int| 0 <= k < o.len() implies s[s.len() - o.len() + k] == #[trigger] o[k] by {
        assert(s.skip(s.len() - o.len())[k] == o[k]);
    }
    if word.len() <= s.len() && (forall|k: int|
        0 <= k < word.len() ==> s[s.len() - word.len() + k] == #[trigger] word[k]) && (word.len()
        == s.len() || separators.contains(s[s.len() - word.len() - 1])) {
        if o.len() > word.len() {
            let k = o.len() - word.len() - 1;
            assert(!separators.contains(o[k]));
            assert(s[s.len() - o.len() + k] == o[k]);
        } else if o.len() < word.len() {
            let k = word.len() - o.len() - 1;
            assert(!separators.contains(word[k]));
            assert(s[s.len() - word.len() + k] == word[k]);
        } else {
            assert forall|k: int| 0 <= k < o.len() implies o[k] == word[k] by {
                assert(s[s.len() - o.len() + k] == o[k]);
                assert(s[s.len() - word.len() + k] == word[k]);
            }
            assert(o =~= word);
        }
    }
}

proof fn lemma_contains_appended<T>(a: Seq<T>, b: Seq<T>, x: T)
    ensures
        (a + b).contains(x) <==> a.contains(x) || b.contains(x),
{
    if a.contains(x) {
        assert((a + b)[a.index_of(x)] == x);
    }
    if b.contains(x) {
        assert((a + b)[a.len() + b.index_of(x)] == x);
    }
    if (a + b).contains(x) {
        let i = (a + b).index_of(x);
        if i < a.len() {
            assert(a[i] == x);
        } else {
            assert(b[i - a.len()] == x);
        }
    }
}

proof fn lemma_closed_piece_is(s: Seq<char>, separators: Seq<char>, word: Seq<char>)
    requires
        word.len() > 0,
        unbroken(word, separators),
    ensures
        closed_pieces(s, separators).contains(word) <==> exists|i: int| #[trigger]
            is_word_at(s, separators, i, word) && i + word.len() < s.len(),
    decreases s.len(),
{
    if s.len() > 0 {
        let front = s.drop_last();
        let c = s.last();
        lemma_closed_piece_is(front, separators, word);
        let before = closed_pieces(front, separators);
        let open = open_piece(front, separators);
        assert forall|i: int| #[trigger]
            is_word_at(front, separators, i, word) && i + word.len() < front.len() implies is_word_at(
            s,
            separators,
            i,
            word,
        ) by {
            assert forall|k: int| 0 <= k < word.len() implies s[i + k] == #[trigger] word[k] by {
                assert(front[i + k] == word[k]);
            }
        }
        assert forall|i: int| #[trigger]
            is_word_at(s, separators, i, word) && i + word.len() < front.len() implies is_word_at(
            front,
            separators,
            i,
            word,
        ) by {
            assert forall|k: int| 0 <= k < word.len() implies front[i + k] == #[trigger] word[k] by {
                assert(s[i + k] == word[k]);
            }
        }
        if separators.contains(c) {
            lemma_contains_appended(before, kept(open), word);
            lemma_open_piece_is(front, separators, word);
            let last = front.len() - word.len();
            assert(kept(open).contains(word) <==> open == word) by {
                if kept(open).contains(word) {
                    let i = kept(open).index_of(word);
                    assert(kept(open)[i] == word);
                }
                if open == word {
                    assert(kept(open)[0] == word);
                }
            }
            if open == word {
                assert forall|k: int| 0 <= k < word.len() implies s[last + k] == #[trigger] word[k] by {
                    assert(front[last + k] == word[k]);
                }
                assert(is_word_at(s, separators, last, word));
            }
            if is_word_at(s, separators, last, word) {
                assert forall|k: int| 0 <= k < word.len() implies front[front.len() - word.len() + k]
                    == #[trigger] word[k] by {
                    assert(s[last + k] == word[k]);
                }
            }
            if exists|i: int| #[trigger]
                is_word_at(s, separators, i, word) && i + word.len() < s.len() {
                let i = choose|i: int| #[trigger]
                    is_word_at(s, separators, i, word) && i + word.len() < s.len();
                if i + word.len() < front.len() {
                    assert(is_word_at(front, separators, i, word));
                } else {
                    assert(i == last);
                }
            }
        } else {
            if exists|i: int| #[trigger]
                is_word_at(s, separators, i, word) && i + word.len() < s.len() {
                let i = choose|i: int| #[trigger]
                    is_word_at(s, separators, i, word) && i + word.len() < s.len();
                assert(s[i + word.len()] != c);
                assert(is_word_at(front, separators, i, word));
            }
        }
    }
}

/// The pieces of a text are the words in it: what stands between separators or the ends of
/// the text, without a separator inside.
pub proof fn law_pieces_are_words(s: Seq<char>, separators: Seq<char>, word: Seq<char>)
    requires
        word.len() > 0,
        unbroken(word, separators),
    ensures
        pieces(s, separators).contains(word) <==> exists|i: int| #[trigger]
            is_word_at(s, separators, i, word),
{
    let closed = closed_pieces(s, separators);
    let open = open_piece(s, separators);
    lemma_closed_piece_is(s, separators, word);
    lemma_open_piece_is(s, separators, word);
    lemma_contains_appended(closed, kept(open), word);
    let last = s.len() - word.len();
    assert(kept(open).contains(word) <==> open == word) by {
        if kept(open).contains(word) {
            let i = kept(open).index_of(word);
            assert(kept(open)[i] == word);
        }
        if open == word {
            assert(kept(open)[0] == word);
        }
    }
    if open == word {
        assert(is_word_at(s, separators, last, word));
    }
    if exists|i: int| #[trigger] is_word_at(s, separators, i, word) {
        let i = choose|i: int| #[trigger] is_word_at(s, separators, i, word);
        if i + word.len() == s.len() {
            assert(open == word);
        }
    }
}

proof fn lemma_append_unbroken(s: Seq<char>, separators: Seq<char>, part: Seq<char>)
    requires
        s.len() == 0 || separators.contains(s.last()),
        unbroken(part, separators),
    ensures
        open_piece(s + part, separators) == part,
        closed_pieces(s + part, separators) == closed_pieces(s, separators),
    decreases part.len(),
{
    if part.len() == 0 {
        assert(s + part =~= s);
        assert(open_piece(s, separators) =~= part);
    } else {
        let shorter = part.drop_last();
        lemma_append_unbroken(s, separators, shorter);
        assert((s + part).drop_last() =~= s + shorter);
        assert((s + part).last() == part[part.len() - 1]);
        assert(shorter.push(part.last()) =~= part);
    }
}

/// Words that were joined by a separator come apart again, in order.
pub proof fn law_joined_words_come_apart(
    words: Seq<Seq<char>>,
    separators: Seq<char>,
    separator: char,
)
    requires
        separators.contains(separator),
        forall|i: int|
            0 <= i < words.len() ==> (#[trigger] words[i]).len() > 0 && unbroken(
                words[i],
                separators,
            ),
    ensures
        pieces(joined(words, seq![separator]), separators) == words,
    decreases words.len(),
{
    let empty = Seq::<char>::empty();
    let between = seq![separator];
    if words.len() == 0 {
        assert(pieces(empty, separators) =~= words);
    } else if words.len() == 1 {
        lemma_append_unbroken(empty, separators, words[0]);
        assert(empty + words[0] =~= words[0]);
        assert(pieces(words[0], separators) =~= words);
    } else {
        let front = words.drop_last();
        law_joined_words_come_apart(front, separators, separator);
        let s = joined(front, between) + between;
        assert(s.last() == separator);
        assert(s.drop_last() =~= joined(front, between));
        assert(closed_pieces(s, separators) == front);
        lemma_append_unbroken(s, separators, words.last());
        assert(pieces(s + words.last(), separators) =~= words);
    }
}

/// Texts are ordered by the first character in which they differ, and a text comes before
/// its continuations.
pub proof fn law_texts_differ_in_order(
    front: Seq<char>,
    x: char,
    y: char,
    a: Seq<char>,
    b: Seq<char>,
)
    ensures
        x < y ==> less(front + seq![x] + a, front + seq![y] + b),
        x < y ==> !less(front + seq![y] + b, front + seq![x] + a),
        less(front, front + seq![x] + a),
        !less(front + seq![x] + a, front),
{
    let n = front.len() as int;
    let s = front + seq![x] + a;
    let t = front + seq![y] + b;
    assert(s.take(n) =~= front && t.take(n) =~= front && front.take(n) =~= front);
    lemma_less_from_agrees(s, t, n);
    lemma_less_from_agrees(t, s, n);
    lemma_less_from_agrees(front, s, n);
    lemma_less_from_agrees(s, front, n);
    assert(s[n] == x && t[n] == y);
}

} // verus!
