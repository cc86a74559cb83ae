//! Byte-string foundations: character classes, the lexicographic order on
//! byte strings, and the decimal notation of integers.

use vstd::prelude::*;
use vstd::string::StringSliceAdditionalSpecFns;

verus! {

/// Space, horizontal tab or carriage return.
pub open spec fn is_blank(b: u8) -> bool {
    b == 32 || b == 9 || b == 13
}

/// An ASCII decimal digit.
pub open spec fn is_digit(b: u8) -> bool {
    48 <= b <= 57
}

/// An ASCII letter or an underscore.
pub open spec fn is_word_start(b: u8) -> bool {
    (65 <= b <= 90) || (97 <= b <= 122) || b == 95
}

/// A byte that may start a metric name: a letter, an underscore or a colon.
pub open spec fn is_name_start(b: u8) -> bool {
    is_word_start(b) || b == 58
}

/// A byte that may continue a metric name.
pub open spec fn is_name_byte(b: u8) -> bool {
    is_name_start(b) || is_digit(b)
}

/// A byte that may continue a label key.
pub open spec fn is_key_byte(b: u8) -> bool {
    is_word_start(b) || is_digit(b)
}

/// A metric name: non-empty, starting with a letter, underscore or colon and
/// continuing with letters, digits, underscores and colons.
pub open spec fn valid_name(s: Seq<u8>) -> bool {
    &&& s.len() > 0
    &&& is_name_start(s[0])
    &&& forall|i: int| 0 <= i < s.len() ==> is_name_byte(#[trigger] s[i])
}

/// A label key: non-empty, starting with a letter or underscore and
/// continuing with letters, digits and underscores.
pub open spec fn valid_key(s: Seq<u8>) -> bool {
    &&& s.len() > 0
    &&& is_word_start(s[0])
    &&& forall|i: int| 0 <= i < s.len() ==> is_key_byte(#[trigger] s[i])
}

/// Whether `b` is a blank.
pub fn byte_is_blank(b: u8) -> (r: bool)
    ensures
        r == is_blank(b),
{
    b == 32 || b == 9 || b == 13
}

/// Whether `b` is a decimal digit.
pub fn byte_is_digit(b: u8) -> (r: bool)
    ensures
        r == is_digit(b),
{
    48 <= b && b <= 57
}

/// Whether `b` is a letter or an underscore.
pub fn byte_is_word_start(b: u8) -> (r: bool)
    ensures
        r == is_word_start(b),
{
    (65 <= b && b <= 90) || (97 <= b && b <= 122) || b == 95
}

/// Whether `b` may stand in a metric name.
pub fn byte_is_name_byte(b: u8) -> (r: bool)
    ensures
        r == is_name_byte(b),
{
    byte_is_word_start(b) || b == 58 || byte_is_digit(b)
}

/// Whether `b` may stand in a label key.
pub fn byte_is_key_byte(b: u8) -> (r: bool)
    ensures
        r == is_key_byte(b),
{
    byte_is_word_start(b) || byte_is_digit(b)
}

/// Decides whether `s` is a metric name.
pub fn is_valid_name(s: &[u8]) -> (r: bool)
    ensures
        r == valid_name(s@),
{
    if s.len() == 0 || byte_is_digit(s[0]) || !byte_is_name_byte(s[0]) {
        return false;
    }
    let mut i: usize = 1;
    while i < s.len()
        invariant
            1 <= i <= s.len(),
            is_name_start(s@[0]),
            forall|j: int| 0 <= j < i ==> is_name_byte(#[trigger] s@[j]),
        decreases s.len() - i,
    {
        if !byte_is_name_byte(s[i]) {
            return false;
        }
        i += 1;
    }
    true
}

/// Decides whether `s` is a label key.
pub fn is_valid_key(s: &[u8]) -> (r: bool)
    ensures
        r == valid_key(s@),
{
    if s.len() == 0 || !byte_is_word_start(s[0]) {
        return false;
    }
    let mut i: usize = 1;
    while i < s.len()
        invariant
            1 <= i <= s.len(),
            is_word_start(s@[0]),
            forall|j: int| 0 <= j < i ==> is_key_byte(#[trigger] s@[j]),
        decreases s.len() - i,
    {
        if !byte_is_key_byte(s[i]) {
            return false;
        }
        i += 1;
    }
    true
}

/// The strict lexicographic order on byte strings, decided from index `i`
/// on, for two strings that agree before `i`.
pub open spec fn lex_lt_from(a: Seq<u8>, b: Seq<u8>, i: int) -> bool
    decreases a.len() - i,
{
    if i < 0 || i >= b.len() {
        false
    } else if i >= a.len() {
        true
    } else if a[i] != b[i] {
        a[i] < b[i]
    } else {
        lex_lt_from(a, b, i + 1)
    }
}

/// The strict lexicographic order on byte strings: a proper prefix comes
/// first, otherwise the first differing byte decides.
pub open spec fn lex_lt(a: Seq<u8>, b: Seq<u8>) -> bool {
    lex_lt_from(a, b, 0)
}

/// No byte string comes before itself, from any index on.
proof fn lemma_lex_irreflexive_from(a: Seq<u8>, i: int)
    requires
        0 <= i,
    ensures
        !lex_lt_from(a, a, i),
    decreases a.len() - i,
{
    if i < a.len() {
        lemma_lex_irreflexive_from(a, i + 1);
    }
}

/// Of two different byte strings that agree before `i`, one comes before
/// the other from `i` on.
proof fn lemma_lex_total_from(a: Seq<u8>, b: Seq<u8>, i: int)
    requires
        0 <= i,
        forall|j: int| 0 <= j < i && j < a.len() && j < b.len() ==> a[j] == b[j],
        i <= a.len(),
        i <= b.len(),
        a != b,
    ensures
        lex_lt_from(a, b, i) || lex_lt_from(b, a, i),
    decreases a.len() - i,
{
    if i >= a.len() && i >= b.len() {
        assert(a =~= b);
    } else if i < a.len() && i < b.len() && a[i] == b[i] {
        lemma_lex_total_from(a, b, i + 1);
    }
}

/// From any index on, two byte strings are never each before the other.
proof fn lemma_lex_asymmetric_from(a: Seq<u8>, b: Seq<u8>, i: int)
    requires
        0 <= i,
        lex_lt_from(a, b, i),
    ensures
        !lex_lt_from(b, a, i),
    decreases a.len() - i,
{
    if i < a.len() && i < b.len() && a[i] == b[i] {
        lemma_lex_asymmetric_from(a, b, i + 1);
    }
}

/// From any index on, the order is transitive.
proof fn lemma_lex_transitive_from(a: Seq<u8>, b: Seq<u8>, c: Seq<u8>, i: int)
    requires
        0 <= i,
        lex_lt_from(a, b, i),
        lex_lt_from(b, c, i),
    ensures
        lex_lt_from(a, c, i),
    decreases a.len() - i,
{
    if i < a.len() && i < b.len() && i < c.len() && a[i] == b[i] && b[i] == c[i] {
        lemma_lex_transitive_from(a, b, c, i + 1);
    }
}

/// No byte string comes before itself.
pub proof fn lemma_lex_irreflexive(a: Seq<u8>)
    ensures
        !lex_lt(a, a),
{
    lemma_lex_irreflexive_from(a, 0);
}

/// Of two different byte strings one comes before the other.
pub proof fn lemma_lex_total(a: Seq<u8>, b: Seq<u8>)
    requires
        a != b,
    ensures
        lex_lt(a, b) || lex_lt(b, a),
{
    lemma_lex_total_from(a, b, 0);
}

/// Two byte strings are never each before the other.
pub proof fn lemma_lex_asymmetric(a: Seq<u8>, b: Seq<u8>)
    requires
        lex_lt(a, b),
    ensures
        !lex_lt(b, a),
{
    lemma_lex_asymmetric_from(a, b, 0);
}

/// The order is transitive.
pub proof fn lemma_lex_transitive(a: Seq<u8>, b: Seq<u8>, c: Seq<u8>)
    requires
        lex_lt(a, b),
        lex_lt(b, c),
    ensures
        lex_lt(a, c),
{
    lemma_lex_transitive_from(a, b, c, 0);
}

/// Decides whether `a` comes strictly before `b` in lexicographic order.
pub fn bytes_less(a: &[u8], b: &[u8]) -> (r: bool)
    ensures
        r == lex_lt(a@, b@),
{
    let mut i: usize = 0;
    while i < a.len() && i < b.len()
        invariant
            i <= a.len(),
            i <= b.len(),
            lex_lt(a@, b@) == lex_lt_from(a@, b@, i as int),
        decreases a.len() - i,
    {
        if a[i] != b[i] {
            return a[i] < b[i];
        }
        i += 1;
    }
    i < b.len()
}

/// Decides whether two byte strings are equal.
pub fn bytes_equal(a: &[u8], b: &[u8]) -> (r: bool)
    ensures
        r == (a@ == b@),
{
    if a.len() != b.len() {
        return false;
    }
    let mut i: usize = 0;
    while i < a.len()
        invariant
            i <= a.len(),
            a.len() == b.len(),
            forall|j: int| 0 <= j < i ==> a@[j] == b@[j],
        decreases a.len() - i,
    {
        if a[i] != b[i] {
            return false;
        }
        i += 1;
    }
    assert(a@ =~= b@);
    true
}

/// Copies a byte string.
pub fn copy_bytes(s: &[u8]) -> (r: Vec<u8>)
    ensures
        r@ == s@,
{
    let mut r: Vec<u8> = Vec::new();
    let mut i: usize = 0;
    while i < s.len()
        invariant
            i <= s.len(),
            r@ == s@.take(i as int),
        decreases s.len() - i,
    {
        r.push(s[i]);
        assert(s@.take(i + 1) =~= s@.take(i as int).push(s@[i as int]));
        i += 1;
    }
    assert(s@.take(s.len() as int) =~= s@);
    r
}

/// The number that a string of decimal digits denotes, most significant
/// digit first. The empty string denotes zero.
pub open spec fn digits_value(s: Seq<u8>) -> nat
    decreases s.len(),
{
    if s.len() == 0 {
        0
    } else {
        (digits_value(s.drop_last()) * 10 + (s.last() - 48)) as nat
    }
}

/// Every byte of `s` is a decimal digit.
pub open spec fn all_digits(s: Seq<u8>) -> bool {
    forall|i: int| 0 <= i < s.len() ==> is_digit(#[trigger] s[i])
}

/// The decimal digits of `n`, without leading zeros.
pub open spec fn decimal_digits(n: nat) -> Seq<u8>
    decreases n,
{
    if n < 10 {
        seq![(48 + n) as u8]
    } else {
        decimal_digits(n / 10).push((48 + n % 10) as u8)
    }
}

/// The decimal notation of an integer: a minus sign for a negative number,
/// then the digits of its magnitude without leading zeros.
pub open spec fn decimal_text(v: int) -> Seq<u8> {
    if v < 0 {
        seq![45u8] + decimal_digits((-v) as nat)
    } else {
        decimal_digits(v as nat)
    }
}

/// The signed 64-bit integer that `s` denotes in decimal notation: an
/// optional minus sign followed by at least one digit. `None` where `s` has
/// another shape or the number does not fit.
pub open spec fn decimal_value(s: Seq<u8>) -> Option<i64> {
    let negative = s.len() > 0 && s[0] == 45;
    let digits = if negative {
        s.skip(1)
    } else {
        s
    };
    let v = if negative {
        -(digits_value(digits) as int)
    } else {
        digits_value(digits) as int
    };
    if digits.len() > 0 && all_digits(digits) && i64::MIN <= v <= i64::MAX {
        Some(v as i64)
    } else {
        None
    }
}

/// The unsigned 64-bit integer that `s` denotes: at least one digit, no
/// sign. `None` where `s` has another shape or the number does not fit.
pub open spec fn unsigned_value(s: Seq<u8>) -> Option<u64> {
    if s.len() > 0 && all_digits(s) && digits_value(s) <= u64::MAX {
        Some(digits_value(s) as u64)
    } else {
        None
    }
}

/// One more digit multiplies the number by ten and adds the digit.
proof fn lemma_digits_value_push(s: Seq<u8>, d: u8)
    ensures
        digits_value(s.push(d)) == (digits_value(s) * 10 + (d - 48)) as nat,
{
    assert(s.push(d).drop_last() =~= s);
}

/// A prefix of a string of digits denotes no more than the string.
proof fn lemma_digits_value_prefix(s: Seq<u8>, i: int)
    requires
        0 <= i <= s.len(),
        all_digits(s),
    ensures
        digits_value(s.take(i)) <= digits_value(s),
    decreases s.len() - i,
{
    if i < s.len() {
        lemma_digits_value_prefix(s, i + 1);
        assert(s.take(i + 1).drop_last() =~= s.take(i));
        assert(is_digit(s[i]));
    } else {
        assert(s.take(i) =~= s);
    }
}

/// The digits of a number are digits, at least one, and denote the number.
proof fn lemma_decimal_digits(n: nat)
    ensures
        decimal_digits(n).len() > 0,
        all_digits(decimal_digits(n)),
        digits_value(decimal_digits(n)) == n,
    decreases n,
{
    if n < 10 {
        let s = decimal_digits(n);
        assert(s.drop_last() =~= Seq::<u8>::empty());
        assert(s.last() == 48 + n);
        assert(digits_value(s.drop_last()) == 0);
    } else {
        let d = (48 + n % 10) as u8;
        lemma_decimal_digits(n / 10);
        lemma_digits_value_push(decimal_digits(n / 10), d);
        assert(decimal_digits(n) == decimal_digits(n / 10).push(d));
        assert(is_digit(d));
        assert((n / 10) * 10 + n % 10 == n);
    }
}

/// Reading the decimal notation of a signed 64-bit integer gives that
/// integer back.
pub proof fn lemma_decimal_round_trip(v: i64)
    ensures
        decimal_value(decimal_text(v as int)) == Some(v),
        decimal_text(v as int).len() > 0,
        forall|i: int|
            0 <= i < decimal_text(v as int).len() ==> {
                let b = #[trigger] decimal_text(v as int)[i];
                is_digit(b) || b == 45
            },
{
    let t = decimal_text(v as int);
    if v < 0 {
        let d = decimal_digits((-v) as nat);
        lemma_decimal_digits((-v) as nat);
        assert(t.skip(1) =~= d);
        assert(t[0] == 45);
        assert forall|i: int| 0 <= i < t.len() implies {
            let b = #[trigger] t[i];
            is_digit(b) || b == 45
        } by {
            if i > 0 {
                assert(t[i] == d[i - 1]);
                assert(is_digit(d[i - 1]));
            }
        }
    } else {
        lemma_decimal_digits(v as nat);
        assert(is_digit(t[0]));
    }
}

/// Reads an unsigned number of at most `limit` from a string of digits.
fn parse_digits(s: &[u8], start: usize, limit: u64) -> (r: Option<u64>)
    requires
        start <= s.len(),
    ensures
        r == (if s@.skip(start as int).len() > 0 && all_digits(s@.skip(start as int))
            && digits_value(s@.skip(start as int)) <= limit {
            Some(digits_value(s@.skip(start as int)) as u64)
        } else {
            None
        }),
{
    let ghost d = s@.skip(start as int);
    if start == s.len() {
        return None;
    }
    let mut acc: u64 = 0;
    let mut i: usize = start;
    while i < s.len()
        invariant
            start <= i <= s.len(),
            d == s@.skip(start as int),
            all_digits(d.take(i - start)),
            acc == digits_value(d.take(i - start)),
            acc <= limit,
        decreases s.len() - i,
    {
        let b: u8 = s[i];
        assert(d[i - start] == b);
        if !byte_is_digit(b) {
            return None;
        }
        let digit: u64 = (b - 48) as u64;
        proof {
            assert(d.take(i + 1 - start) =~= d.take(i - start).push(b));
            lemma_digits_value_push(d.take(i - start), b);
        }
        if digit > limit || acc > (limit - digit) / 10 {
            proof {
                if all_digits(d) {
                    lemma_digits_value_prefix(d, i + 1 - start);
                }
            }
            return None;
        }
        acc = acc * 10 + digit;
        i += 1;
    }
    assert(d.take(i - start) =~= d);
    Some(acc)
}

/// Reads an unsigned 64-bit integer: one or more digits.
pub fn parse_unsigned(s: &[u8]) -> (r: Option<u64>)
    ensures
        r == unsigned_value(s@),
{
    assert(s@.skip(0) =~= s@);
    parse_digits(s, 0, u64::MAX)
}

/// Reads a signed 64-bit integer in decimal notation: an optional minus
/// sign, then one or more digits.
pub fn parse_decimal(s: &[u8]) -> (r: Option<i64>)
    ensures
        r == decimal_value(s@),
{
    if s.len() > 0 && s[0] == 45 {
        match parse_digits(s, 1, 9223372036854775808u64) {
            Some(m) => {
                if m == 9223372036854775808u64 {
                    Some(i64::MIN)
                } else {
                    Some(-(m as i64))
                }
            },
            None => None,
        }
    } else {
        assert(s@.skip(0) =~= s@);
        match parse_digits(s, 0, 9223372036854775807u64) {
            Some(m) => Some(m as i64),
            None => None,
        }
    }
}

/// Appends the decimal digits of `n` to `out`.
pub fn push_digits(out: &mut Vec<u8>, n: u64)
    ensures
        final(out)@ == old(out)@ + decimal_digits(n as nat),
    decreases n,
{
    if n >= 10 {
        push_digits(out, n / 10);
        out.push(48 + (n % 10) as u8);
        assert(out@ =~= old(out)@ + decimal_digits(n as nat));
    } else {
        out.push(48 + n as u8);
        assert(out@ =~= old(out)@ + decimal_digits(n as nat));
    }
}

/// Appends the decimal notation of `v` to `out`.
pub fn push_decimal(out: &mut Vec<u8>, v: i64)
    ensures
        final(out)@ == old(out)@ + decimal_text(v as int),
{
    if v < 0 {
        out.push(45);
        let m: u64 = if v == i64::MIN {
            9223372036854775808u64
        } else {
            (-v) as u64
        };
        push_digits(out, m);
        assert(out@ =~= old(out)@ + decimal_text(v as int));
    } else {
        push_digits(out, v as u64);
    }
}

/// Appends a byte string to `out`.
pub fn push_bytes(out: &mut Vec<u8>, s: &[u8])
    ensures
        final(out)@ == old(out)@ + s@,
{
    let mut i: usize = 0;
    while i < s.len()
        invariant
            i <= s.len(),
            out@ == old(out)@ + s@.take(i as int),
        decreases s.len() - i,
    {
        out.push(s[i]);
        assert(s@.take(i + 1) =~= s@.take(i as int).push(s@[i as int]));
        assert(out@ =~= old(out)@ + s@.take(i + 1));
        i += 1;
    }
    assert(s@.take(s.len() as int) =~= s@);
}

/// A class of bytes that a scanner can be asked to run over.
#[derive(Clone, Copy, Debug, PartialEq, Eq, Structural)]
pub enum ByteClass {
    /// Space, tab, carriage return.
    Blank,
    /// Anything but a blank.
    Graphic,
    /// Bytes of a metric name.
    Name,
    /// Bytes of a label key.
    Key,
    /// Anything but a line feed.
    LineBody,
}

/// Byte `b` belongs to class `c`.
pub open spec fn in_class(c: ByteClass, b: u8) -> bool {
    match c {
        ByteClass::Blank => is_blank(b),
        ByteClass::Graphic => !is_blank(b),
        ByteClass::Name => is_name_byte(b),
        ByteClass::Key => is_key_byte(b),
        ByteClass::LineBody => b != 10,
    }
}

/// The length of the longest prefix of `s` made of bytes of class `c`.
pub open spec fn run_len(s: Seq<u8>, c: ByteClass) -> nat
    decreases s.len(),
{
    if s.len() > 0 && in_class(c, s[0]) {
        1 + run_len(s.skip(1), c)
    } else {
        0
    }
}

/// A run is a prefix: it is no longer than the string, it holds bytes of
/// the class only, and the byte after it, if any, is not of the class.
pub proof fn lemma_run_len(s: Seq<u8>, c: ByteClass)
    ensures
        run_len(s, c) <= s.len(),
        forall|i: int| 0 <= i < run_len(s, c) ==> in_class(c, #[trigger] s[i]),
        run_len(s, c) < s.len() ==> !in_class(c, s[run_len(s, c) as int]),
    decreases s.len(),
{
    if s.len() > 0 && in_class(c, s[0]) {
        lemma_run_len(s.skip(1), c);
        assert forall|i: int| 0 <= i < run_len(s, c) implies in_class(c, #[trigger] s[i]) by {
            if i > 0 {
                assert(s[i] == s.skip(1)[i - 1]);
            }
        }
        if run_len(s, c) < s.len() {
            assert(s[run_len(s, c) as int] == s.skip(1)[run_len(s.skip(1), c) as int]);
        }
    }
}

/// A prefix of `n` bytes of the class that ends the string or is followed
/// by a byte outside the class is the run.
pub proof fn lemma_run_len_is(s: Seq<u8>, c: ByteClass, n: nat)
    requires
        n <= s.len(),
        forall|i: int| 0 <= i < n ==> in_class(c, #[trigger] s[i]),
        n < s.len() ==> !in_class(c, s[n as int]),
    ensures
        run_len(s, c) == n,
    decreases n,
{
    if n > 0 {
        assert forall|i: int| 0 <= i < n - 1 implies in_class(c, #[trigger] s.skip(1)[i]) by {
            assert(s.skip(1)[i] == s[i + 1]);
        }
        lemma_run_len_is(s.skip(1), c, (n - 1) as nat);
    }
}

/// Whether byte `b` belongs to class `c`.
pub fn byte_in_class(c: ByteClass, b: u8) -> (r: bool)
    ensures
        r == in_class(c, b),
{
    match c {
        ByteClass::Blank => byte_is_blank(b),
        ByteClass::Graphic => !byte_is_blank(b),
        ByteClass::Name => byte_is_name_byte(b),
        ByteClass::Key => byte_is_key_byte(b),
        ByteClass::LineBody => b != 10,
    }
}

/// The length of the run of class `c` that starts at index `start` of `t`.
pub fn scan(t: &[u8], start: usize, c: ByteClass) -> (n: usize)
    requires
        start <= t.len(),
    ensures
        n == run_len(t@.skip(start as int), c),
        start + n <= t.len(),
{
    let mut i: usize = start;
    while i < t.len() && byte_in_class(c, t[i])
        invariant
            start <= i <= t.len(),
            run_len(t@.skip(start as int), c) == (i - start) + run_len(t@.skip(i as int), c),
        decreases t.len() - i,
    {
        assert(t@.skip(i as int)[0] == t@[i as int]);
        assert(t@.skip(i as int).skip(1) =~= t@.skip(i + 1));
        i += 1;
    }
    proof {
        if i < t.len() {
            assert(t@.skip(i as int)[0] == t@[i as int]);
        }
    }
    i - start
}

/// The lines of a text: the stretches between line feeds. A line feed at
/// the very end closes the last line and opens no further one.
pub open spec fn lines_of(t: Seq<u8>) -> Seq<Seq<u8>>
    decreases t.len(),
{
    if t.len() == 0 {
        Seq::empty()
    } else {
        let n = run_len(t, ByteClass::LineBody);
        if n < t.len() {
            seq![t.take(n as int)] + lines_of(t.skip(n as int + 1))
        } else {
            seq![t]
        }
    }
}

/// The text made of the given lines, each closed by a line feed.
pub open spec fn text_of_lines(lines: Seq<Seq<u8>>) -> Seq<u8>
    decreases lines.len(),
{
    if lines.len() == 0 {
        Seq::empty()
    } else {
        text_of_lines(lines.drop_last()) + lines.last() + seq![10u8]
    }
}

/// `line` holds no line feed.
pub open spec fn single_line(line: Seq<u8>) -> bool {
    forall|i: int| 0 <= i < line.len() ==> #[trigger] line[i] != 10
}

/// A text that starts with a line and a line feed splits into that line
/// and the lines of the rest.
pub proof fn lemma_lines_of_first(line: Seq<u8>, rest: Seq<u8>)
    requires
        single_line(line),
    ensures
        lines_of(line + seq![10u8] + rest) == seq![line] + lines_of(rest),
{
    let t = line + seq![10u8] + rest;
    assert forall|i: int| 0 <= i < line.len() implies in_class(
        ByteClass::LineBody,
        #[trigger] t[i],
    ) by {
        assert(t[i] == line[i]);
    }
    assert(t[line.len() as int] == 10);
    lemma_run_len_is(t, ByteClass::LineBody, line.len());
    assert(t.take(line.len() as int) =~= line);
    assert(t.skip(line.len() as int + 1) =~= rest);
}

/// Splitting the text of some lines gives those lines back, as long as no
/// line holds a line feed of its own.
pub proof fn lemma_lines_of_text(lines: Seq<Seq<u8>>)
    requires
        forall|i: int| 0 <= i < lines.len() ==> single_line(#[trigger] lines[i]),
    ensures
        lines_of(text_of_lines(lines)) == lines,
    decreases lines.len(),
{
    lemma_lines_of_text_then(lines, Seq::empty());
    assert(text_of_lines(lines) + Seq::<u8>::empty() =~= text_of_lines(lines));
    assert(lines + Seq::<Seq<u8>>::empty() =~= lines);
}

/// Splitting the text of some lines followed by more text gives those
/// lines, then the lines of the rest.
proof fn lemma_lines_of_text_then(lines: Seq<Seq<u8>>, rest: Seq<u8>)
    requires
        forall|i: int| 0 <= i < lines.len() ==> single_line(#[trigger] lines[i]),
    ensures
        lines_of(text_of_lines(lines) + rest) == lines + lines_of(rest),
    decreases lines.len(),
{
    if lines.len() == 0 {
        assert(text_of_lines(lines) + rest =~= rest);
        assert(lines + lines_of(rest) =~= lines_of(rest));
    } else {
        let init = lines.drop_last();
        let last = lines.last();
        let tail = last + seq![10u8] + rest;
        assert(single_line(last));
        assert forall|i: int| 0 <= i < init.len() implies single_line(#[trigger] init[i]) by {
            assert(init[i] == lines[i]);
        }
        lemma_lines_of_text_then(init, tail);
        lemma_lines_of_first(last, rest);
        assert(text_of_lines(lines) + rest =~= text_of_lines(init) + tail);
        assert(init + (seq![last] + lines_of(rest)) =~= lines + lines_of(rest));
    }
}

/// Finds the line that starts at index `i` of `raw`: returns the index at
/// which the line ends and the index at which the next line starts.
pub fn next_line(raw: &[u8], i: usize) -> (r: (usize, usize))
    requires
        i < raw.len(),
    ensures
        i <= r.0 <= r.1 <= raw.len(),
        i < r.1,
        lines_of(raw@.skip(i as int)) == seq![raw@.subrange(i as int, r.0 as int)] + lines_of(
            raw@.skip(r.1 as int),
        ),
{
    let n = scan(raw, i, ByteClass::LineBody);
    let ghost s = raw@.skip(i as int);
    assert(s.take(n as int) =~= raw@.subrange(i as int, i + n));
    if i + n < raw.len() {
        assert(s.skip(n as int + 1) =~= raw@.skip(i + n + 1));
        (i + n, i + n + 1)
    } else {
        assert(s.take(n as int) =~= s);
        assert(lines_of(raw@.skip(raw.len() as int)) =~= Seq::<Seq<u8>>::empty());
        assert(seq![s] + Seq::<Seq<u8>>::empty() =~= seq![s]);
        (i + n, i + n)
    }
}

/// The bytes of a string.
pub fn bytes_of(s: &str) -> (r: Vec<u8>)
    ensures
        r@ == s.spec_bytes(),
{
    copy_bytes(s.as_bytes())
}

/// `s` begins with `prefix`.
pub open spec fn has_prefix(s: Seq<u8>, prefix: Seq<u8>) -> bool {
    prefix.len() <= s.len() && s.take(prefix.len() as int) == prefix
}

/// Decides whether `s` begins with `prefix`.
pub fn starts_with(s: &[u8], prefix: &[u8]) -> (r: bool)
    ensures
        r == has_prefix(s@, prefix@),
{
    if prefix.len() > s.len() {
        return false;
    }
    let mut i: usize = 0;
    while i < prefix.len()
        invariant
            i <= prefix.len() <= s.len(),
            forall|j: int| 0 <= j < i ==> s@[j] == prefix@[j],
        decreases prefix.len() - i,
    {
        if s[i] != prefix[i] {
            assert(s@.take(prefix.len() as int)[i as int] != prefix@[i as int]);
            return false;
        }
        i += 1;
    }
    assert(s@.take(prefix.len() as int) =~= prefix@);
    true
}

/// Decides whether `s` ends with `suffix`.
pub fn ends_with(s: &[u8], suffix: &[u8]) -> (r: bool)
    ensures
        r == has_suffix(s@, suffix@),
{
    if suffix.len() > s.len() {
        return false;
    }
    let base: usize = s.len() - suffix.len();
    let mut i: usize = 0;
    while i < suffix.len()
        invariant
            i <= suffix.len() <= s.len(),
            base == s.len() - suffix.len(),
            forall|j: int| 0 <= j < i ==> s@[base + j] == suffix@[j],
        decreases suffix.len() - i,
    {
        if s[base + i] != suffix[i] {
            assert(s@.skip(base as int)[i as int] != suffix@[i as int]);
            return false;
        }
        i += 1;
    }
    assert(s@.skip(base as int) =~= suffix@);
    true
}

/// `s` ends with `suffix`.
pub open spec fn has_suffix(s: Seq<u8>, suffix: Seq<u8>) -> bool {
    suffix.len() <= s.len() && s.skip(s.len() - suffix.len()) == suffix
}

/// The text of some lines followed by others is the text of the first
/// followed by the text of the others.
pub proof fn lemma_text_of_lines_concat(a: Seq<Seq<u8>>, b: Seq<Seq<u8>>)
    ensures
        text_of_lines(a + b) == text_of_lines(a) + text_of_lines(b),
    decreases b.len(),
{
    if b.len() == 0 {
        assert(a + b =~= a);
        assert(text_of_lines(a) + text_of_lines(b) =~= text_of_lines(a));
    } else {
        lemma_text_of_lines_concat(a, b.drop_last());
        assert((a + b).drop_last() =~= a + b.drop_last());
        assert((a + b).last() == b.last());
        assert(text_of_lines(a + b) =~= text_of_lines(a) + text_of_lines(b));
    }
}

} // verus!
