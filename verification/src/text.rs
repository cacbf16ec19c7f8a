//! Character-level helpers shared by the parser and the data extractors:
//! Unicode whitespace, decimal digits and the decimal rendering of integers,
//! and code-point order on character sequences.

use vstd::prelude::*;

verus! {

/// Whitespace as Unicode's `White_Space` property defines it.
pub open spec fn is_ws(c: char) -> bool {
    let u = c as u32;
    ||| 0x09 <= u <= 0x0D
    ||| u == 0x20
    ||| u == 0x85
    ||| u == 0xA0
    ||| u == 0x1680
    ||| 0x2000 <= u <= 0x200A
    ||| u == 0x2028
    ||| u == 0x2029
    ||| u == 0x202F
    ||| u == 0x205F
    ||| u == 0x3000
}

/// An ASCII decimal digit.
pub open spec fn is_digit(c: char) -> bool {
    '0' <= c && c <= '9'
}

/// The numeric value of an ASCII decimal digit.
pub open spec fn digit_value(c: char) -> int {
    c as int - '0' as int
}

/// The character of a digit value below ten.
pub open spec fn digit_char(d: int) -> char {
    (d + '0' as int) as char
}

/// Every character of `s` is an ASCII decimal digit.
pub open spec fn all_digits(s: Seq<char>) -> bool {
    forall|i: int| 0 <= i < s.len() ==> is_digit(#[trigger] s[i])
}

/// The value of a sequence of decimal digits, most significant first.
pub open spec fn digits_value(s: Seq<char>) -> nat
    decreases s.len(),
{
    if s.len() == 0 {
        0
    } else {
        (digits_value(s.drop_last()) * 10 + digit_value(s.last())) as nat
    }
}

/// The shortest decimal rendering of a natural number.
pub open spec fn nat_text(n: nat) -> Seq<char>
    decreases n,
{
    if n < 10 {
        seq![digit_char(n as int)]
    } else {
        nat_text(n / 10).push(digit_char((n % 10) as int))
    }
}

/// The decimal rendering of an integer, with a leading `-` when negative.
pub open spec fn int_text(i: int) -> Seq<char> {
    if i < 0 {
        seq!['-'] + nat_text((-i) as nat)
    } else {
        nat_text(i as nat)
    }
}

/// `n` rendered in decimal and padded on the left with `0` to at least `width` characters.
pub open spec fn padded_text(n: nat, width: nat) -> Seq<char> {
    let t = nat_text(n);
    if t.len() < width {
        Seq::new((width - t.len()) as nat, |i: int| '0') + t
    } else {
        t
    }
}

/// `a` comes strictly before `b` in the order of their code points, compared
/// position by position, a proper prefix coming first.
pub open spec fn chars_lt(a: Seq<char>, b: Seq<char>) -> bool
    decreases a.len(),
{
    if b.len() == 0 {
        false
    } else if a.len() == 0 {
        true
    } else if a[0] != b[0] {
        (a[0] as int) < (b[0] as int)
    } else {
        chars_lt(a.drop_first(), b.drop_first())
    }
}

pub proof fn lemma_digits_value_monotone(s: Seq<char>, k: int)
    requires
        0 <= k <= s.len(),
        all_digits(s),
    ensures
        digits_value(s.take(k)) <= digits_value(s),
    decreases s.len(),
{
    if k < s.len() {
        assert(s.drop_last().take(k) == s.take(k));
        lemma_digits_value_monotone(s.drop_last(), k);
    } else {
        assert(s.take(k) == s);
    }
}

pub proof fn lemma_nat_text_digits(n: nat)
    ensures
        nat_text(n).len() >= 1,
        all_digits(nat_text(n)),
        digits_value(nat_text(n)) == n,
    decreases n,
{
    let d = (n % 10) as int;
    assert(digit_value(digit_char(d)) == d);
    if n >= 10 {
        lemma_nat_text_digits(n / 10);
        let t = nat_text(n);
        assert(t.drop_last() == nat_text(n / 10));
        assert(t.last() == digit_char(d));
        assert(digits_value(t) == digits_value(nat_text(n / 10)) * 10 + d);
        assert forall|i: int| 0 <= i < t.len() implies is_digit(#[trigger] t[i]) by {
            if i < t.len() - 1 {
                assert(t[i] == nat_text(n / 10)[i]);
            }
        }
    } else {
        let t = nat_text(n);
        assert(t.drop_last() =~= Seq::<char>::empty());
        assert(digits_value(t.drop_last()) == 0);
        assert(t.last() == digit_char(d));
        assert(digits_value(t) == d);
    }
}

/// Whitespace test, as `char::is_whitespace` decides it.
pub fn is_whitespace(c: char) -> (r: bool)
    ensures
        r == is_ws(c),
{
    let u = c as u32;
    (0x09 <= u && u <= 0x0D) || u == 0x20 || u == 0x85 || u == 0xA0 || u == 0x1680 || (0x2000
        <= u && u <= 0x200A) || u == 0x2028 || u == 0x2029 || u == 0x202F || u == 0x205F || u
        == 0x3000
}

/// The characters of a string slice, in order.
pub fn chars_of(s: &str) -> (r: Vec<char>)
    ensures
        r@ == s@,
{
    let mut r: Vec<char> = Vec::new();
    for c in it: s.chars()
        invariant
            it.seq() == s@,
            r@ == it.seq().take(it.index()),
    {
        r.push(c);
    }
    r
}

/// The string of the characters `cs`, in order, as std's
/// `String::from_iter` builds it from an iterator of `&char` (each
/// character appended in turn).
#[verifier::external_body]
pub(crate) fn string_from_chars(cs: &[char]) -> (r: String)
    ensures
        r@ == cs@,
{
    String::from_iter(cs)
}

/// The string made of all of `cs`.
pub fn string_of(cs: &Vec<char>) -> (r: String)
    ensures
        r@ == cs@,
{
    string_from_chars(cs.as_slice())
}

/// `s` holds exactly the characters of `lit`.
pub fn text_is(s: &String, lit: &str) -> (r: bool)
    ensures
        r == (s@ == lit@),
{
    let other = lit.to_string();
    *s == other
}

/// Appends the characters of a string slice.
pub fn push_str(out: &mut Vec<char>, s: &str)
    ensures
        final(out)@ == old(out)@ + s@,
{
    let cs = chars_of(s);
    let mut i: usize = 0;
    while i < cs.len()
        invariant
            i <= cs@.len(),
            cs@ == s@,
            out@ == old(out)@ + cs@.take(i as int),
        decreases cs.len() - i,
    {
        out.push(cs[i]);
        i += 1;
        assert(cs@.take(i as int) == cs@.take(i - 1).push(cs@[i - 1]));
    }
    assert(cs@.take(cs@.len() as int) == cs@);
}

/// Appends the characters of `src`.
pub fn push_chars(out: &mut Vec<char>, src: &Vec<char>)
    ensures
        final(out)@ == old(out)@ + src@,
{
    let mut i: usize = 0;
    while i < src.len()
        invariant
            i <= src@.len(),
            out@ == old(out)@ + src@.take(i as int),
        decreases src.len() - i,
    {
        out.push(src[i]);
        i += 1;
        assert(src@.take(i as int) == src@.take(i - 1).push(src@[i - 1]));
    }
    assert(src@.take(src@.len() as int) == src@);
}

/// The decimal digits of `n`.
pub fn u64_text(n: u64) -> (r: Vec<char>)
    ensures
        r@ == nat_text(n as nat),
    decreases n,
{
    if n < 10 {
        let c = ((n as u32) + ('0' as u32)) as u8 as char;
        proof {
            assert(c == digit_char(n as int));
        }
        let mut r: Vec<char> = Vec::new();
        r.push(c);
        assert(r@ == seq![digit_char(n as int)]);
        r
    } else {
        let mut r = u64_text(n / 10);
        let d = n % 10;
        let c = ((d as u32) + ('0' as u32)) as u8 as char;
        assert(c == digit_char((n % 10) as int));
        r.push(c);
        r
    }
}

/// The decimal rendering of `v`, with a leading `-` when negative.
pub fn i64_text(v: i64) -> (r: Vec<char>)
    ensures
        r@ == int_text(v as int),
{
    if v < 0 {
        let magnitude: u64 = if v == i64::MIN {
            9223372036854775808u64
        } else {
            (-v) as u64
        };
        let digits = u64_text(magnitude);
        let mut r: Vec<char> = Vec::new();
        r.push('-');
        push_chars(&mut r, &digits);
        assert(r@ == seq!['-'] + nat_text((-(v as int)) as nat));
        r
    } else {
        u64_text(v as u64)
    }
}

/// `n` in decimal, padded on the left with `0` to at least `width` characters.
pub fn padded_u64_text(n: u64, width: usize) -> (r: Vec<char>)
    ensures
        r@ == padded_text(n as nat, width as nat),
{
    let digits = u64_text(n);
    if digits.len() < width {
        let pad_len = width - digits.len();
        let mut r: Vec<char> = Vec::new();
        let mut i: usize = 0;
        while i < pad_len
            invariant
                i <= pad_len,
                r@ == Seq::new(i as nat, |k: int| '0'),
            decreases pad_len - i,
        {
            r.push('0');
            i += 1;
            assert(r@ == Seq::new(i as nat, |k: int| '0'));
        }
        push_chars(&mut r, &digits);
        r
    } else {
        digits
    }
}

/// Code-point order on character sequences.
pub fn chars_less(a: &Vec<char>, b: &Vec<char>) -> (r: bool)
    ensures
        r == chars_lt(a@, b@),
{
    let mut i: usize = 0;
    assert(a@.skip(0) == a@ && b@.skip(0) == b@);
    while i < a.len() && i < b.len() && a[i] == b[i]
        invariant
            i <= a@.len(),
            i <= b@.len(),
            a@.take(i as int) == b@.take(i as int),
            chars_lt(a@, b@) == chars_lt(a@.skip(i as int), b@.skip(i as int)),
        decreases a.len() - i,
    {
        proof {
            let sa = a@.skip(i as int);
            let sb = b@.skip(i as int);
            assert(sa.drop_first() == a@.skip(i + 1));
            assert(sb.drop_first() == b@.skip(i + 1));
            assert(a@.take(i + 1) == a@.take(i as int).push(a@[i as int]));
            assert(b@.take(i + 1) == b@.take(i as int).push(b@[i as int]));
        }
        i += 1;
    }
    if i == b.len() {
        false
    } else if i == a.len() {
        true
    } else {
        a[i] < b[i]
    }
}


/// The position of the first `c` in `s`, or its length if it has none.
pub open spec fn index_of(s: Seq<char>, c: char) -> int
    decreases s.len(),
{
    if s.len() == 0 {
        0
    } else if s[0] == c {
        0
    } else {
        1 + index_of(s.drop_first(), c)
    }
}

/// `s` without its leading whitespace.
pub open spec fn trim_start(s: Seq<char>) -> Seq<char>
    decreases s.len(),
{
    if s.len() > 0 && is_ws(s[0]) {
        trim_start(s.drop_first())
    } else {
        s
    }
}

/// `s` without its trailing whitespace.
pub open spec fn trim_end(s: Seq<char>) -> Seq<char>
    decreases s.len(),
{
    if s.len() > 0 && is_ws(s.last()) {
        trim_end(s.drop_last())
    } else {
        s
    }
}

/// `s` without leading and trailing whitespace, as `str::trim` gives it.
pub open spec fn trim(s: Seq<char>) -> Seq<char> {
    trim_end(trim_start(s))
}

/// `s` without the copies of `c` it starts with.
pub open spec fn strip_leading(s: Seq<char>, c: char) -> Seq<char>
    decreases s.len(),
{
    if s.len() > 0 && s[0] == c {
        strip_leading(s.drop_first(), c)
    } else {
        s
    }
}

pub proof fn lemma_index_of_bounds(s: Seq<char>, c: char)
    ensures
        0 <= index_of(s, c) <= s.len(),
        index_of(s, c) < s.len() ==> s[index_of(s, c)] == c,
    decreases s.len(),
{
    if s.len() > 0 && s[0] != c {
        lemma_index_of_bounds(s.drop_first(), c);
    }
}

/// The position of the first `c` in `w`, or its length.
pub fn find_char(w: &Vec<char>, c: char) -> (r: usize)
    ensures
        r == index_of(w@, c),
        r <= w.len(),
{
    let mut i: usize = 0;
    assert(w@.skip(0) == w@);
    while i < w.len() && w[i] != c
        invariant
            i <= w.len(),
            index_of(w@, c) == i + index_of(w@.skip(i as int), c),
        decreases w.len() - i,
    {
        assert(w@.skip(i as int).drop_first() == w@.skip(i + 1));
        i += 1;
    }
    if i == w.len() {
        assert(w@.skip(i as int).len() == 0);
    }
    i
}

/// `w[start..end]` as a new vector.
pub fn slice_chars(w: &Vec<char>, start: usize, end: usize) -> (r: Vec<char>)
    requires
        start <= end <= w.len(),
    ensures
        r@ == w@.subrange(start as int, end as int),
{
    let mut r: Vec<char> = Vec::new();
    let mut i = start;
    while i < end
        invariant
            start <= i <= end,
            end <= w.len(),
            r@ == w@.subrange(start as int, i as int),
        decreases end - i,
    {
        r.push(w[i]);
        i += 1;
        assert(r@ =~= w@.subrange(start as int, i as int));
    }
    r
}

/// `w` without leading and trailing whitespace.
pub fn trim_chars(w: &Vec<char>) -> (r: Vec<char>)
    ensures
        r@ == trim(w@),
{
    let mut a: usize = 0;
    assert(w@.skip(0) == w@);
    while a < w.len() && is_whitespace(w[a])
        invariant
            a <= w.len(),
            trim_start(w@) == trim_start(w@.skip(a as int)),
        decreases w.len() - a,
    {
        assert(w@.skip(a as int).drop_first() == w@.skip(a + 1));
        a += 1;
    }
    let ghost t = w@.skip(a as int);
    assert(trim_start(t) == t);
    let mut b: usize = w.len();
    assert(t.take(t.len() as int) == t);
    while b > a && is_whitespace(w[b - 1])
        invariant
            a <= b <= w.len(),
            t == w@.skip(a as int),
            trim_end(t) == trim_end(t.take(b - a)),
        decreases b,
    {
        assert(t.take(b - a).drop_last() == t.take(b - a - 1));
        b -= 1;
    }
    assert(trim_end(t.take(b - a)) == t.take(b - a));
    assert(t.take(b - a) =~= w@.subrange(a as int, b as int));
    slice_chars(w, a, b)
}

/// `w` without the copies of `c` it starts with.
pub fn strip_leading_chars(w: &Vec<char>, c: char) -> (r: Vec<char>)
    ensures
        r@ == strip_leading(w@, c),
{
    let mut a: usize = 0;
    assert(w@.skip(0) == w@);
    while a < w.len() && w[a] == c
        invariant
            a <= w.len(),
            strip_leading(w@, c) == strip_leading(w@.skip(a as int), c),
        decreases w.len() - a,
    {
        assert(w@.skip(a as int).drop_first() == w@.skip(a + 1));
        a += 1;
    }
    assert(w@.skip(a as int) =~= w@.subrange(a as int, w.len() as int));
    slice_chars(w, a, w.len())
}


pub proof fn lemma_chars_lt_irreflexive(a: Seq<char>)
    ensures
        !chars_lt(a, a),
    decreases a.len(),
{
    if a.len() > 0 {
        lemma_chars_lt_irreflexive(a.drop_first());
    }
}

pub proof fn lemma_chars_lt_transitive(a: Seq<char>, b: Seq<char>, c: Seq<char>)
    requires
        chars_lt(a, b),
        chars_lt(b, c),
    ensures
        chars_lt(a, c),
    decreases a.len(),
{
    if a.len() > 0 && b.len() > 0 && c.len() > 0 && a[0] == b[0] && b[0] == c[0] {
        lemma_chars_lt_transitive(a.drop_first(), b.drop_first(), c.drop_first());
    }
}

pub proof fn lemma_chars_lt_total(a: Seq<char>, b: Seq<char>)
    requires
        a != b,
    ensures
        chars_lt(a, b) || chars_lt(b, a),
    decreases a.len(),
{
    if a.len() == 0 {
        if b.len() == 0 {
            assert(a =~= b);
        }
    } else if b.len() == 0 {
    } else if a[0] == b[0] {
        if a.drop_first() == b.drop_first() {
            assert(a =~= seq![a[0]] + a.drop_first());
            assert(b =~= seq![b[0]] + b.drop_first());
        }
        lemma_chars_lt_total(a.drop_first(), b.drop_first());
    } else {
        assert((a[0] as int) != (b[0] as int));
    }
}

pub proof fn lemma_chars_lt_asymmetric(a: Seq<char>, b: Seq<char>)
    requires
        chars_lt(a, b),
    ensures
        !chars_lt(b, a),
{
    if chars_lt(b, a) {
        lemma_chars_lt_transitive(a, b, a);
        lemma_chars_lt_irreflexive(a);
    }
}

/// Code-point order on texts is a strict total order.
pub proof fn lemma_text_order(a: Seq<char>, b: Seq<char>, c: Seq<char>)
    ensures
        !chars_lt(a, a),
        chars_lt(a, b) && chars_lt(b, c) ==> chars_lt(a, c),
        chars_lt(a, b) ==> !chars_lt(b, a),
        a != b ==> chars_lt(a, b) || chars_lt(b, a),
{
    lemma_chars_lt_irreflexive(a);
    if chars_lt(a, b) && chars_lt(b, c) {
        lemma_chars_lt_transitive(a, b, c);
    }
    if chars_lt(a, b) {
        lemma_chars_lt_asymmetric(a, b);
    }
    if a != b {
        lemma_chars_lt_total(a, b);
    }
}

/// Ten to the power `k`.
pub open spec fn pow10(k: nat) -> nat
    decreases k,
{
    if k == 0 {
        1
    } else {
        10 * pow10((k - 1) as nat)
    }
}

proof fn lemma_zeros_then_digits(k: nat, t: Seq<char>)
    requires
        all_digits(t),
    ensures
        all_digits(Seq::new(k, |i: int| '0') + t),
        digits_value(Seq::new(k, |i: int| '0') + t) == digits_value(t),
    decreases t.len(),
{
    let z = Seq::new(k, |i: int| '0');
    if t.len() == 0 {
        assert(z + t =~= z);
        lemma_zeros_value(k);
    } else {
        lemma_zeros_then_digits(k, t.drop_last());
        assert((z + t).drop_last() =~= z + t.drop_last());
        assert((z + t).last() == t.last());
    }
    assert forall|i: int| 0 <= i < (z + t).len() implies is_digit(#[trigger] (z + t)[i]) by {
        if i >= k {
            assert((z + t)[i] == t[i - k]);
        }
    }
}

proof fn lemma_zeros_value(k: nat)
    ensures
        digits_value(Seq::new(k, |i: int| '0')) == 0,
    decreases k,
{
    if k > 0 {
        lemma_zeros_value((k - 1) as nat);
        assert(Seq::new(k, |i: int| '0').drop_last() =~= Seq::new((k - 1) as nat, |i: int| '0'));
    }
}

/// A padded rendering is made of digits and has the value rendered.
pub proof fn lemma_padded_text_digits(n: nat, width: nat)
    ensures
        padded_text(n, width).len() >= 1,
        all_digits(padded_text(n, width)),
        digits_value(padded_text(n, width)) == n,
{
    lemma_nat_text_digits(n);
    let t = nat_text(n);
    if t.len() < width {
        lemma_zeros_then_digits((width - t.len()) as nat, t);
    }
}

/// A number below `10^k` takes at most `k` digits (`k >= 1`), so padding it
/// to `k` gives exactly `k` characters.
pub proof fn lemma_padded_text_len(n: nat, k: nat)
    requires
        k >= 1,
        n < pow10(k),
    ensures
        nat_text(n).len() <= k,
        padded_text(n, k).len() == k,
    decreases k,
{
    if n >= 10 {
        if k == 1 {
            assert(pow10(1) == 10 * pow10(0));
        } else {
            assert(pow10(k) == 10 * pow10((k - 1) as nat));
            lemma_padded_text_len(n / 10, (k - 1) as nat);
        }
    }
}

proof fn lemma_digits_value_bound(s: Seq<char>)
    requires
        all_digits(s),
    ensures
        digits_value(s) < pow10(s.len()),
    decreases s.len(),
{
    if s.len() > 0 {
        lemma_digits_value_bound(s.drop_last());
        assert(is_digit(s[s.len() - 1]));
        let v = digits_value(s.drop_last());
        let p = pow10((s.len() - 1) as nat);
        assert(v * 10 + 9 < 10 * p) by (nonlinear_arith)
            requires
                v < p,
        ;
    }
}

proof fn lemma_digits_value_front(s: Seq<char>)
    requires
        s.len() > 0,
        all_digits(s),
    ensures
        digits_value(s) == digit_value(s[0]) * pow10((s.len() - 1) as nat) + digits_value(
            s.drop_first(),
        ),
    decreases s.len(),
{
    assert(is_digit(s[0]) && is_digit(s.last()));
    if s.len() == 1 {
        assert(s.drop_last() =~= Seq::<char>::empty());
        assert(s.drop_first() =~= Seq::<char>::empty());
        assert(pow10(0) == 1);
        assert(s.last() == s[0]);
        assert(digits_value(s.drop_last()) == 0);
        assert(digits_value(s) == digit_value(s[0]));
        assert(digits_value(s.drop_first()) == 0);
        assert(digit_value(s[0]) * 1 == digit_value(s[0]));
    } else {
        let u = s.drop_last();
        assert forall|i: int| 0 <= i < u.len() implies is_digit(#[trigger] u[i]) by {
            assert(u[i] == s[i]);
        }
        lemma_digits_value_front(u);
        let w = s.drop_first();
        assert(u.drop_first() =~= w.drop_last());
        assert(w.last() == s.last());
        let d0 = digit_value(s[0]);
        let dl = digit_value(s.last());
        let p = pow10((s.len() - 2) as nat);
        let v = digits_value(u.drop_first());
        assert(digits_value(u) == d0 * p + v);
        assert(digits_value(s) == digits_value(u) * 10 + dl);
        assert(digits_value(w) == v * 10 + dl);
        assert(pow10((s.len() - 1) as nat) == 10 * p);
        assert((d0 * p + v) * 10 + dl == d0 * (10 * p) + (v * 10 + dl)) by (nonlinear_arith);
    }
}

/// Digit strings of one length compare as text as their values compare.
pub proof fn lemma_digits_order(a: Seq<char>, b: Seq<char>)
    requires
        all_digits(a),
        all_digits(b),
        a.len() == b.len(),
    ensures
        chars_lt(a, b) <==> digits_value(a) < digits_value(b),
    decreases a.len(),
{
    if a.len() > 0 {
        lemma_digits_value_front(a);
        lemma_digits_value_front(b);
        if a == b {
            lemma_chars_lt_irreflexive(a);
        }
        let ra = a.drop_first();
        let rb = b.drop_first();
        assert(all_digits(ra) && all_digits(rb)) by {
            assert forall|i: int| 0 <= i < ra.len() implies is_digit(#[trigger] ra[i]) by {
                assert(ra[i] == a[i + 1]);
            }
            assert forall|i: int| 0 <= i < rb.len() implies is_digit(#[trigger] rb[i]) by {
                assert(rb[i] == b[i + 1]);
            }
        }
        lemma_digits_value_bound(ra);
        lemma_digits_value_bound(rb);
        let p = pow10((a.len() - 1) as nat);
        let da = digit_value(a[0]);
        let db = digit_value(b[0]);
        assert(is_digit(a[0]) && is_digit(b[0]));
        if a[0] == b[0] {
            lemma_digits_order(ra, rb);
        } else if da < db {
            assert(da * p + digits_value(ra) < db * p + digits_value(rb)) by (nonlinear_arith)
                requires
                    da < db,
                    digits_value(ra) < p,
                    0 <= da,
            ;
        } else {
            assert(db * p + digits_value(rb) < da * p + digits_value(ra)) by (nonlinear_arith)
                requires
                    db < da,
                    digits_value(rb) < p,
                    0 <= db,
            ;
        }
    }
}

/// Texts that start with parts of one length compare by those parts first,
/// and by what follows when the parts are equal.
pub proof fn lemma_chars_lt_concat(x: Seq<char>, y: Seq<char>, x2: Seq<char>, y2: Seq<char>)
    requires
        x.len() == x2.len(),
    ensures
        chars_lt(x + y, x2 + y2) == if x == x2 {
            chars_lt(y, y2)
        } else {
            chars_lt(x, x2)
        },
    decreases x.len(),
{
    if x.len() == 0 {
        assert(x + y =~= y);
        assert(x2 + y2 =~= y2);
        assert(x =~= x2);
    } else {
        assert((x + y)[0] == x[0]);
        assert((x2 + y2)[0] == x2[0]);
        if x[0] == x2[0] {
            assert((x + y).drop_first() =~= x.drop_first() + y);
            assert((x2 + y2).drop_first() =~= x2.drop_first() + y2);
            lemma_chars_lt_concat(x.drop_first(), y, x2.drop_first(), y2);
            if x.drop_first() == x2.drop_first() {
                assert forall|i: int| 0 <= i < x.len() implies x[i] == x2[i] by {
                    if i > 0 {
                        assert(x[i] == x.drop_first()[i - 1]);
                        assert(x2[i] == x2.drop_first()[i - 1]);
                    }
                }
                assert(x =~= x2);
            }
        }
    }
}

} // verus!
