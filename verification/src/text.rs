//! Decimal numbers, numbered file names and directory names as text.

use vstd::prelude::*;
use vstd::string::StringExecFns;

verus! {

/// The decimal digit `d`.
pub open spec fn digit(d: int) -> char {
    ('0' as u32 + d) as char
}

/// `c` is a decimal digit.
pub open spec fn is_digit(c: char) -> bool {
    '0' <= c && c <= '9'
}

/// `n` in decimal, without leading zeros.
pub open spec fn decimal(n: nat) -> Seq<char>
    decreases n,
{
    if n < 10 {
        seq![digit(n as int)]
    } else {
        decimal(n / 10).push(digit((n % 10) as int))
    }
}

/// The hexadecimal digit `d`, in lower case.
pub open spec fn hex_digit(d: int) -> char {
    if d < 10 {
        digit(d)
    } else {
        ('a' as u32 + (d - 10)) as char
    }
}

/// `n` in lower-case hexadecimal, without leading zeros.
pub open spec fn hexadecimal(n: nat) -> Seq<char>
    decreases n,
{
    if n < 16 {
        seq![hex_digit(n as int)]
    } else {
        hexadecimal(n / 16).push(hex_digit((n % 16) as int))
    }
}

/// The last `width` decimal digits of `n`, with leading zeros.
pub open spec fn padded(n: nat, width: nat) -> Seq<char>
    decreases width,
{
    if width == 0 {
        seq![]
    } else {
        padded(n / 10, (width - 1) as nat).push(digit((n % 10) as int))
    }
}

/// The number that a run of digits denotes.
pub open spec fn number(s: Seq<char>) -> nat
    decreases s.len(),
{
    if s.len() == 0 {
        0
    } else {
        number(s.drop_last()) * 10 + (s.last() as u32 - '0' as u32) as nat
    }
}

/// Every character is a digit.
pub open spec fn all_digits(s: Seq<char>) -> bool {
    forall|i: int| 0 <= i < s.len() ==> is_digit(#[trigger] s[i])
}

/// The digits of `s` behind an optional plus sign.
pub open spec fn unsigned_part(s: Seq<char>) -> Seq<char> {
    if s.len() > 0 && s[0] == '+' {
        s.skip(1)
    } else {
        s
    }
}

/// `s` read as a `u64`: an optional plus sign, then one or more digits, of a
/// number that fits.
pub open spec fn parsed_u64(s: Seq<char>) -> Option<u64> {
    let body = unsigned_part(s);
    if body.len() > 0 && all_digits(body) && number(body) <= u64::MAX {
        Some(number(body) as u64)
    } else {
        None
    }
}

/// `2^64` needs twenty digits.
pub open spec fn numbered(prefix: Seq<char>, n: u64, suffix: Seq<char>) -> Seq<char> {
    prefix + padded(n as nat, 20) + suffix
}

/// The number between `prefix` and `suffix` in `name`.
pub open spec fn number_between(prefix: Seq<char>, name: Seq<char>, suffix: Seq<char>) -> Option<u64> {
    if prefix.len() + suffix.len() <= name.len() && name.subrange(0, prefix.len() as int) == prefix
        && name.subrange(name.len() - suffix.len(), name.len() as int) == suffix {
        parsed_u64(name.subrange(prefix.len() as int, name.len() - suffix.len()))
    } else {
        None
    }
}

/// `a` and `b` are equally long and at the first difference `a` has the
/// smaller character, so that a sorted listing has `a` first.
pub open spec fn listed_before(a: Seq<char>, b: Seq<char>) -> bool {
    a.len() == b.len() && exists|i: int| #[trigger]
        listed_before_at(a, b, i)
}

/// `a` and `b` first differ at `i`, where `a` has the smaller character.
pub open spec fn listed_before_at(a: Seq<char>, b: Seq<char>, i: int) -> bool {
    0 <= i < a.len() && i < b.len() && a[i] < b[i] && a.subrange(0, i) == b.subrange(0, i)
}

/// `10^e`.
pub open spec fn power_of_ten(e: nat) -> nat
    decreases e,
{
    if e == 0 {
        1
    } else {
        10 * power_of_ten((e - 1) as nat)
    }
}

/// The digits of a number that has at most `width` digits denote it.
pub proof fn lemma_padded(n: nat, width: nat)
    requires
        n < power_of_ten(width),
    ensures
        padded(n, width).len() == width,
        all_digits(padded(n, width)),
        number(padded(n, width)) == n,
    decreases width,
{
    if width > 0 {
        let w = (width - 1) as nat;
        assert(n / 10 < power_of_ten(w)) by {
            assert(n < 10 * power_of_ten(w));
        }
        lemma_padded(n / 10, w);
        let s = padded(n, width);
        assert(s.drop_last() =~= padded(n / 10, w));
    }
}

/// Twenty digits hold every `u64`.
pub proof fn lemma_twenty_digits()
    ensures
        u64::MAX < power_of_ten(20),
{
    reveal_with_fuel(power_of_ten, 21);
}

/// The number in a numbered file name is read back from it.
pub proof fn lemma_numbered_read_back(prefix: Seq<char>, n: u64, suffix: Seq<char>)
    ensures
        number_between(prefix, numbered(prefix, n, suffix), suffix) == Some(n),
{
    lemma_twenty_digits();
    lemma_padded(n as nat, 20);
    let name = numbered(prefix, n, suffix);
    let body = padded(n as nat, 20);
    assert(name.subrange(0, prefix.len() as int) =~= prefix);
    assert(name.subrange(name.len() - suffix.len(), name.len() as int) =~= suffix);
    assert(name.subrange(prefix.len() as int, name.len() - suffix.len()) =~= body);
    assert(is_digit(body[0]));
    assert(unsigned_part(body) == body);
}

/// Numbered file names sort like their numbers.
pub proof fn lemma_numbered_sorts(prefix: Seq<char>, a: u64, b: u64, suffix: Seq<char>)
    requires
        a < b,
    ensures
        listed_before(numbered(prefix, a, suffix), numbered(prefix, b, suffix)),
{
    lemma_twenty_digits();
    lemma_padded(a as nat, 20);
    lemma_padded(b as nat, 20);
    let i = lemma_padded_sorts(a as nat, b as nat, 20);
    let x = numbered(prefix, a, suffix);
    let y = numbered(prefix, b, suffix);
    let k = prefix.len() + i;
    let pa = padded(a as nat, 20);
    let pb = padded(b as nat, 20);
    assert(x.subrange(0, k) =~= prefix + pa.subrange(0, i));
    assert(y.subrange(0, k) =~= prefix + pb.subrange(0, i));
    assert(listed_before_at(x, y, k));
}

proof fn lemma_padded_sorts(a: nat, b: nat, width: nat) -> (i: int)
    requires
        a < b < power_of_ten(width),
    ensures
        listed_before_at(padded(a, width), padded(b, width), i),
    decreases width,
{
    let w = (width - 1) as nat;
    let x = padded(a, width);
    let y = padded(b, width);
    lemma_padded(a, width);
    lemma_padded(b, width);
    assert(a / 10 < power_of_ten(w) && b / 10 < power_of_ten(w));
    assert(x.drop_last() =~= padded(a / 10, w));
    assert(y.drop_last() =~= padded(b / 10, w));
    if a / 10 < b / 10 {
        let i = lemma_padded_sorts(a / 10, b / 10, w);
        lemma_padded(a / 10, w);
        lemma_padded(b / 10, w);
        assert(x.subrange(0, i) =~= x.drop_last().subrange(0, i));
        assert(y.subrange(0, i) =~= y.drop_last().subrange(0, i));
        i
    } else {
        assert(a / 10 == b / 10);
        assert(x.subrange(0, w as int) =~= x.drop_last());
        assert(y.subrange(0, w as int) =~= y.drop_last());
        w as int
    }
}

/// The text of one digit.
fn digit_text(d: u64) -> (s: &'static str)
    requires
        d < 10,
    ensures
        s@ == seq![digit(d as int)],
{
    proof {
        reveal_strlit("0");
        reveal_strlit("1");
        reveal_strlit("2");
        reveal_strlit("3");
        reveal_strlit("4");
        reveal_strlit("5");
        reveal_strlit("6");
        reveal_strlit("7");
        reveal_strlit("8");
        reveal_strlit("9");
    }
    let s = if d == 0 {
        "0"
    } else if d == 1 {
        "1"
    } else if d == 2 {
        "2"
    } else if d == 3 {
        "3"
    } else if d == 4 {
        "4"
    } else if d == 5 {
        "5"
    } else if d == 6 {
        "6"
    } else if d == 7 {
        "7"
    } else if d == 8 {
        "8"
    } else {
        "9"
    };
    assert(s@ =~= seq![digit(d as int)]);
    s
}

/// `n` in decimal.
pub fn decimal_text(n: u64) -> (s: String)
    ensures
        s@ == decimal(n as nat),
    decreases n,
{
    if n < 10 {
        String::from_str(digit_text(n))
    } else {
        let mut s = decimal_text(n / 10);
        s.append(digit_text(n % 10));
        assert(s@ =~= decimal(n as nat));
        s
    }
}

/// The text of one hexadecimal digit.
fn hex_digit_text(d: u64) -> (s: &'static str)
    requires
        d < 16,
    ensures
        s@ == seq![hex_digit(d as int)],
{
    proof {
        reveal_strlit("a");
        reveal_strlit("b");
        reveal_strlit("c");
        reveal_strlit("d");
        reveal_strlit("e");
        reveal_strlit("f");
    }
    let s = if d < 10 {
        digit_text(d)
    } else if d == 10 {
        "a"
    } else if d == 11 {
        "b"
    } else if d == 12 {
        "c"
    } else if d == 13 {
        "d"
    } else if d == 14 {
        "e"
    } else {
        "f"
    };
    assert(s@ =~= seq![hex_digit(d as int)]);
    s
}

/// `n` in lower-case hexadecimal.
pub fn hexadecimal_text(n: u64) -> (s: String)
    ensures
        s@ == hexadecimal(n as nat),
    decreases n,
{
    if n < 16 {
        String::from_str(hex_digit_text(n))
    } else {
        let mut s = hexadecimal_text(n / 16);
        s.append(hex_digit_text(n % 16));
        assert(s@ =~= hexadecimal(n as nat));
        s
    }
}

/// A text in quotes, with what needs it escaped, as `<str as Debug>::fmt`
/// shows it.
pub uninterp spec fn quoted(s: Seq<char>) -> Seq<char>;

/// `format!("{:?}")` of a text: a function of the text alone, named by [`quoted`].
#[verifier::external_body]
pub(crate) fn quoted_text(s: &str) -> (r: String)
    ensures
        r@ == quoted(s@),
{
    format!("{:?}", s)
}

/// The last `width` digits of `n`, with leading zeros.
pub fn padded_text(n: u64, width: u64) -> (s: String)
    ensures
        s@ == padded(n as nat, width as nat),
    decreases width,
{
    if width == 0 {
        let s = String::new();
        assert(s@ =~= padded(n as nat, 0));
        s
    } else {
        let mut s = padded_text(n / 10, width - 1);
        s.append(digit_text(n % 10));
        assert(s@ =~= padded(n as nat, width as nat));
        s
    }
}

/// `prefix`, the twenty digits of `n`, `suffix`.
pub fn numbered_text(prefix: &str, n: u64, suffix: &str) -> (s: String)
    ensures
        s@ == numbered(prefix@, n, suffix@),
{
    let mut s = String::from_str(prefix);
    s.append(padded_text(n, 20).as_str());
    s.append(suffix);
    s
}

proof fn lemma_number_grows(s: Seq<char>, i: int)
    requires
        all_digits(s),
        0 <= i <= s.len(),
    ensures
        number(s.take(i)) <= number(s),
    decreases s.len() - i,
{
    if i < s.len() {
        lemma_number_grows(s, i + 1);
        assert(s.take(i + 1).drop_last() =~= s.take(i));
        assert(is_digit(s[i]));
        assert(s.take(i + 1).last() == s[i]);
    } else {
        assert(s.take(i) =~= s);
    }
}

/// Reads the characters of `s` from `from` up to `to` as a `u64`.
fn parse_range(s: &str, from: usize, to: usize) -> (r: Option<u64>)
    requires
        from <= to <= s@.len(),
    ensures
        r == parsed_u64(s@.subrange(from as int, to as int)),
{
    let ghost whole = s@.subrange(from as int, to as int);
    let ghost body = unsigned_part(whole);
    let mut at = from;
    if from < to && s.get_char(from) == '+' {
        at = from + 1;
        assert(body =~= s@.subrange(at as int, to as int));
    } else {
        assert(body =~= s@.subrange(at as int, to as int));
    }
    if at == to {
        return None;
    }
    let start = at;
    let mut n: u64 = 0;
    assert(body.take(0) =~= Seq::<char>::empty());
    while at < to
        invariant
            start <= at <= to <= s@.len(),
            start < to,
            body == unsigned_part(whole),
            whole == s@.subrange(from as int, to as int),
            body == s@.subrange(start as int, to as int),
            all_digits(body.take(at - start)),
            n == number(body.take(at - start)),
        decreases to - at,
    {
        let c = s.get_char(at);
        let ghost i = at - start;
        assert(c == body[i]);
        assert(body.take(i + 1).drop_last() =~= body.take(i));
        assert(body.take(i + 1).last() == c);
        if c < '0' || c > '9' {
            assert(!is_digit(body[i]));
            return None;
        }
        let d = (c as u32 - '0' as u32) as u64;
        assert(number(body.take(i + 1)) == n * 10 + d);
        if n > (u64::MAX - d) / 10 {
            proof {
                if all_digits(body) {
                    lemma_number_grows(body, i + 1);
                }
            }
            return None;
        }
        n = n * 10 + d;
        proof {
            assert forall|j: int| 0 <= j < i + 1 implies is_digit(#[trigger] body.take(i + 1)[j]) by {
                if j < i {
                    assert(is_digit(body.take(i)[j]));
                }
            }
        }
        at += 1;
    }
    assert(body.take(to - start) =~= body);
    Some(n)
}

/// Whether the characters of `part` stand in `s` from `at` on.
fn text_stands_at(s: &str, at: usize, part: &str) -> (r: bool)
    requires
        at + part@.len() <= s@.len(),
    ensures
        r == (s@.subrange(at as int, at + part@.len()) == part@),
{
    let n = part.unicode_len();
    let total = s.unicode_len();
    let ghost sub = s@.subrange(at as int, at + part@.len());
    let mut i: usize = 0;
    while i < n
        invariant
            i <= n,
            n == part@.len(),
            total == s@.len(),
            at + n <= total,
            sub == s@.subrange(at as int, at + part@.len()),
            forall|j: int| 0 <= j < i ==> sub[j] == part@[j],
        decreases n - i,
    {
        if s.get_char(at + i) != part.get_char(i) {
            assert(sub[i as int] != part@[i as int]);
            return false;
        }
        i += 1;
    }
    assert(sub =~= part@);
    true
}

/// The number between `prefix` and `suffix` in `name`, if `name` has that form.
pub fn parse_numbered(prefix: &str, name: &str, suffix: &str) -> (r: Option<u64>)
    ensures
        r == number_between(prefix@, name@, suffix@),
{
    let total = name.unicode_len();
    let p = prefix.unicode_len();
    let q = suffix.unicode_len();
    if p > total || q > total - p {
        return None;
    }
    if !text_stands_at(name, 0, prefix) || !text_stands_at(name, total - q, suffix) {
        return None;
    }
    parse_range(name, p, total - q)
}

/// The name of `name` inside the directory `dir`.
pub open spec fn joined(dir: Seq<char>, name: Seq<char>) -> Seq<char> {
    if dir.len() == 0 || dir.last() == '/' {
        dir + name
    } else {
        dir.push('/') + name
    }
}

/// Different names in one directory have different paths.
pub proof fn lemma_joined_injective(dir: Seq<char>, a: Seq<char>, b: Seq<char>)
    requires
        joined(dir, a) == joined(dir, b),
    ensures
        a == b,
{
    let head = if dir.len() == 0 || dir.last() == '/' {
        dir
    } else {
        dir.push('/')
    };
    assert(joined(dir, a).skip(head.len() as int) =~= a);
    assert(joined(dir, b).skip(head.len() as int) =~= b);
}

/// The name of `name` inside the directory `dir`.
pub fn join_text(dir: &str, name: &str) -> (s: String)
    ensures
        s@ == joined(dir@, name@),
{
    let n = dir.unicode_len();
    let mut s = String::from_str(dir);
    if n > 0 && dir.get_char(n - 1) != '/' {
        proof {
            reveal_strlit("/");
        }
        s.append("/");
        assert(s@ =~= dir@.push('/'));
    }
    s.append(name);
    s
}

/// A number in decimal is made of digits, the first of which is no zero unless it is
/// the only one, and denotes the number. It is read back, with a plus sign in front
/// and with zeros too, exactly if it fits.
pub proof fn lemma_decimal_read_back(n: nat, zeros: nat)
    ensures
        all_digits(decimal(n)),
        decimal(n).len() > 0,
        decimal(n).len() > 1 ==> decimal(n)[0] != '0',
        n > 0 ==> decimal(n)[0] != '0',
        number(decimal(n)) == n,
        n <= u64::MAX ==> parsed_u64(decimal(n)) == Some(n as u64) && parsed_u64(
            seq!['+'] + decimal(n),
        ) == Some(n as u64) && parsed_u64(Seq::new(zeros, |i: int| '0') + decimal(n)) == Some(n as u64),
        n > u64::MAX ==> parsed_u64(decimal(n)) is None,
{
    lemma_decimal(n);
    let d = decimal(n);
    assert(!is_digit('+'));
    assert(is_digit(d[0]));
    assert((seq!['+'] + d).skip(1) =~= d);
    let z = Seq::new(zeros, |i: int| '0');
    lemma_leading_zeros(z, d);
    assert((z + d)[0] != '+');
    assert(all_digits(z + d));
}

proof fn lemma_decimal(n: nat)
    ensures
        all_digits(decimal(n)),
        decimal(n).len() > 0,
        n > 0 ==> decimal(n)[0] != '0',
        n < 10 <==> decimal(n).len() == 1,
        number(decimal(n)) == n,
    decreases n,
{
    if n < 10 {
        let s = seq![digit(n as int)];
        assert(s.drop_last() =~= Seq::<char>::empty());
        assert(number(s.drop_last()) == 0);
        assert(number(s) == number(s.drop_last()) * 10 + (s.last() as u32 - '0' as u32) as nat);
    } else {
        lemma_decimal(n / 10);
        let p = decimal(n / 10);
        let s = p.push(digit((n % 10) as int));
        assert(s.drop_last() =~= p);
        assert(s[0] == p[0]);
        assert(number(s) == number(s.drop_last()) * 10 + (s.last() as u32 - '0' as u32) as nat);
    }
}

proof fn lemma_leading_zeros(z: Seq<char>, s: Seq<char>)
    requires
        forall|i: int| 0 <= i < z.len() ==> #[trigger] z[i] == '0',
    ensures
        number(z + s) == number(s),
    decreases z.len() + s.len(),
{
    if s.len() > 0 {
        assert((z + s).drop_last() =~= z + s.drop_last());
        lemma_leading_zeros(z, s.drop_last());
    } else if z.len() > 0 {
        assert(z + s =~= z);
        assert(z.drop_last() + s =~= z.drop_last());
        lemma_leading_zeros(z.drop_last(), s);
        assert(z.last() == '0');
    } else {
        assert(z + s =~= s);
    }
}

/// What holds anything but digits behind an optional plus sign is no number, nor is
/// what holds no digit.
pub proof fn lemma_no_number(s: Seq<char>, i: int)
    requires
        0 <= i < s.len(),
        !('0' <= s[i] <= '9'),
        i > 0 || s[0] != '+' || s.len() == 1,
    ensures
        parsed_u64(s) is None,
        parsed_u64(seq![]) is None,
{
    if s[0] == '+' {
        let t = s.skip(1);
        if i > 0 {
            assert(t[i - 1] == s[i]);
        }
    }
}

/// The path of a file is its directory, one slash, and its name; a slash that is
/// already there is not doubled, and without a directory the path is the name.
pub proof fn lemma_joined(dir: Seq<char>, name: Seq<char>)
    ensures
        joined(seq![], name) == name,
        joined(dir.push('/'), name) == dir + seq!['/'] + name,
        dir.len() > 0 && dir.last() != '/' ==> joined(dir, name) == dir + seq!['/'] + name,
{
    assert(joined(seq![], name) =~= name);
    assert(dir.push('/') + name =~= dir + seq!['/'] + name);
}

} // verus!
