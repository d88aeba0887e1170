//! Text helpers over the characters of a string.

use vstd::arithmetic::power::pow;
use vstd::prelude::*;

verus! {

/// The characters of a string.
pub fn chars_of(s: &str) -> (v: Vec<char>)
    ensures
        v@ == s@,
{
    let mut v: Vec<char> = Vec::new();
    let n: usize = s.unicode_len();
    let mut it = s.chars();
    let mut i: usize = 0;
    assert(s@.skip(0) =~= s@);
    while i < n
        invariant
            n == s@.len(),
            i <= n,
            v@ == s@.take(i as int),
            vstd::std_specs::iter::IteratorSpec::remaining(&it) == s@.skip(i as int),
            vstd::std_specs::iter::IteratorSpec::obeys_prophetic_iter_laws(&it),
        decreases n - i,
    {
        match it.next() {
            Some(c) => {
                v.push(c);
            },
            None => {
                assert(false);
            },
        }
        proof {
            assert(s@.take(i + 1) =~= s@.take(i as int).push(s@[i as int]));
            assert(s@.skip(i as int).drop_first() =~= s@.skip(i + 1));
        }
        i = i + 1;
    }
    assert(s@.take(n as int) =~= s@);
    v
}

/// Whether the two strings hold the same characters.
pub fn str_eq(a: &str, b: &str) -> (r: bool)
    ensures
        r == (a@ == b@),
{
    let x: String = a.to_owned();
    let y: String = b.to_owned();
    x == y
}

/// Whether `s` starts with `prefix`.
pub fn starts_with(s: &str, prefix: &str) -> (r: bool)
    ensures
        r == prefix@.is_prefix_of(s@),
{
    let n: usize = prefix.unicode_len();
    if s.unicode_len() < n {
        return false;
    }
    let head: &str = s.substring_char(0, n);
    str_eq(head, prefix)
}

/// Whether `s` ends with `suffix`.
pub fn ends_with(s: &str, suffix: &str) -> (r: bool)
    ensures
        r == suffix@.is_suffix_of(s@),
{
    let m: usize = s.unicode_len();
    let n: usize = suffix.unicode_len();
    if m < n {
        return false;
    }
    let tail: &str = s.substring_char(m - n, m);
    str_eq(tail, suffix)
}

/// What follows `prefix` in `s`, where `s` starts with it.
pub fn strip_prefix<'a>(s: &'a str, prefix: &str) -> (r: Option<&'a str>)
    ensures
        match r {
            Some(rest) => prefix@.is_prefix_of(s@) && rest@ == s@.skip(prefix@.len() as int),
            None => !prefix@.is_prefix_of(s@),
        },
{
    if starts_with(s, prefix) {
        let n: usize = prefix.unicode_len();
        let m: usize = s.unicode_len();
        let rest: &str = s.substring_char(n, m);
        assert(rest@ =~= s@.skip(n as int));
        Some(rest)
    } else {
        None
    }
}

/// The two strings one behind the other.
pub fn concat2(a: &str, b: &str) -> (r: String)
    ensures
        r@ == a@ + b@,
{
    a.to_owned().concat(b)
}

/// The three strings one behind the other.
pub fn concat3(a: &str, b: &str, c: &str) -> (r: String)
    ensures
        r@ == a@ + b@ + c@,
{
    a.to_owned().concat(b).concat(c)
}

/// Where `c` first occurs in `s` at or after `from`, or the length of `s`.
pub open spec fn index_from(s: Seq<char>, c: char, from: int) -> int
    decreases s.len() - from,
{
    if from < 0 || from >= s.len() {
        s.len() as int
    } else if s[from] == c {
        from
    } else {
        index_from(s, c, from + 1)
    }
}

/// The index is the first occurrence.
pub proof fn lemma_index_from(s: Seq<char>, c: char, from: int)
    requires
        0 <= from <= s.len(),
    ensures
        from <= index_from(s, c, from) <= s.len(),
        index_from(s, c, from) < s.len() ==> s[index_from(s, c, from)] == c,
        forall|i: int| from <= i < index_from(s, c, from) ==> s[i] != c,
    decreases s.len() - from,
{
    if from < s.len() && s[from] != c {
        lemma_index_from(s, c, from + 1);
    }
}

/// Where `c` first occurs among the characters, or their number.
pub fn find_char(v: &Vec<char>, c: char, from: usize) -> (i: usize)
    requires
        from <= v@.len(),
    ensures
        i == index_from(v@, c, from as int),
        from <= i <= v@.len(),
{
    proof {
        lemma_index_from(v@, c, from as int);
    }
    let mut i: usize = from;
    while i < v.len() && v[i] != c
        invariant
            from <= i <= v@.len(),
            index_from(v@, c, from as int) == index_from(v@, c, i as int),
        decreases v@.len() - i,
    {
        i = i + 1;
    }
    i
}

/// The character is a decimal digit.
pub open spec fn is_digit(c: char) -> bool {
    '0' <= c <= '9'
}

/// The number that decimal digits spell.
pub open spec fn digits_value(s: Seq<char>) -> int
    decreases s.len(),
{
    if s.len() == 0 {
        0
    } else {
        digits_value(s.drop_last()) * 10 + (s.last() as int - '0' as int)
    }
}

/// The characters are decimal digits, and there is at least one.
pub open spec fn all_digits(s: Seq<char>) -> bool {
    s.len() > 0 && forall|i: int| 0 <= i < s.len() ==> is_digit(#[trigger] s[i])
}

/// The digits behind an optional plus sign.
pub open spec fn unsigned_digits(s: Seq<char>) -> Seq<char> {
    if s.len() > 0 && s[0] == '+' {
        s.skip(1)
    } else {
        s
    }
}

/// The number that `s` spells as an unsigned integer of at most `max`: decimal
/// digits, optionally behind a plus sign.
pub open spec fn unsigned_value(s: Seq<char>, max: int) -> Option<int> {
    let d = unsigned_digits(s);
    if all_digits(d) && digits_value(d) <= max {
        Some(digits_value(d))
    } else {
        None
    }
}

/// Leaving off digits leaves a number no larger.
proof fn lemma_digits_value_prefix(s: Seq<char>, n: int)
    requires
        0 <= n <= s.len(),
        forall|i: int| 0 <= i < s.len() ==> is_digit(#[trigger] s[i]),
    ensures
        0 <= digits_value(s.take(n)) <= digits_value(s),
    decreases s.len(), s.len() - n,
{
    if n == s.len() {
        assert(s.take(n) =~= s);
        if n > 0 {
            assert(s.drop_last() =~= s.drop_last().take(n - 1));
            lemma_digits_value_prefix(s.drop_last(), n - 1);
            assert(is_digit(s[n - 1]));
        }
    } else {
        let t = s.drop_last();
        lemma_digits_value_prefix(t, n);
        assert(t.take(n) =~= s.take(n));
        assert(t =~= t.take(t.len() as int));
        lemma_digits_value_prefix(t, t.len() as int);
        assert(is_digit(s[s.len() - 1]));
    }
}

/// The number that the characters `from..to` spell, where they are digits and
/// the number is at most `max`.
fn parse_digits(v: &Vec<char>, from: usize, max: u64) -> (r: Option<u64>)
    requires
        from <= v@.len(),
    ensures
        match r {
            Some(n) => all_digits(v@.skip(from as int)) && digits_value(v@.skip(from as int)) == n
                && n <= max,
            None => !(all_digits(v@.skip(from as int)) && digits_value(v@.skip(from as int))
                <= max),
        },
{
    let ghost d = v@.skip(from as int);
    if from == v.len() {
        return None;
    }
    let mut n: u64 = 0;
    let mut i: usize = from;
    assert(d.take(0) =~= Seq::<char>::empty());
    while i < v.len()
        invariant
            from <= i <= v@.len(),
            d == v@.skip(from as int),
            n == digits_value(d.take(i - from)),
            n <= max,
            forall|j: int| 0 <= j < i - from ==> is_digit(#[trigger] d[j]),
        decreases v@.len() - i,
    {
        let c: char = v[i];
        assert(d[i - from] == c);
        if !(c >= '0' && c <= '9') {
            return None;
        }
        let digit: u64 = c as u64 - '0' as u64;
        proof {
            assert(d.take(i - from + 1).drop_last() =~= d.take(i - from));
            assert(d.take(i - from + 1).last() == c);
        }
        let next: u128 = n as u128 * 10 + digit as u128;
        if next > max as u128 {
            proof {
                if all_digits(d) {
                    lemma_digits_value_prefix(d, i - from + 1);
                }
            }
            return None;
        }
        n = next as u64;
        i = i + 1;
    }
    assert(d.take(d.len() as int) =~= d);
    Some(n)
}

/// Reads an unsigned integer of at most `max`.
pub fn parse_unsigned(s: &str, max: u64) -> (r: Option<u64>)
    ensures
        match r {
            Some(n) => unsigned_value(s@, max as int) == Some(n as int),
            None => unsigned_value(s@, max as int) is None,
        },
{
    let v: Vec<char> = chars_of(s);
    if v.len() > 0 && v[0] == '+' {
        parse_digits(&v, 1, max)
    } else {
        assert(v@.skip(0) =~= v@);
        parse_digits(&v, 0, max)
    }
}

/// The number that `s` spells as a 32-bit signed integer: decimal digits,
/// optionally behind a sign.
pub open spec fn signed_value(s: Seq<char>) -> Option<int> {
    if s.len() > 0 && s[0] == '-' {
        let d = s.skip(1);
        if all_digits(d) && digits_value(d) <= 0x8000_0000 {
            Some(-digits_value(d))
        } else {
            None
        }
    } else {
        unsigned_value(s, 0x7fff_ffff)
    }
}

/// Reads a 32-bit signed integer.
pub fn parse_signed(v: &Vec<char>) -> (r: Option<i32>)
    ensures
        match r {
            Some(n) => signed_value(v@) == Some(n as int),
            None => signed_value(v@) is None,
        },
{
    if v.len() > 0 && v[0] == '-' {
        match parse_digits(v, 1, 0x8000_0000) {
            Some(n) => Some((-(n as i64)) as i32),
            None => None,
        }
    } else if v.len() > 0 && v[0] == '+' {
        match parse_digits(v, 1, 0x7fff_ffff) {
            Some(n) => Some(n as i32),
            None => None,
        }
    } else {
        assert(v@.skip(0) =~= v@);
        match parse_digits(v, 0, 0x7fff_ffff) {
            Some(n) => Some(n as i32),
            None => None,
        }
    }
}

/// `s` spells `n` in decimal, without superfluous zeros.
pub open spec fn is_decimal(n: int, s: Seq<char>) -> bool {
    all_digits(s) && digits_value(s) == n && (s.len() > 1 ==> s[0] != '0')
}

fn digit_text(d: u64) -> (s: &'static str)
    requires
        d < 10,
    ensures
        s@.len() == 1,
        s@[0] as int == '0' as int + d,
{
    proof {
        reveal_strlit("0");
        reveal_strlit("1");
        reveal_strlit("2");
        reveal_strlit("3");
        reveal_strlit("4");
        reveal_strlit("5");
        reveal_strlit("6");
        reveal_strlit("7");
        reveal_strlit("8");
        reveal_strlit("9");
    }
    if d == 0 {
        "0"
    } else if d == 1 {
        "1"
    } else if d == 2 {
        "2"
    } else if d == 3 {
        "3"
    } else if d == 4 {
        "4"
    } else if d == 5 {
        "5"
    } else if d == 6 {
        "6"
    } else if d == 7 {
        "7"
    } else if d == 8 {
        "8"
    } else {
        "9"
    }
}

/// The character of a digit.
pub open spec fn digit_char(d: nat) -> char {
    ('0' as int + d) as char
}

/// The text that spells a number in decimal.
pub open spec fn decimal_text(n: nat) -> Seq<char>
    decreases n,
{
    if n < 10 {
        seq![digit_char(n)]
    } else {
        decimal_text(n / 10).push(digit_char(n % 10))
    }
}

/// A number in decimal.
pub fn decimal(n: u64) -> (s: String)
    ensures
        is_decimal(n as int, s@),
        s@ == decimal_text(n as nat),
    decreases n,
{
    if n < 10 {
        let s: String = digit_text(n).to_owned();
        proof {
            assert(s@ =~= decimal_text(n as nat));
            reveal_with_fuel(digits_value, 2);
            assert(s@.drop_last() =~= Seq::<char>::empty());
        }
        s
    } else {
        let head: String = decimal(n / 10);
        let ghost h = head@;
        let s: String = head.concat(digit_text(n % 10));
        proof {
            assert(s@ =~= h.push(digit_char((n % 10) as nat)));
            assert(s@.drop_last() =~= h);
            assert forall|i: int| 0 <= i < s@.len() implies is_digit(#[trigger] s@[i]) by {
                if i < h.len() {
                    assert(s@[i] == h[i]);
                }
            }
            assert(s@[0] == h[0]);
            if h.len() == 1 {
                assert(h[0] != '0') by {
                    if h[0] == '0' {
                        reveal_with_fuel(digits_value, 2);
                        assert(h.drop_last() =~= Seq::<char>::empty());
                        assert(digits_value(h) == 0);
                    }
                }
            }
        }
        s
    }
}

/// Different numbers have different texts.
pub proof fn decimal_text_is_injective(a: nat, b: nat)
    requires
        decimal_text(a) == decimal_text(b),
    ensures
        a == b,
    decreases a,
{
    let s = decimal_text(a);
    if a < 10 && b < 10 {
        assert(s[0] == digit_char(a) && s[0] == digit_char(b));
    } else if a < 10 || b < 10 {
        lemma_decimal_text_is_some(a / 10);
        lemma_decimal_text_is_some(b / 10);
        assert(s.len() == 1);
    } else {
        assert(s.last() == digit_char(a % 10) && s.last() == digit_char(b % 10));
        assert(s.drop_last() =~= decimal_text(a / 10));
        assert(s.drop_last() =~= decimal_text(b / 10));
        decimal_text_is_injective(a / 10, b / 10);
    }
}

/// A number in decimal is spelled with digits alone, one at least.
pub proof fn decimal_text_has_digits_alone(n: nat)
    ensures
        decimal_text(n).len() > 0,
        forall|i: int|
            0 <= i < decimal_text(n).len() ==> '0' <= #[trigger] decimal_text(n)[i] <= '9',
    decreases n,
{
    if n >= 10 {
        decimal_text_has_digits_alone(n / 10);
    }
}

proof fn lemma_decimal_text_is_some(n: nat)
    ensures
        decimal_text(n).len() > 0,
{
}

/// Digits count by their places: those in front of others count as many times more as ten
/// to the number of the others, and a single digit counts as itself.
pub proof fn digits_count_by_their_places(a: Seq<char>, b: Seq<char>)
    ensures
        digits_value(a + b) == digits_value(a) * pow(10, b.len()) + digits_value(b),
        forall|c: char| #[trigger] digits_value(seq![c]) == c as int - '0' as int,
        digits_value(Seq::<char>::empty()) == 0,
    decreases b.len(),
{
    reveal(pow);
    assert forall|c: char| #[trigger] digits_value(seq![c]) == c as int - '0' as int by {
        assert(seq![c].drop_last() =~= Seq::<char>::empty());
        reveal_with_fuel(digits_value, 2);
    }
    if b.len() == 0 {
        assert(a + b =~= a);
    } else {
        let t = b.drop_last();
        digits_count_by_their_places(a, t);
        assert((a + b).drop_last() =~= a + t);
        assert((a + b).last() == b.last());
        let n = t.len();
        assert(pow(10, (n + 1) as nat) == 10 * pow(10, n));
        assert(digits_value(a) * pow(10, n) * 10 == digits_value(a) * (10 * pow(10, n)))
            by (nonlinear_arith);
    }
}

/// A text is read as a number exactly where it has digits alone, but for a plus sign that
/// may stand in front, and the number is not too large; it is the number that they spell.
pub proof fn an_unsigned_number_is_spelled_by_its_digits(s: Seq<char>, max: int)
    ensures
        all_digits(s) && digits_value(s) <= max ==> unsigned_value(s, max) == Some(digits_value(s)),
        all_digits(s) && digits_value(s) <= max ==> unsigned_value(seq!['+'] + s, max) == Some(
            digits_value(s),
        ),
        digits_value(s) > max && s.len() > 0 && s[0] != '+' ==> unsigned_value(s, max) is None,
        s.len() == 0 ==> unsigned_value(s, max) is None,
        (exists|i: int| 0 < i < s.len() && !is_digit(#[trigger] s[i])) ==> unsigned_value(s, max)
            is None,
        s.len() > 0 && s[0] != '+' && !('0' <= s[0] <= '9') ==> unsigned_value(s, max) is None,
{
    let p = seq!['+'] + s;
    assert(p.skip(1) =~= s);
    assert(p[0] == '+');
    if all_digits(s) {
        assert(is_digit(s[0]));
    }
    if exists|i: int| 0 < i < s.len() && !is_digit(#[trigger] s[i]) {
        let i = choose|i: int| 0 < i < s.len() && !is_digit(#[trigger] s[i]);
        if s[0] == '+' {
            assert(s.skip(1)[i - 1] == s[i]);
        }
    }
    if s.len() > 0 && s[0] != '+' && !('0' <= s[0] <= '9') {
        assert(!is_digit(s[0]));
    }
}

/// A minus sign in front makes a number negative, as far as 32-bit numbers go; without one a
/// text is read as an unsigned number is.
pub proof fn a_sign_makes_a_number_negative(d: Seq<char>)
    ensures
        all_digits(d) && digits_value(d) <= 0x8000_0000 ==> signed_value(seq!['-'] + d) == Some(
            -digits_value(d),
        ),
        all_digits(d) && digits_value(d) > 0x8000_0000 ==> signed_value(seq!['-'] + d) is None,
        !all_digits(d) ==> signed_value(seq!['-'] + d) is None,
        all_digits(d) && digits_value(d) <= 0x7fff_ffff ==> signed_value(d) == Some(
            digits_value(d),
        ) && signed_value(seq!['+'] + d) == Some(digits_value(d)),
        all_digits(d) && digits_value(d) > 0x7fff_ffff ==> signed_value(d) is None,
{
    let m = seq!['-'] + d;
    let p = seq!['+'] + d;
    assert(m[0] == '-' && m.skip(1) =~= d);
    assert(p[0] == '+' && p.skip(1) =~= d);
    if all_digits(d) {
        assert(is_digit(d[0]));
    }
}

/// A number is read back from the text that spells it.
pub proof fn a_number_is_read_back_from_its_text(n: nat, max: int)
    requires
        n <= max,
    ensures
        unsigned_value(decimal_text(n), max) == Some(n as int),
        decimal_text(n).len() > 1 ==> decimal_text(n)[0] != '0',
    decreases n,
{
    decimal_text_has_digits_alone(n);
    let s = decimal_text(n);
    assert forall|i: int| 0 <= i < s.len() implies is_digit(#[trigger] s[i]) by {}
    lemma_decimal_text_value(n);
    assert(is_digit(s[0]));
}

proof fn lemma_decimal_text_value(n: nat)
    ensures
        digits_value(decimal_text(n)) == n,
        decimal_text(n).len() > 0,
        n > 0 ==> decimal_text(n)[0] != '0',
    decreases n,
{
    let s = decimal_text(n);
    if n < 10 {
        assert(s.drop_last() =~= Seq::<char>::empty());
        reveal_with_fuel(digits_value, 2);
    } else {
        lemma_decimal_text_value(n / 10);
        let t = decimal_text(n / 10);
        assert(s.drop_last() =~= t);
        assert(s[0] == t[0]);
    }
}

/// A number is spelled in one way: no two texts of digits without a leading zero spell the
/// same.
pub proof fn a_number_has_one_spelling(n: int, a: Seq<char>, b: Seq<char>)
    requires
        is_decimal(n, a),
        is_decimal(n, b),
    ensures
        a == b,
        a.len() > 1 ==> a[0] != '0',
    decreases a.len(),
{
    let x = a.drop_last();
    let y = b.drop_last();
    assert(digits_value(Seq::<char>::empty()) == 0);
    assert(is_digit(a[a.len() - 1]) && is_digit(b[b.len() - 1]));
    if a.len() > 1 {
        lemma_at_least_one(x);
    }
    if b.len() > 1 {
        lemma_at_least_one(y);
    }
    if a.len() == 1 {
        assert(x =~= Seq::empty());
    }
    if b.len() == 1 {
        assert(y =~= Seq::empty());
    }
    if a.len() > 1 && b.len() > 1 {
        assert(digits_value(x) == digits_value(y));
        assert(is_decimal(digits_value(x), x));
        assert(is_decimal(digits_value(x), y));
        a_number_has_one_spelling(digits_value(x), x, y);
    }
    assert(a =~= x.push(a.last()));
    assert(b =~= y.push(b.last()));
}

proof fn lemma_at_least_one(s: Seq<char>)
    requires
        all_digits(s),
        s[0] != '0',
    ensures
        digits_value(s) >= 1,
    decreases s.len(),
{
    let t = s.drop_last();
    assert(is_digit(s[0]) && is_digit(s[s.len() - 1]));
    if s.len() > 1 {
        assert forall|i: int| 0 <= i < t.len() implies is_digit(#[trigger] t[i]) by {
            assert(is_digit(s[i]));
        }
        lemma_at_least_one(t);
    } else {
        assert(t =~= Seq::empty());
    }
}

} // verus!
