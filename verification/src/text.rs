//! Character-level reading of tag values: decimal integers and the
//! numeric part of a height such as `"5.2m"`.
use vstd::prelude::*;

verus! {

/// The characters of `s`, in order.
pub fn chars_of(s: &str) -> (res: Vec<char>)
    ensures
        res@ == s@,
{
    let mut res: Vec<char> = Vec::new();
    for c in it: s.chars()
        invariant
            res@ == it.seq().take(it.index() as int),
    {
        res.push(c);
    }
    res
}

/// Whether two strings hold the same characters.
pub fn same_text(a: &str, b: &str) -> (res: bool)
    ensures
        res == (a@ == b@),
{
    let x = chars_of(a);
    let y = chars_of(b);
    if x.len() != y.len() {
        return false;
    }
    let mut i: usize = 0;
    while i < x.len()
        invariant
            x@ == a@,
            y@ == b@,
            x.len() == y.len(),
            i <= x.len(),
            forall|k: int| 0 <= k < i ==> x@[k] == y@[k],
        decreases x.len() - i,
    {
        if x[i] != y[i] {
            return false;
        }
        i = i + 1;
    }
    assert(x@ =~= y@);
    true
}

pub open spec fn is_ascii_digit(c: char) -> bool {
    '0' <= c && c <= '9'
}

pub open spec fn digit_value(c: char) -> int {
    (c as int) - ('0' as int)
}

/// The value of a string of decimal digits, most significant first.
pub open spec fn digits_value(s: Seq<char>) -> int
    decreases s.len(),
{
    if s.len() == 0 {
        0
    } else {
        10 * digits_value(s.drop_last()) + digit_value(s.last())
    }
}

pub open spec fn all_digits(s: Seq<char>) -> bool {
    forall|i: int| 0 <= i < s.len() ==> is_ascii_digit(#[trigger] s[i])
}

/// What `str::parse::<i32>` gives: an optional `+` or `-` sign followed by one
/// or more ASCII digits whose value fits in an `i32`; anything else is refused.
pub open spec fn parse_i32_spec(s: Seq<char>) -> Option<i32> {
    let negative = s.len() > 0 && s[0] == '-';
    let signed = s.len() > 0 && (s[0] == '-' || s[0] == '+');
    let body = if signed { s.drop_first() } else { s };
    let value = if negative { -digits_value(body) } else { digits_value(body) };
    if body.len() == 0 || !all_digits(body) || value < i32::MIN || value > i32::MAX {
        None
    } else {
        Some(value as i32)
    }
}

proof fn lemma_digits_value_nonneg(s: Seq<char>)
    requires
        all_digits(s),
    ensures
        digits_value(s) >= 0,
    decreases s.len(),
{
    if s.len() > 0 {
        assert(is_ascii_digit(s[s.len() - 1]));
        lemma_digits_value_nonneg(s.drop_last());
    }
}

/// Appending digits never makes the value smaller.
proof fn lemma_digits_value_grows(s: Seq<char>, i: int)
    requires
        all_digits(s),
        0 <= i <= s.len(),
    ensures
        digits_value(s.take(i)) <= digits_value(s),
    decreases s.len() - i,
{
    if i < s.len() {
        lemma_digits_value_grows(s, i + 1);
        let t = s.take(i + 1);
        assert(t.drop_last() =~= s.take(i));
        assert(is_ascii_digit(s[i]));
        assert(all_digits(s.take(i))) by {
            assert forall|k: int| 0 <= k < s.take(i).len() implies is_ascii_digit(
                #[trigger] s.take(i)[k],
            ) by {
                assert(is_ascii_digit(s[k]));
            }
        }
        lemma_digits_value_nonneg(s.take(i));
    } else {
        assert(s.take(i) =~= s);
    }
}

/// Reads `s` as `str::parse::<i32>` does.
pub fn parse_i32(s: &str) -> (res: Option<i32>)
    ensures
        res == parse_i32_spec(s@),
{
    let cs = chars_of(s);
    let n = cs.len();
    let mut start: usize = 0;
    let mut negative = false;
    if n > 0 && (cs[0] == '-' || cs[0] == '+') {
        start = 1;
        negative = cs[0] == '-';
    }
    let ghost body = cs@.subrange(start as int, n as int);
    assert(body =~= (if start == 1 { s@.drop_first() } else { s@ }));
    if start >= n {
        return None;
    }
    let mut acc: i64 = 0;
    let mut i: usize = start;
    while i < n
        invariant
            cs@ == s@,
            n == cs.len(),
            start <= i <= n,
            body == cs@.subrange(start as int, n as int),
            start <= 1,
            start == 1 <==> (s@.len() > 0 && (s@[0] == '-' || s@[0] == '+')),
            negative == (s@.len() > 0 && s@[0] == '-'),
            body == (if start == 1 { s@.drop_first() } else { s@ }),
            all_digits(body.take(i - start)),
            acc == digits_value(body.take(i - start)),
            0 <= acc <= 2147483648,
        decreases n - i,
    {
        let c = cs[i];
        if !('0' <= c && c <= '9') {
            assert(body[i - start] == c);
            return None;
        }
        let d = (c as u32 - '0' as u32) as i64;
        let ghost prev = body.take(i - start);
        let ghost next = body.take(i - start + 1);
        assert(next.drop_last() =~= prev);
        assert(next.last() == c);
        assert(all_digits(next)) by {
            assert forall|k: int| 0 <= k < next.len() implies is_ascii_digit(#[trigger] next[k]) by {
                if k < prev.len() {
                    assert(next[k] == prev[k]);
                }
            }
        }
        let v = acc * 10 + d;
        if v > 2147483648 {
            // Further digits only make the value larger.
            proof {
                let rest = n - start;
                assert(body.len() == rest);
                if all_digits(body) {
                    lemma_digits_value_grows(body, i - start + 1);
                    assert(body.take(i - start + 1) == next);
                    assert(digits_value(next) == v);
                }
            }
            return None;
        }
        acc = v;
        i = i + 1;
    }
    assert(body.take(n - start) =~= body);
    if negative {
        Some((-acc) as i32)
    } else if acc > 2147483647 {
        None
    } else {
        Some(acc as i32)
    }
}

/// A character that can begin the number of a height: a digit, a point or a minus sign.
pub open spec fn starts_number(c: char) -> bool {
    is_ascii_digit(c) || c == '.' || c == '-'
}

/// A character that can continue the number of a height: a digit or a point.
pub open spec fn continues_number(c: char) -> bool {
    is_ascii_digit(c) || c == '.'
}

/// The first position at or after `i` that can begin a number (`s.len()` if none).
pub open spec fn number_start(s: Seq<char>, i: int) -> int
    decreases s.len() - i,
{
    if i < 0 || i >= s.len() {
        s.len() as int
    } else if starts_number(s[i]) {
        i
    } else {
        number_start(s, i + 1)
    }
}

/// The end of the run of digits and points that begins at `i`.
pub open spec fn number_end(s: Seq<char>, i: int) -> int
    decreases s.len() - i,
{
    if i < 0 || i >= s.len() {
        s.len() as int
    } else if continues_number(s[i]) {
        number_end(s, i + 1)
    } else {
        i
    }
}

/// The numeric text of a height value: characters before the first digit, point or
/// minus sign are passed over, then that character and the digits and points that
/// directly follow it are taken. `None` when no such character occurs.
pub open spec fn height_number_spec(s: Seq<char>) -> Option<Seq<char>> {
    let k = number_start(s, 0);
    if k >= s.len() {
        None
    } else {
        Some(s.subrange(k, number_end(s, k + 1)))
    }
}

proof fn lemma_number_start_bounds(s: Seq<char>, i: int)
    requires
        0 <= i <= s.len(),
    ensures
        i <= number_start(s, i) <= s.len(),
        number_start(s, i) < s.len() ==> starts_number(s[number_start(s, i)]),
        forall|j: int| i <= j < number_start(s, i) ==> !starts_number(#[trigger] s[j]),
    decreases s.len() - i,
{
    if i < s.len() && !starts_number(s[i]) {
        lemma_number_start_bounds(s, i + 1);
    }
}

proof fn lemma_number_end_bounds(s: Seq<char>, i: int)
    requires
        0 <= i <= s.len(),
    ensures
        i <= number_end(s, i) <= s.len(),
        number_end(s, i) < s.len() ==> !continues_number(s[number_end(s, i)]),
        forall|j: int| i <= j < number_end(s, i) ==> continues_number(#[trigger] s[j]),
    decreases s.len() - i,
{
    if i < s.len() && continues_number(s[i]) {
        lemma_number_end_bounds(s, i + 1);
    }
}

/// Scanning forward from `j` past characters that cannot begin a number lands
/// where scanning from `i` does.
proof fn lemma_number_start_skip(s: Seq<char>, i: int, j: int)
    requires
        0 <= i <= j <= s.len(),
        forall|k: int| i <= k < j ==> !starts_number(#[trigger] s[k]),
    ensures
        number_start(s, i) == number_start(s, j),
    decreases j - i,
{
    if i < j {
        assert(!starts_number(s[i]));
        lemma_number_start_skip(s, i + 1, j);
    }
}

proof fn lemma_number_end_skip(s: Seq<char>, i: int, j: int)
    requires
        0 <= i <= j <= s.len(),
        forall|k: int| i <= k < j ==> continues_number(#[trigger] s[k]),
    ensures
        number_end(s, i) == number_end(s, j),
    decreases j - i,
{
    if i < j {
        assert(continues_number(s[i]));
        lemma_number_end_skip(s, i + 1, j);
    }
}

fn begins_number(c: char) -> (res: bool)
    ensures
        res == starts_number(c),
{
    ('0' <= c && c <= '9') || c == '.' || c == '-'
}

fn continues_number_char(c: char) -> (res: bool)
    ensures
        res == continues_number(c),
{
    ('0' <= c && c <= '9') || c == '.'
}

/// The numeric part of a height value such as `"5.2m"` or `" -3 m"`. White space
/// around the value makes no difference to it (`law_trim_keeps_height_number`).
pub fn height_number_text(value: &str) -> (res: Option<Vec<char>>)
    ensures
        match res {
            Some(t) => height_number_spec(value@) == Some(t@),
            None => height_number_spec(value@) is None,
        },
{
    let cs = chars_of(value);
    let n = cs.len();
    let mut k: usize = 0;
    while k < n && !begins_number(cs[k])
        invariant
            cs@ == value@,
            n == cs.len(),
            k <= n,
            forall|j: int| 0 <= j < k ==> !starts_number(#[trigger] cs@[j]),
        decreases n - k,
    {
        k = k + 1;
    }
    proof {
        lemma_number_start_skip(value@, 0, k as int);
    }
    if k >= n {
        return None;
    }
    let mut out: Vec<char> = Vec::new();
    out.push(cs[k]);
    let mut e: usize = k + 1;
    while e < n && continues_number_char(cs[e])
        invariant
            cs@ == value@,
            n == cs.len(),
            k < e <= n,
            number_start(value@, 0) == k,
            out@ == cs@.subrange(k as int, e as int),
            forall|j: int| k < j < e ==> continues_number(#[trigger] cs@[j]),
        decreases n - e,
    {
        out.push(cs[e]);
        e = e + 1;
        assert(out@ =~= cs@.subrange(k as int, e as int));
    }
    proof {
        lemma_number_end_skip(value@, k + 1, e as int);
    }
    Some(out)
}

/// The characters with the Unicode property White_Space, which `str::trim` removes.
pub open spec fn is_white_space(c: char) -> bool {
    ||| '\u{9}' <= c <= '\u{d}'
    ||| c == ' '
    ||| c == '\u{85}'
    ||| c == '\u{a0}'
    ||| c == '\u{1680}'
    ||| '\u{2000}' <= c <= '\u{200a}'
    ||| c == '\u{2028}'
    ||| c == '\u{2029}'
    ||| c == '\u{202f}'
    ||| c == '\u{205f}'
    ||| c == '\u{3000}'
}

/// The first position at or after `i` that is not white space (`s.len()` if none).
pub open spec fn trim_start(s: Seq<char>, i: int) -> int
    decreases s.len() - i,
{
    if i < 0 || i >= s.len() {
        s.len() as int
    } else if is_white_space(s[i]) {
        trim_start(s, i + 1)
    } else {
        i
    }
}

/// The end of `s[..j]` without its trailing white space.
pub open spec fn trim_end(s: Seq<char>, j: int) -> int
    decreases j,
{
    if j <= 0 || j > s.len() {
        0
    } else if is_white_space(s[j - 1]) {
        trim_end(s, j - 1)
    } else {
        j
    }
}

/// `s` without leading and trailing white space, as `str::trim` gives it.
pub open spec fn trim_spec(s: Seq<char>) -> Seq<char> {
    let a = trim_start(s, 0);
    if a >= s.len() {
        Seq::empty()
    } else {
        s.subrange(a, trim_end(s, s.len() as int))
    }
}

proof fn lemma_trim_start(s: Seq<char>, i: int)
    requires
        0 <= i <= s.len(),
    ensures
        i <= trim_start(s, i) <= s.len(),
        forall|k: int| i <= k < trim_start(s, i) ==> is_white_space(#[trigger] s[k]),
        trim_start(s, i) < s.len() ==> !is_white_space(s[trim_start(s, i)]),
    decreases s.len() - i,
{
    if i < s.len() && is_white_space(s[i]) {
        lemma_trim_start(s, i + 1);
    }
}

proof fn lemma_trim_end(s: Seq<char>, j: int)
    requires
        0 <= j <= s.len(),
    ensures
        0 <= trim_end(s, j) <= j,
        forall|k: int| trim_end(s, j) <= k < j ==> is_white_space(#[trigger] s[k]),
        trim_end(s, j) > 0 ==> !is_white_space(s[trim_end(s, j) - 1]),
    decreases j,
{
    if j > 0 && is_white_space(s[j - 1]) {
        lemma_trim_end(s, j - 1);
    }
}

/// Inside `t = s[a..b]`, where `s[b..]` holds no character that begins a number,
/// the scan for a number start agrees with the scan of `s`.
proof fn lemma_start_in_slice(s: Seq<char>, a: int, b: int, i: int)
    requires
        0 <= a <= b <= s.len(),
        0 <= i <= b - a,
        forall|k: int| b <= k < s.len() ==> !starts_number(#[trigger] s[k]),
    ensures
        number_start(s.subrange(a, b), i) == (if number_start(s, a + i) >= b {
            b - a
        } else {
            number_start(s, a + i) - a
        }),
    decreases b - a - i,
{
    let t = s.subrange(a, b);
    if i < b - a {
        assert(t[i] == s[a + i]);
        if !starts_number(s[a + i]) {
            lemma_start_in_slice(s, a, b, i + 1);
        }
    } else {
        lemma_number_start_skip(s, b, s.len() as int);
    }
}

/// Inside `t = s[a..b]`, where `s[b]` (if any) does not continue a number, the
/// scan for a number's end agrees with the scan of `s`.
proof fn lemma_end_in_slice(s: Seq<char>, a: int, b: int, i: int)
    requires
        0 <= a <= b <= s.len(),
        0 <= i <= b - a,
        b < s.len() ==> !continues_number(s[b]),
    ensures
        number_end(s.subrange(a, b), i) == number_end(s, a + i) - a,
    decreases b - a - i,
{
    let t = s.subrange(a, b);
    if i < b - a {
        assert(t[i] == s[a + i]);
        if continues_number(s[a + i]) {
            lemma_end_in_slice(s, a, b, i + 1);
        }
    }
}

/// Trimming white space first does not change the numeric text of a height: white
/// space neither begins nor continues a number.
pub proof fn law_trim_keeps_height_number(s: Seq<char>)
    ensures
        height_number_spec(trim_spec(s)) == height_number_spec(s),
{
    let a = trim_start(s, 0);
    lemma_trim_start(s, 0);
    lemma_number_start_skip(s, 0, a);
    if a >= s.len() {
        assert(trim_spec(s) =~= Seq::<char>::empty());
    } else {
        let b = trim_end(s, s.len() as int);
        lemma_trim_end(s, s.len() as int);
        assert(!is_white_space(s[a]));
        if b <= a {
            assert(is_white_space(s[a]));
        }
        let t = s.subrange(a, b);
        assert(trim_spec(s) == t);
        lemma_start_in_slice(s, a, b, 0);
        let k = number_start(s, a);
        lemma_number_start_bounds(s, a);
        if k < b {
            lemma_end_in_slice(s, a, b, k - a + 1);
            lemma_number_end_bounds(s, k + 1);
            let e = number_end(s, k + 1);
            if e > b {
                assert(continues_number(s[b]));
                assert(is_white_space(s[b]));
            }
            assert(t.subrange(k - a, e - a) =~= s.subrange(k, e));
        } else {
            lemma_number_start_skip(s, b, s.len() as int);
            lemma_number_start_skip(s, a, b);
        }
    }
}

} // verus!
