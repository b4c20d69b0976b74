//! Character-level helpers shared by the string-building parts of the library.

use vstd::prelude::*;

verus! {

broadcast use vstd::string::group_string_axioms;

/// The characters of `s`, in order.
pub fn chars_of(s: &str) -> (v: Vec<char>)
    ensures
        v@ == s@,
{
    let mut v: Vec<char> = Vec::new();
    for c in it: s.chars()
        invariant
            it.seq() == s@,
            v@ == it.seq().take(it.index() as int),
    {
        v.push(c);
    }
    v
}

/// The string made of the given characters (`String::from_iter`).
#[verifier::external_body]
pub(crate) fn string_from_chars(v: &[char]) -> (s: String)
    ensures
        s@ == v@,
{
    String::from_iter(v)
}

/// Appends the characters of `s` to `out`.
pub fn push_str(out: &mut Vec<char>, s: &str)
    ensures
        final(out)@ == old(out)@ + s@,
{
    let v = chars_of(s);
    let mut i: usize = 0;
    while i < v.len()
        invariant
            i <= v@.len(),
            v@ == s@,
            out@ == old(out)@ + v@.take(i as int),
        decreases v@.len() - i,
    {
        out.push(v[i]);
        proof {
            assert(v@.take(i + 1) =~= v@.take(i as int).push(v@[i as int]));
        }
        i += 1;
    }
    proof {
        assert(v@.take(v@.len() as int) =~= v@);
    }
}

/// The decimal digit for `d` (below ten).
pub open spec fn digit_char(d: nat) -> char {
    if d == 0 { '0' } else if d == 1 { '1' } else if d == 2 { '2' } else if d == 3 { '3' }
    else if d == 4 { '4' } else if d == 5 { '5' } else if d == 6 { '6' } else if d == 7 { '7' }
    else if d == 8 { '8' } else { '9' }
}

/// The decimal digits of `n`, most significant first, without leading zeros ("0" for zero).
pub open spec fn digits(n: nat) -> Seq<char>
    decreases n,
{
    if n < 10 {
        seq![digit_char(n)]
    } else {
        digits(n / 10).push(digit_char(n % 10))
    }
}

/// The decimal text of `i`, with a leading '-' when it is negative.
pub open spec fn int_text(i: int) -> Seq<char> {
    if i < 0 {
        seq!['-'] + digits((-i) as nat)
    } else {
        digits(i as nat)
    }
}

fn digit(d: u64) -> (c: char)
    requires
        d < 10,
    ensures
        c == digit_char(d as nat),
{
    if d == 0 { '0' } else if d == 1 { '1' } else if d == 2 { '2' } else if d == 3 { '3' }
    else if d == 4 { '4' } else if d == 5 { '5' } else if d == 6 { '6' } else if d == 7 { '7' }
    else if d == 8 { '8' } else { '9' }
}

/// Appends the decimal digits of `n` to `out`.
pub fn push_digits(out: &mut Vec<char>, n: u64)
    ensures
        final(out)@ == old(out)@ + digits(n as nat),
    decreases n,
{
    if n < 10 {
        out.push(digit(n));
    } else {
        push_digits(out, n / 10);
        out.push(digit(n % 10));
        proof {
            assert(old(out)@ + digits(n as nat) =~= (old(out)@ + digits((n / 10) as nat)).push(digit_char((n % 10) as nat)));
        }
    }
}

/// Appends the decimal text of `i` to `out`.
pub fn push_int(out: &mut Vec<char>, i: i64)
    ensures
        final(out)@ == old(out)@ + int_text(i as int),
{
    if i < 0 {
        out.push('-');
        let m: u64 = if i == i64::MIN { 9223372036854775808u64 } else { (-i) as u64 };
        push_digits(out, m);
        proof {
            assert(old(out)@ + int_text(i as int) =~= old(out)@.push('-') + digits(m as nat));
        }
    } else {
        push_digits(out, i as u64);
    }
}

/// The decimal text of `i`.
pub fn int_to_string(i: i64) -> (s: String)
    ensures
        s@ == int_text(i as int),
{
    let mut v: Vec<char> = Vec::new();
    push_int(&mut v, i);
    proof { assert(v@ =~= int_text(i as int)); }
    string_from_chars(v.as_slice())
}


/// Whether `a` and `b` hold the same characters.
pub fn str_eq(a: &str, b: &str) -> (r: bool)
    ensures
        r == (a@ == b@),
{
    let x = chars_of(a);
    let y = chars_of(b);
    if x.len() != y.len() {
        return false;
    }
    let mut i: usize = 0;
    while i < x.len()
        invariant
            x@ == a@,
            y@ == b@,
            x@.len() == y@.len(),
            i <= x@.len(),
            forall|k: int| 0 <= k < i ==> x@[k] == y@[k],
        decreases x@.len() - i,
    {
        if x[i] != y[i] {
            return false;
        }
        i += 1;
    }
    proof {
        assert(x@ =~= y@);
    }
    true
}


/// `s` begins with `p`.
pub open spec fn starts_with(s: Seq<char>, p: Seq<char>) -> bool {
    p.len() <= s.len() && s.take(p.len() as int) == p
}

/// `s` with every occurrence of `pat` replaced by `rep`, scanning from the left
/// and never reusing replaced text (what `str::replace` does for a non-empty pattern).
pub open spec fn replace_all(s: Seq<char>, pat: Seq<char>, rep: Seq<char>) -> Seq<char>
    decreases s.len(),
{
    if pat.len() == 0 || s.len() == 0 {
        s
    } else if starts_with(s, pat) {
        rep + replace_all(s.skip(pat.len() as int), pat, rep)
    } else {
        seq![s[0]] + replace_all(s.skip(1), pat, rep)
    }
}

/// Whether `v` holds `pat` at position `i`.
fn matches_at(v: &Vec<char>, pat: &Vec<char>, i: usize) -> (r: bool)
    requires
        i <= v@.len(),
    ensures
        r == starts_with(v@.skip(i as int), pat@),
{
    if pat.len() > v.len() - i {
        return false;
    }
    let mut k: usize = 0;
    while k < pat.len()
        invariant
            i <= v.len(),
            pat.len() <= v.len() - i,
            k <= pat.len(),
            forall|j: int| 0 <= j < k ==> v@[i + j] == pat@[j],
        decreases pat@.len() - k,
    {
        if v[i + k] != pat[k] {
            proof {
                assert(v@.skip(i as int).take(pat@.len() as int)[k as int] == v@[i + k]);
            }
            return false;
        }
        k += 1;
    }
    proof {
        assert(v@.skip(i as int).take(pat@.len() as int) =~= pat@);
    }
    true
}

/// `s` with every occurrence of the non-empty `pat` replaced by `rep`.
pub fn replace(s: &str, pat: &str, rep: &str) -> (r: String)
    requires
        pat@.len() > 0,
    ensures
        r@ == replace_all(s@, pat@, rep@),
{
    let v = chars_of(s);
    let p = chars_of(pat);
    let mut out: Vec<char> = Vec::new();
    let mut i: usize = 0;
    proof {
        assert(v@.skip(0) =~= v@);
    }
    while i < v.len()
        invariant
            v@ == s@,
            p@ == pat@,
            p@.len() > 0,
            i <= v@.len(),
            out@ + replace_all(v@.skip(i as int), p@, rep@) == replace_all(s@, pat@, rep@),
        decreases v@.len() - i,
    {
        let ghost t = v@.skip(i as int);
        if matches_at(&v, &p, i) {
            let ghost before = out@;
            push_str(&mut out, rep);
            proof {
                assert(t.skip(p@.len() as int) =~= v@.skip(i + p@.len()));
                assert(before + (rep@ + replace_all(t.skip(p@.len() as int), p@, rep@)) =~= out@ + replace_all(v@.skip(i + p@.len()), p@, rep@));
            }
            i += p.len();
        } else {
            let ghost before = out@;
            out.push(v[i]);
            proof {
                assert(t[0] == v@[i as int]);
                assert(t.skip(1) =~= v@.skip(i + 1));
                assert(before + (seq![t[0]] + replace_all(t.skip(1), p@, rep@)) =~= out@ + replace_all(v@.skip(i + 1), p@, rep@));
            }
            i += 1;
        }
    }
    proof {
        assert(v@.skip(i as int).len() == 0);
        assert(out@ + v@.skip(i as int) =~= out@);
    }
    string_from_chars(out.as_slice())
}

/// Whether `c` has the Unicode `White_Space` property, the fixed list of 25
/// code points: U+0009 to U+000D, U+0020, U+0085, U+00A0, U+1680, U+2000 to
/// U+200A, U+2028, U+2029, U+202F, U+205F and U+3000.
pub open spec fn unicode_whitespace(c: char) -> bool {
    let x = c as u32;
    ||| 0x9 <= x <= 0xD
    ||| x == 0x20 || x == 0x85 || x == 0xA0 || x == 0x1680
    ||| 0x2000 <= x <= 0x200A
    ||| x == 0x2028 || x == 0x2029 || x == 0x202F || x == 0x205F || x == 0x3000
}

/// Whether `c` has the Unicode `White_Space` property, as
/// `char::is_whitespace` tells it.
fn is_whitespace(c: char) -> (r: bool)
    ensures
        r == unicode_whitespace(c),
{
    let x = c as u32;
    (0x9 <= x && x <= 0xD) || x == 0x20 || x == 0x85 || x == 0xA0 || x == 0x1680 || (0x2000 <= x && x <= 0x200A)
        || x == 0x2028 || x == 0x2029 || x == 0x202F || x == 0x205F || x == 0x3000
}

/// `s` without its leading whitespace.
pub open spec fn trim_start(s: Seq<char>) -> Seq<char>
    decreases s.len(),
{
    if s.len() > 0 && unicode_whitespace(s[0]) { trim_start(s.skip(1)) } else { s }
}

/// `s` without its trailing whitespace.
pub open spec fn trim_end(s: Seq<char>) -> Seq<char>
    decreases s.len(),
{
    if s.len() > 0 && unicode_whitespace(s.last()) { trim_end(s.drop_last()) } else { s }
}

/// `s` without leading and trailing whitespace (what `str::trim` returns).
pub open spec fn trimmed(s: Seq<char>) -> Seq<char> {
    trim_end(trim_start(s))
}

/// `s` without leading and trailing whitespace.
pub fn trim(s: &str) -> (r: String)
    ensures
        r@ == trimmed(s@),
{
    let v = chars_of(s);
    let mut a: usize = 0;
    proof {
        assert(v@.skip(0) =~= v@);
    }
    while a < v.len() && is_whitespace(v[a])
        invariant
            v@ == s@,
            a <= v@.len(),
            trim_start(v@.skip(a as int)) == trim_start(s@),
        decreases v@.len() - a,
    {
        proof {
            assert(v@.skip(a as int).skip(1) =~= v@.skip(a + 1));
        }
        a += 1;
    }
    let ghost front = v@.skip(a as int);
    assert(trim_start(front) == front);
    let mut b: usize = v.len();
    proof {
        assert(v@.subrange(a as int, b as int) =~= front);
    }
    while b > a && is_whitespace(v[b - 1])
        invariant
            v@ == s@,
            a <= b <= v@.len(),
            trim_end(v@.subrange(a as int, b as int)) == trim_end(front),
        decreases b,
    {
        proof {
            assert(v@.subrange(a as int, b as int).drop_last() =~= v@.subrange(a as int, b - 1));
        }
        b -= 1;
    }
    let mut out: Vec<char> = Vec::new();
    let mut k: usize = a;
    while k < b
        invariant
            a <= k <= b,
            b <= v@.len(),
            out@ == v@.subrange(a as int, k as int),
        decreases b - k,
    {
        out.push(v[k]);
        proof {
            assert(v@.subrange(a as int, k + 1) =~= v@.subrange(a as int, k as int).push(v@[k as int]));
        }
        k += 1;
    }
    string_from_chars(out.as_slice())
}

/// The parts joined with `sep` between each two.
pub open spec fn joined(parts: Seq<Seq<char>>, sep: Seq<char>) -> Seq<char>
    decreases parts.len(),
{
    if parts.len() == 0 {
        Seq::empty()
    } else if parts.len() == 1 {
        parts[0]
    } else {
        joined(parts.drop_last(), sep) + sep + parts.last()
    }
}


/// The texts of `parts`.
pub open spec fn texts(parts: Seq<String>) -> Seq<Seq<char>> {
    parts.map_values(|p: String| p@)
}

/// The parts joined with `sep` between each two (what `[String]::join` returns).
pub fn join(parts: &Vec<String>, sep: &str) -> (r: String)
    ensures
        r@ == joined(texts(parts@), sep@),
{
    let mut out: Vec<char> = Vec::new();
    let mut i: usize = 0;
    while i < parts.len()
        invariant
            i <= parts@.len(),
            out@ == joined(texts(parts@.take(i as int)), sep@),
        decreases parts@.len() - i,
    {
        let ghost prev = texts(parts@.take(i as int));
        if i > 0 {
            push_str(&mut out, sep);
        }
        push_str(&mut out, parts[i].as_str());
        proof {
            let t = texts(parts@.take(i + 1));
            assert(t.drop_last() =~= prev);
            assert(t.last() == parts@[i as int]@);
            if i == 0 {
                assert(out@ =~= t[0]);
            }
        }
        i += 1;
    }
    proof {
        assert(parts@.take(parts@.len() as int) =~= parts@);
    }
    string_from_chars(out.as_slice())
}


/// `p` occurs in `s` at position `i`.
pub open spec fn has_at(s: Seq<char>, p: Seq<char>, i: int) -> bool {
    0 <= i && i + p.len() <= s.len() && s.subrange(i, i + p.len()) == p
}

/// `p` occurs somewhere in `s`.
pub open spec fn contains_text(s: Seq<char>, p: Seq<char>) -> bool {
    exists|i: int| has_at(s, p, i)
}

/// Whether `pat` occurs in `s`.
pub fn contains(s: &str, pat: &str) -> (r: bool)
    ensures
        r == contains_text(s@, pat@),
{
    let v = chars_of(s);
    let p = chars_of(pat);
    let mut i: usize = 0;
    while i < v.len()
        invariant
            v@ == s@,
            p@ == pat@,
            i <= v@.len(),
            forall|k: int| 0 <= k < i ==> !has_at(s@, pat@, k),
        decreases v@.len() - i,
    {
        let m = matches_at(&v, &p, i);
        proof {
            if i + p@.len() <= v@.len() {
                assert(v@.skip(i as int).take(p@.len() as int) =~= v@.subrange(i as int, i + p@.len()));
                if m {
                    assert(has_at(s@, pat@, i as int));
                }
            }
        }
        if m {
            return true;
        }
        i += 1;
    }
    let m = matches_at(&v, &p, i);
    proof {
        if i + p@.len() <= v@.len() {
            assert(v@.skip(i as int).take(p@.len() as int) =~= v@.subrange(i as int, i + p@.len()));
            if m {
                assert(has_at(s@, pat@, i as int));
            }
        }
    }
    if m {
        return true;
    }
    proof {
        assert forall|k: int| !has_at(s@, pat@, k) by {
            if 0 <= k < i {
            } else if k > v@.len() {
            }
        }
    }
    false
}


/// `c` is one of the digits `0`-`9`.
pub open spec fn is_digit(c: char) -> bool {
    '0' <= c && c <= '9'
}

/// The number the digits `s` write in decimal.
pub open spec fn digits_value(s: Seq<char>) -> int
    decreases s.len(),
{
    if s.len() == 0 {
        0
    } else {
        digits_value(s.drop_last()) * 10 + (s.last() as int - '0' as int)
    }
}

/// The digits after an optional sign.
pub open spec fn unsigned_part(s: Seq<char>) -> Seq<char> {
    if s.len() > 0 && (s[0] == '-' || s[0] == '+') { s.skip(1) } else { s }
}

/// What `str::parse::<i32>` gives for `s`: an optional `+` or `-` followed by
/// at least one digit and nothing else, whose value fits in `i32`.
pub open spec fn parsed_i32(s: Seq<char>) -> Option<i32> {
    let body = unsigned_part(s);
    let v = if s.len() > 0 && s[0] == '-' { -digits_value(body) } else { digits_value(body) };
    if body.len() == 0 || !(forall|i: int| 0 <= i < body.len() ==> is_digit(#[trigger] body[i])) {
        None
    } else if i32::MIN <= v <= i32::MAX {
        Some(v as i32)
    } else {
        None
    }
}

/// Reads `s` as a decimal `i32`, as `str::parse::<i32>` does.
pub fn parse_i32(s: &str) -> (r: Option<i32>)
    ensures
        r == parsed_i32(s@),
{
    let v = chars_of(s);
    let neg = v.len() > 0 && v[0] == '-';
    let start: usize = if v.len() > 0 && (v[0] == '-' || v[0] == '+') { 1 } else { 0 };
    let ghost body = unsigned_part(s@);
    assert(body =~= v@.skip(start as int));
    if start >= v.len() {
        return None;
    }
    let mut k: usize = start;
    let mut acc: i64 = 0;
    while k < v.len()
        invariant
            v@ == s@,
            start <= k <= v@.len(),
            body == v@.skip(start as int),
            body == unsigned_part(s@),
            neg == (s@.len() > 0 && s@[0] == '-'),
            forall|i: int| 0 <= i < k - start ==> is_digit(#[trigger] body[i]),
            acc == digits_value(body.take(k - start)),
            0 <= acc <= 2147483648,
        decreases v@.len() - k,
    {
        let c = v[k];
        if c < '0' || c > '9' {
            proof {
                assert(body[k - start] == c);
                assert(!is_digit(body[k - start]));
            }
            return None;
        }
        let d: i64 = (c as u32 - '0' as u32) as i64;
        proof {
            assert(body[k - start] == c);
            assert(body.take(k + 1 - start).drop_last() =~= body.take(k - start));
            assert(body.take(k + 1 - start).last() == c);
        }
        acc = acc * 10 + d;
        if acc > 2147483648 {
            let mut m: usize = k + 1;
            while m < v.len()
                invariant
                    v@ == s@,
                    start < m <= v@.len(),
                    body == v@.skip(start as int),
                    body == unsigned_part(s@),
                    neg == (s@.len() > 0 && s@[0] == '-'),
                    forall|i: int| 0 <= i < m - start ==> is_digit(#[trigger] body[i]),
                    digits_value(body.take(m - start)) >= 2147483649,
                decreases v@.len() - m,
            {
                if v[m] < '0' || v[m] > '9' {
                    proof {
                        assert(body[m - start] == v@[m as int]);
                        assert(!is_digit(body[m - start]));
                    }
                    return None;
                }
                proof {
                    assert(body[m - start] == v@[m as int]);
                    let t = body.take(m + 1 - start);
                    assert(t.drop_last() =~= body.take(m - start));
                }
                m += 1;
            }
            proof {
                assert(body.take(m - start) =~= body);
                assert(forall|i: int| 0 <= i < body.len() ==> is_digit(#[trigger] body[i]));
                assert(digits_value(body) >= 2147483649);
            }
            return None;
        }
        k += 1;
    }
    proof {
        assert(body.take(k - start) =~= body);
    }
    if neg {
        Some((-acc) as i32)
    } else if acc <= 2147483647 {
        Some(acc as i32)
    } else {
        None
    }
}


/// The digits after an optional `+`.
pub open spec fn plus_stripped(s: Seq<char>) -> Seq<char> {
    if s.len() > 0 && s[0] == '+' { s.skip(1) } else { s }
}

/// What `str::parse::<u32>` gives for `s`: an optional `+` followed by at least
/// one digit and nothing else, whose value fits in `u32`.
pub open spec fn parsed_u32(s: Seq<char>) -> Option<u32> {
    let body = plus_stripped(s);
    if body.len() == 0 || !(forall|i: int| 0 <= i < body.len() ==> is_digit(#[trigger] body[i])) {
        None
    } else if digits_value(body) <= u32::MAX {
        Some(digits_value(body) as u32)
    } else {
        None
    }
}

/// Reads `s` as a decimal `u32`, as `str::parse::<u32>` does.
pub fn parse_u32(s: &Vec<char>) -> (r: Option<u32>)
    ensures
        r == parsed_u32(s@),
{
    let start: usize = if s.len() > 0 && s[0] == '+' { 1 } else { 0 };
    let ghost body = plus_stripped(s@);
    assert(body =~= s@.skip(start as int));
    if start >= s.len() {
        return None;
    }
    let mut k: usize = start;
    let mut acc: u64 = 0;
    while k < s.len()
        invariant
            start <= k <= s@.len(),
            body == s@.skip(start as int),
            body == plus_stripped(s@),
            forall|i: int| 0 <= i < k - start ==> is_digit(#[trigger] body[i]),
            acc == digits_value(body.take(k - start)),
            acc <= 4294967295,
        decreases s@.len() - k,
    {
        let c = s[k];
        if c < '0' || c > '9' {
            proof {
                assert(body[k - start] == c);
                assert(!is_digit(body[k - start]));
            }
            return None;
        }
        let d: u64 = (c as u32 - '0' as u32) as u64;
        proof {
            assert(body[k - start] == c);
            assert(body.take(k + 1 - start).drop_last() =~= body.take(k - start));
            assert(body.take(k + 1 - start).last() == c);
        }
        acc = acc * 10 + d;
        if acc > 4294967295 {
            let mut m: usize = k + 1;
            while m < s.len()
                invariant
                    start < m <= s@.len(),
                    body == s@.skip(start as int),
                    body == plus_stripped(s@),
                    forall|i: int| 0 <= i < m - start ==> is_digit(#[trigger] body[i]),
                    digits_value(body.take(m - start)) > 4294967295,
                decreases s@.len() - m,
            {
                if s[m] < '0' || s[m] > '9' {
                    proof {
                        assert(body[m - start] == s@[m as int]);
                        assert(!is_digit(body[m - start]));
                    }
                    return None;
                }
                proof {
                    assert(body[m - start] == s@[m as int]);
                    let t = body.take(m + 1 - start);
                    assert(t.drop_last() =~= body.take(m - start));
                }
                m += 1;
            }
            proof {
                assert(body.take(m - start) =~= body);
                assert(forall|i: int| 0 <= i < body.len() ==> is_digit(#[trigger] body[i]));
            }
            return None;
        }
        k += 1;
    }
    proof {
        assert(body.take(k - start) =~= body);
    }
    Some(acc as u32)
}

/// The pieces of `s` between the occurrences of `sep` (what `str::split` gives
/// for a single character): always at least one, possibly empty.
pub open spec fn split_on(s: Seq<char>, sep: char) -> Seq<Seq<char>>
    decreases s.len(),
{
    if s.len() == 0 {
        seq![Seq::empty()]
    } else {
        let p = split_on(s.drop_last(), sep);
        if s.last() == sep {
            p.push(Seq::empty())
        } else {
            p.update(p.len() - 1, p.last().push(s.last()))
        }
    }
}

/// Appending text with no separator extends the last piece.
pub(crate) proof fn lemma_split_on_plain(s: Seq<char>, t: Seq<char>, sep: char)
    requires
        forall|i: int| 0 <= i < t.len() ==> t[i] != sep,
    ensures
        split_on(s + t, sep) == split_on(s, sep).update(
            split_on(s, sep).len() - 1,
            split_on(s, sep).last() + t,
        ),
    decreases t.len(),
{
    lemma_split_on_nonempty(s, sep);
    let q = split_on(s, sep);
    if t.len() == 0 {
        assert(s + t =~= s);
        assert(q.last() + t =~= q.last());
        assert(q.update(q.len() - 1, q.last() + t) =~= q);
    } else {
        let u = t.drop_last();
        lemma_split_on_plain(s, u, sep);
        assert((s + t).drop_last() =~= s + u);
        assert((s + t).last() == t.last());
        let p = split_on(s + u, sep);
        assert(p.last() == q.last() + u);
        assert((q.last() + u).push(t.last()) =~= q.last() + t);
        assert(p.update(p.len() - 1, p.last().push(t.last())) =~= q.update(q.len() - 1, q.last() + t));
    }
}

/// The pieces of the decimal digits of `n` read back as `n`.
pub(crate) proof fn lemma_digits_read(n: nat)
    ensures
        digits(n).len() > 0,
        forall|i: int| 0 <= i < digits(n).len() ==> is_digit(#[trigger] digits(n)[i]),
        digits_value(digits(n)) == n,
    decreases n,
{
    if n < 10 {
        let d = digits(n);
        assert(d.drop_last() =~= Seq::<char>::empty());
        assert(d.last() == digit_char(n));
        assert(digit_char(n) as int - '0' as int == n);
        assert(digits_value(Seq::<char>::empty()) == 0);
        assert(digits_value(d) == digits_value(d.drop_last()) * 10 + (d.last() as int - '0' as int));
    } else {
        lemma_digits_read(n / 10);
        let d = digits(n);
        assert(d.drop_last() =~= digits(n / 10));
        assert(d.last() == digit_char(n % 10));
        assert(digit_char(n % 10) as int - '0' as int == n % 10);
        assert(digits_value(d) == digits_value(d.drop_last()) * 10 + (d.last() as int - '0' as int));
        assert(n == (n / 10) * 10 + n % 10);
        assert forall|i: int| 0 <= i < d.len() implies is_digit(#[trigger] d[i]) by {
            if i < d.len() - 1 {
                assert(d[i] == digits(n / 10)[i]);
            }
        }
    }
}

proof fn lemma_split_on_nonempty(s: Seq<char>, sep: char)
    ensures
        split_on(s, sep).len() >= 1,
    decreases s.len(),
{
    if s.len() > 0 {
        lemma_split_on_nonempty(s.drop_last(), sep);
    }
}

/// The pieces of `s` between the occurrences of `sep`.
pub fn split_chars(s: &Vec<char>, sep: char) -> (r: Vec<Vec<char>>)
    ensures
        r@.map_values(|p: Vec<char>| p@) == split_on(s@, sep),
{
    let mut pieces: Vec<Vec<char>> = Vec::new();
    let mut cur: Vec<char> = Vec::new();
    let mut i: usize = 0;
    while i < s.len()
        invariant
            i <= s@.len(),
            pieces@.map_values(|p: Vec<char>| p@).push(cur@) == split_on(s@.take(i as int), sep),
        decreases s@.len() - i,
    {
        let c = s[i];
        let ghost before = pieces@.map_values(|p: Vec<char>| p@).push(cur@);
        proof {
            assert(s@.take(i + 1).drop_last() =~= s@.take(i as int));
            assert(s@.take(i + 1).last() == c);
            lemma_split_on_nonempty(s@.take(i as int), sep);
        }
        if c == sep {
            let done = cur;
            pieces.push(done);
            cur = Vec::new();
            proof {
                assert(pieces@.map_values(|p: Vec<char>| p@).push(cur@) =~= before.push(Seq::empty()));
            }
        } else {
            let ghost old_cur = cur@;
            cur.push(c);
            proof {
                assert(pieces@.map_values(|p: Vec<char>| p@).push(cur@) =~= before.update(before.len() - 1, old_cur.push(c)));
            }
        }
        i += 1;
    }
    proof {
        assert(s@.take(s@.len() as int) =~= s@);
    }
    let ghost before = pieces@.map_values(|p: Vec<char>| p@);
    pieces.push(cur);
    proof {
        assert(pieces@.map_values(|p: Vec<char>| p@) =~= before.push(cur@));
    }
    pieces
}

} // verus!
