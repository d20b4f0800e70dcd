//! Parsing of option values from strings: decimal integers as Rust's
//! `FromStr` reads them (an optional sign, then one or more ASCII digits, in
//! range), booleans, and splitting at a separator.
use vstd::prelude::*;
use vstd::string::StrSliceExecFns;

verus! {

/// `c` is an ASCII digit.
pub open spec fn is_digit(c: char) -> bool {
    '0' <= c <= '9'
}

/// The value of an ASCII digit.
pub open spec fn digit_value(c: char) -> nat {
    (c as int - '0' as int) as nat
}

/// The value of a non-empty sequence of ASCII digits (most significant first).
pub open spec fn digits_value(s: Seq<char>) -> Option<nat>
    decreases s.len(),
{
    if s.len() == 0 {
        None
    } else if !is_digit(s.last()) {
        None
    } else if s.len() == 1 {
        Some(digit_value(s.last()))
    } else {
        match digits_value(s.drop_last()) {
            Some(v) => Some(v * 10 + digit_value(s.last())),
            None => None,
        }
    }
}

/// An unsigned decimal: an optional `+`, then digits; its value, if at most `limit`.
pub open spec fn parse_unsigned_spec(s: Seq<char>, limit: nat) -> Option<nat> {
    let digits = if s.len() > 0 && s[0] == '+' { s.skip(1) } else { s };
    match digits_value(digits) {
        Some(v) => if v <= limit { Some(v) } else { None },
        None => None,
    }
}

/// A `u64` as `u64::from_str` reads it.
pub open spec fn parse_u64_spec(s: Seq<char>) -> Option<u64> {
    match parse_unsigned_spec(s, u64::MAX as nat) {
        Some(v) => Some(v as u64),
        None => None,
    }
}

/// An `i32` as `i32::from_str` reads it: an optional sign, then digits, in range.
pub open spec fn parse_i32_spec(s: Seq<char>) -> Option<i32> {
    if s.len() > 0 && s[0] == '-' {
        match digits_value(s.skip(1)) {
            Some(v) => if v <= 0x8000_0000 { Some((-v) as i32) } else { None },
            None => None,
        }
    } else {
        match parse_unsigned_spec(s, 0x7fff_ffff) {
            Some(v) => Some(v as i32),
            None => None,
        }
    }
}

/// A `bool` as `bool::from_str` reads it.
pub open spec fn parse_bool_spec(s: Seq<char>) -> Option<bool> {
    if s == "true"@ {
        Some(true)
    } else if s == "false"@ {
        Some(false)
    } else {
        None
    }
}

/// The value of a longer prefix of digits is not smaller.
proof fn lemma_digits_monotone(s: Seq<char>, k: int)
    requires
        1 <= k <= s.len(),
        digits_value(s) is Some,
    ensures
        digits_value(s.take(k)) is Some,
        digits_value(s.take(k))->0 <= digits_value(s)->0,
    decreases s.len(),
{
    if k == s.len() {
        assert(s.take(k) =~= s);
    } else {
        assert(s.drop_last().take(k) =~= s.take(k));
        lemma_digits_monotone(s.drop_last(), k);
    }
}

/// The digits of `s` from index `from`, if at most `limit`.
fn parse_digits(s: &str, from: usize, limit: u64) -> (r: Option<u64>)
    requires
        from <= s@.len(),
    ensures
        r == (match digits_value(s@.skip(from as int)) {
            Some(v) => if v <= limit { Some(v as u64) } else { None::<u64> },
            None => None,
        }),
{
    let n = s.unicode_len();
    let ghost d = s@.skip(from as int);
    if from == n {
        assert(d.len() == 0);
        return None;
    }
    let mut v: u64 = 0;
    let mut i = from;
    while i < n
        invariant
            n == s@.len(),
            d == s@.skip(from as int),
            from < n,
            from <= i <= n,
            i > from ==> digits_value(d.take(i - from)) == Some(v as nat),
            i == from ==> v == 0,
            v <= limit,
        decreases n - i,
    {
        let c = s.get_char(i);
        proof {
            let k = i - from;
            assert(d.take(k + 1).drop_last() =~= d.take(k));
            assert(d.take(k + 1).last() == c);
        }
        if !('0' <= c && c <= '9') {
            proof {
                let k = i - from;
                if digits_value(d) is Some {
                    lemma_digits_monotone(d, k + 1);
                }
            }
            return None;
        }
        let dv = (c as u32 - '0' as u32) as u64;
        let nv: u128 = v as u128 * 10 + dv as u128;
        proof {
            let k = i - from;
            assert(dv == digit_value(c));
            assert(is_digit(d.take(k + 1).last()));
            if k == 0 {
                assert(d.take(k + 1).len() == 1);
                assert(digits_value(d.take(k + 1)) == Some(dv as nat));
            } else {
                assert(digits_value(d.take(k + 1)) == Some(nv as nat));
            }
        }
        if nv > limit as u128 {
            proof {
                let k = i - from;
                if digits_value(d) is Some {
                    lemma_digits_monotone(d, k + 1);
                }
            }
            return None;
        }
        v = nv as u64;
        i = i + 1;
    }
    proof {
        assert(d.take(n - from) =~= d);
    }
    Some(v)
}

/// A `u64` as `u64::from_str` reads it.
pub fn parse_u64(s: &str) -> (r: Option<u64>)
    ensures
        r == parse_u64_spec(s@),
{
    let n = s.unicode_len();
    if n > 0 && s.get_char(0) == '+' {
        parse_digits(s, 1, u64::MAX)
    } else {
        proof {
            assert(s@.skip(0) =~= s@);
        }
        parse_digits(s, 0, u64::MAX)
    }
}

/// An `i32` as `i32::from_str` reads it.
pub fn parse_i32(s: &str) -> (r: Option<i32>)
    ensures
        r == parse_i32_spec(s@),
{
    let n = s.unicode_len();
    if n > 0 && s.get_char(0) == '-' {
        match parse_digits(s, 1, 0x8000_0000) {
            Some(v) => Some((0i64 - v as i64) as i32),
            None => None,
        }
    } else if n > 0 && s.get_char(0) == '+' {
        match parse_digits(s, 1, 0x7fff_ffff) {
            Some(v) => Some(v as i32),
            None => None,
        }
    } else {
        proof {
            assert(s@.skip(0) =~= s@);
        }
        match parse_digits(s, 0, 0x7fff_ffff) {
            Some(v) => Some(v as i32),
            None => None,
        }
    }
}

/// The two strings have the same characters.
pub fn str_eq(a: &str, b: &str) -> (r: bool)
    ensures
        r == (a@ == b@),
{
    let n = a.unicode_len();
    if n != b.unicode_len() {
        return false;
    }
    let mut i: usize = 0;
    while i < n
        invariant
            n == a@.len() == b@.len(),
            i <= n,
            forall|j: int| 0 <= j < i ==> a@[j] == b@[j],
        decreases n - i,
    {
        if a.get_char(i) != b.get_char(i) {
            return false;
        }
        i = i + 1;
    }
    proof {
        assert(a@ =~= b@);
    }
    true
}

/// The characters are those of the string.
pub fn chars_eq(a: &Vec<char>, b: &str) -> (r: bool)
    ensures
        r == (a@ == b@),
{
    let n = b.unicode_len();
    if n != a.len() {
        return false;
    }
    let mut i: usize = 0;
    while i < n
        invariant
            n == a@.len() == b@.len(),
            i <= n,
            forall|j: int| 0 <= j < i ==> a@[j] == b@[j],
        decreases n - i,
    {
        if a[i] != b.get_char(i) {
            return false;
        }
        i = i + 1;
    }
    proof {
        assert(a@ =~= b@);
    }
    true
}

/// A `bool` as `bool::from_str` reads it.
pub fn parse_bool(s: &str) -> (r: Option<bool>)
    ensures
        r == parse_bool_spec(s@),
{
    if str_eq(s, "true") {
        Some(true)
    } else if str_eq(s, "false") {
        Some(false)
    } else {
        None
    }
}

/// The pieces of `s` between the separators `sep`, as `str::split` gives them
/// (empty pieces included).
pub open spec fn split_spec(s: Seq<char>, sep: char) -> Seq<Seq<char>>
    decreases s.len(),
{
    if s.len() == 0 {
        seq![Seq::empty()]
    } else {
        let prev = split_spec(s.drop_last(), sep);
        if s.last() == sep {
            prev.push(Seq::empty())
        } else {
            prev.update(prev.len() - 1, prev.last().push(s.last()))
        }
    }
}

/// There is always at least one piece.
proof fn lemma_split_nonempty(s: Seq<char>, sep: char)
    ensures
        split_spec(s, sep).len() >= 1,
    decreases s.len(),
{
    if s.len() > 0 {
        lemma_split_nonempty(s.drop_last(), sep);
    }
}

/// The pieces of `s` between the separators `sep`.
pub fn split_str<'a>(s: &'a str, sep: char) -> (r: Vec<&'a str>)
    ensures
        r@.len() == split_spec(s@, sep).len(),
        forall|i: int| 0 <= i < r@.len() ==> (#[trigger] r@[i])@ == split_spec(s@, sep)[i],
{
    let n = s.unicode_len();
    let mut pieces: Vec<&'a str> = Vec::new();
    let mut start: usize = 0;
    let mut i: usize = 0;
    while i < n
        invariant
            n == s@.len(),
            start <= i <= n,
            split_spec(s@.take(i as int), sep).len() == pieces@.len() + 1,
            forall|j: int| 0 <= j < pieces@.len() ==> (#[trigger] pieces@[j])@ == split_spec(s@.take(i as int), sep)[j],
            split_spec(s@.take(i as int), sep).last() == s@.subrange(start as int, i as int),
        decreases n - i,
    {
        let c = s.get_char(i);
        proof {
            assert(s@.take(i + 1).drop_last() =~= s@.take(i as int));
            assert(s@.take(i + 1).last() == c);
            lemma_split_nonempty(s@.take(i as int), sep);
        }
        if c == sep {
            let piece = s.substring_char(start, i);
            pieces.push(piece);
            start = i + 1;
            proof {
                assert(s@.subrange(start as int, i + 1) =~= Seq::<char>::empty());
            }
        } else {
            proof {
                assert(s@.subrange(start as int, i + 1) =~= s@.subrange(start as int, i as int).push(c));
            }
        }
        i = i + 1;
    }
    let last = s.substring_char(start, n);
    pieces.push(last);
    proof {
        assert(s@.take(n as int) =~= s@);
        lemma_split_nonempty(s@, sep);
    }
    pieces
}

} // verus!
