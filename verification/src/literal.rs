use vstd::prelude::*;
use vstd::string::*;

verus! {

/// The value of `c` as a digit of `radix`, if it is one: `0`-`9`, then letters
/// of either case for ten and above.
pub open spec fn digit_value(c: char, radix: nat) -> Option<nat> {
    let d: int = if '0' <= c && c <= '9' {
        c as int - '0' as int
    } else if 'a' <= c && c <= 'z' {
        c as int - 'a' as int + 10
    } else if 'A' <= c && c <= 'Z' {
        c as int - 'A' as int + 10
    } else {
        radix as int
    };
    if 0 <= d < radix {
        Some(d as nat)
    } else {
        None
    }
}

/// The number that the digits `s` write in `radix`, if every character is a
/// digit (the empty sequence writes zero).
pub open spec fn digits_value(s: Seq<char>, radix: nat) -> Option<nat>
    decreases s.len(),
{
    if s.len() == 0 {
        Some(0)
    } else {
        match (digits_value(s.drop_last(), radix), digit_value(s.last(), radix)) {
            (Some(v), Some(d)) => Some(v * radix + d),
            _ => None,
        }
    }
}

/// The number that `s` writes in `radix` as std's `from_str_radix` reads it: an
/// optional `+` (or, for a signed type, `-`), then one or more digits, nothing else.
pub open spec fn signed_value(s: Seq<char>, radix: nat, signed: bool) -> Option<int> {
    if s.len() == 0 {
        None
    } else if (s[0] == '+' || s[0] == '-') && s.len() == 1 {
        None
    } else if s[0] == '+' {
        match digits_value(s.drop_first(), radix) {
            Some(v) => Some(v as int),
            None => None,
        }
    } else if s[0] == '-' && signed {
        match digits_value(s.drop_first(), radix) {
            Some(v) => Some(-v),
            None => None,
        }
    } else {
        match digits_value(s, radix) {
            Some(v) => Some(v as int),
            None => None,
        }
    }
}

/// The `usize` that decimal text `s` denotes, as `str::parse::<usize>` reads it.
pub open spec fn spec_parse_usize(s: Seq<char>) -> Option<usize> {
    match signed_value(s, 10, false) {
        Some(v) => if v <= usize::MAX {
            Some(v as usize)
        } else {
            None
        },
        None => None,
    }
}

/// The `i32` that `s` denotes in `radix`, as `i32::from_str_radix` reads it.
pub open spec fn spec_parse_i32(s: Seq<char>, radix: nat) -> Option<i32> {
    match signed_value(s, radix, true) {
        Some(v) => if i32::MIN <= v <= i32::MAX {
            Some(v as i32)
        } else {
            None
        },
        None => None,
    }
}

/// `s` with every leading `0x` taken off, as `trim_start_matches("0x")` does.
pub open spec fn strip_hex_prefix(s: Seq<char>) -> Seq<char>
    decreases s.len(),
{
    if s.len() >= 2 && s[0] == '0' && s[1] == 'x' {
        strip_hex_prefix(s.skip(2))
    } else {
        s
    }
}

/// The number of decimal digits of `n`.
pub open spec fn digit_count(n: nat) -> nat
    decreases n,
{
    if n < 10 {
        1
    } else {
        1 + digit_count(n / 10)
    }
}

/// The number of characters in the decimal text of `v`, a minus sign included.
pub open spec fn decimal_len(v: int) -> nat {
    if v < 0 {
        1 + digit_count((-v) as nat)
    } else {
        digit_count(v as nat)
    }
}

proof fn lemma_digits_prefix(s: Seq<char>, radix: nat, k: int)
    requires
        radix >= 1,
        0 <= k <= s.len(),
        digits_value(s, radix) is Some,
    ensures
        digits_value(s.take(k), radix) is Some,
        digits_value(s.take(k), radix).unwrap() <= digits_value(s, radix).unwrap(),
    decreases s.len(),
{
    if k == s.len() {
        assert(s.take(k) =~= s);
    } else {
        assert(s.drop_last().take(k) =~= s.take(k));
        lemma_digits_prefix(s.drop_last(), radix, k);
        let v = digits_value(s.drop_last(), radix).unwrap();
        assert(v * radix >= v) by (nonlinear_arith)
            requires
                radix >= 1,
        ;
    }
}

/// The digits of `s` from `start` on, read in `radix`, where every character is a
/// digit of `radix` and their value is at most `limit`; `None` otherwise.
fn digits_up_to(s: &str, start: usize, radix: u32, limit: u128) -> (r: Option<u128>)
    requires
        start <= s@.len(),
        2 <= radix <= 36,
        limit <= u64::MAX,
    ensures
        r is Some <==> (digits_value(s@.skip(start as int), radix as nat) is Some
            && digits_value(s@.skip(start as int), radix as nat).unwrap() <= limit),
        r matches Some(v) ==> v == digits_value(s@.skip(start as int), radix as nat).unwrap(),
{
    let ghost t = s@.skip(start as int);
    let ghost rad = radix as nat;
    let n = s.unicode_len();
    let mut acc: u128 = 0;
    let mut i: usize = start;
    assert(t.take(0) =~= Seq::<char>::empty());
    while i < n
        invariant
            n == s@.len(),
            t == s@.skip(start as int),
            rad == radix as nat,
            2 <= radix <= 36,
            limit <= u64::MAX,
            start <= i <= n,
            digits_value(t.take(i - start), rad) == Some(acc as nat),
            acc <= limit,
        decreases n - i,
    {
        let c = s.get_char(i);
        let ghost j = i - start;
        assert(t.take(j + 1).drop_last() =~= t.take(j));
        assert(t.take(j + 1).last() == c);
        let d: u32 = if '0' <= c && c <= '9' {
            (c as u32) - ('0' as u32)
        } else if 'a' <= c && c <= 'z' {
            (c as u32) - ('a' as u32) + 10
        } else if 'A' <= c && c <= 'Z' {
            (c as u32) - ('A' as u32) + 10
        } else {
            radix
        };
        if d >= radix {
            assert(digit_value(c, rad) is None);
            proof {
                if digits_value(t, rad) is Some {
                    lemma_digits_prefix(t, rad, j + 1);
                }
            }
            return None;
        }
        assert(digit_value(c, rad) == Some(d as nat));
        assert(acc * (radix as u128) <= u64::MAX * 36) by (nonlinear_arith)
            requires
                acc <= u64::MAX,
                radix <= 36,
        ;
        let next: u128 = acc * (radix as u128) + (d as u128);
        if next > limit {
            proof {
                if digits_value(t, rad) is Some {
                    lemma_digits_prefix(t, rad, j + 1);
                }
            }
            return None;
        }
        acc = next;
        i = i + 1;
    }
    assert(t.take(n - start) =~= t);
    Some(acc)
}

/// The number that `s` writes from `start` on in `radix`, as `signed_value` reads
/// it, where its magnitude is at most `limit`.
fn signed_up_to(s: &str, start: usize, radix: u32, signed: bool, limit: u128) -> (r: Option<(bool, u128)>)
    requires
        start <= s@.len(),
        2 <= radix <= 36,
        limit <= u64::MAX,
    ensures
        ({
            let v = signed_value(s@.skip(start as int), radix as nat, signed);
            match r {
                Some((neg, m)) => v is Some && m <= limit && v.unwrap() == (if neg {
                    -(m as int)
                } else {
                    m as int
                }),
                None => v is None || (v.unwrap() > limit || v.unwrap() < -limit),
            }
        }),
        r matches Some((neg, _)) ==> (neg ==> signed),
{
    let ghost t = s@.skip(start as int);
    let n = s.unicode_len();
    if start == n {
        return None;
    }
    let c = s.get_char(start);
    assert(t[0] == c);
    if (c == '+' || c == '-') && start + 1 == n {
        return None;
    }
    assert(s@.skip(start + 1) =~= t.drop_first());
    if c == '+' {
        match digits_up_to(s, start + 1, radix, limit) {
            Some(m) => Some((false, m)),
            None => None,
        }
    } else if c == '-' && signed {
        match digits_up_to(s, start + 1, radix, limit) {
            Some(m) => Some((true, m)),
            None => None,
        }
    } else {
        match digits_up_to(s, start, radix, limit) {
            Some(m) => Some((false, m)),
            None => None,
        }
    }
}

/// Reads decimal text as `str::parse::<usize>` does: `None` where it fails.
pub fn parse_usize(s: &str) -> (r: Option<usize>)
    ensures
        r == spec_parse_usize(s@),
{
    assert(s@.skip(0) =~= s@);
    match signed_up_to(s, 0, 10, false, usize::MAX as u128) {
        Some((neg, m)) => {
            if neg {
                None
            } else {
                Some(m as usize)
            }
        },
        None => None,
    }
}

/// Reads text in `radix` from `start` on as `i32::from_str_radix` does: `None`
/// where it fails.
pub fn parse_i32_from(s: &str, start: usize, radix: u32) -> (r: Option<i32>)
    requires
        start <= s@.len(),
        2 <= radix <= 36,
    ensures
        r == spec_parse_i32(s@.skip(start as int), radix as nat),
{
    match signed_up_to(s, start, radix, true, 0x8000_0000u128) {
        Some((neg, m)) => {
            if neg {
                let v: i64 = -(m as i64);
                Some(v as i32)
            } else if m <= 0x7fff_ffff {
                Some(m as i32)
            } else {
                None
            }
        },
        None => None,
    }
}

/// The index at which `s` is left once every leading `0x` is taken off.
pub fn hex_prefix_end(s: &str) -> (k: usize)
    ensures
        k <= s@.len(),
        s@.skip(k as int) == strip_hex_prefix(s@),
{
    let n = s.unicode_len();
    let mut k: usize = 0;
    assert(s@.skip(0) =~= s@);
    while n - k >= 2 && s.get_char(k) == '0' && s.get_char(k + 1) == 'x'
        invariant
            n == s@.len(),
            k <= n,
            strip_hex_prefix(s@.skip(k as int)) == strip_hex_prefix(s@),
        decreases n - k,
    {
        assert(s@.skip(k as int).skip(2) =~= s@.skip(k + 2));
        k = k + 2;
    }
    k
}

proof fn lemma_digit_count_bound(n: nat)
    ensures
        1 <= digit_count(n) <= n + 1,
    decreases n,
{
    if n >= 10 {
        lemma_digit_count_bound(n / 10);
    }
}

/// The number of characters in the decimal text of `v`, as `v.to_string()` writes it.
pub fn i32_text_len(v: i32) -> (n: usize)
    ensures
        n == decimal_len(v as int),
{
    let mut m: u64 = if v < 0 {
        (-(v as i64)) as u64
    } else {
        v as u64
    };
    let ghost m0 = m as nat;
    proof {
        lemma_digit_count_bound(m0);
    }
    let mut count: usize = 1;
    while m >= 10
        invariant
            count + digit_count(m as nat) == 1 + digit_count(m0),
            1 <= count,
            m0 <= 0x8000_0000,
            digit_count(m0) <= m0 + 1,
        decreases m,
    {
        proof {
            lemma_digit_count_bound((m / 10) as nat);
        }
        m = m / 10;
        count = count + 1;
    }
    if v < 0 {
        count + 1
    } else {
        count
    }
}

} // verus!
