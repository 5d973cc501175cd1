//! Verified text utilities: decimal formatting of indices and building of
//! synthesised names.
use vstd::prelude::*;
use vstd::string::StringExecFns;

verus! {

/// The decimal digit character of `n`; meaningful for `n < 10`.
pub open spec fn digit_char_spec(n: nat) -> char {
    if n == 0 {
        '0'
    } else if n == 1 {
        '1'
    } else if n == 2 {
        '2'
    } else if n == 3 {
        '3'
    } else if n == 4 {
        '4'
    } else if n == 5 {
        '5'
    } else if n == 6 {
        '6'
    } else if n == 7 {
        '7'
    } else if n == 8 {
        '8'
    } else {
        '9'
    }
}

/// The decimal digits of `n`, most significant first.
pub open spec fn dec_digits(n: nat) -> Seq<char>
    decreases n,
{
    if n < 10 {
        seq![digit_char_spec(n)]
    } else {
        dec_digits(n / 10).push(digit_char_spec(n % 10))
    }
}

/// Relies on `String::push`: appends one character to the string.
#[verifier::external_body]
fn push_char(s: &mut String, c: char)
    ensures
        final(s)@ == old(s)@.push(c),
{
    s.push(c);
}

/// The decimal digit character of `n`; requires `n < 10`.
fn digit_char(n: usize) -> (r: char)
    requires
        n < 10,
    ensures
        r == digit_char_spec(n as nat),
{
    if n == 0 {
        '0'
    } else if n == 1 {
        '1'
    } else if n == 2 {
        '2'
    } else if n == 3 {
        '3'
    } else if n == 4 {
        '4'
    } else if n == 5 {
        '5'
    } else if n == 6 {
        '6'
    } else if n == 7 {
        '7'
    } else if n == 8 {
        '8'
    } else {
        '9'
    }
}

/// Appends the decimal digits of `n` to the string.
fn push_decimal(s: &mut String, n: usize)
    ensures
        final(s)@ == old(s)@ + dec_digits(n as nat),
    decreases n,
{
    if n < 10 {
        push_char(s, digit_char(n));
        proof {
            assert(s@ =~= old(s)@ + dec_digits(n as nat));
        }
    } else {
        push_decimal(s, n / 10);
        push_char(s, digit_char(n % 10));
        proof {
            assert(s@ =~= old(s)@ + dec_digits(n as nat));
        }
    }
}

/// The synthesised name of the edge to child `c` when none is declared.
pub open spec fn unnamed_edge_name_spec(c: nat) -> Seq<char> {
    "UNNAMED - "@ + dec_digits(c)
}

/// Builds the synthesised name of the edge to child `c`.
pub fn unnamed_edge_name(c: usize) -> (r: String)
    ensures
        r@ == unnamed_edge_name_spec(c as nat),
{
    let mut s: String = "UNNAMED - ".to_owned();
    push_decimal(&mut s, c);
    s
}

/// The name that expression programs use for the event at index `i`.
pub open spec fn ev_index_name_spec(i: nat) -> Seq<char> {
    "ev_"@ + dec_digits(i)
}

/// The name that expression programs use for the object at index `i`.
pub open spec fn ob_index_name_spec(i: nat) -> Seq<char> {
    "ob_"@ + dec_digits(i)
}

/// The name that expression programs use for the event at index `i`.
pub fn ev_index_to_name(ev_index: usize) -> (r: String)
    ensures
        r@ == ev_index_name_spec(ev_index as nat),
{
    let mut s: String = "ev_".to_owned();
    push_decimal(&mut s, ev_index);
    s
}

/// The name that expression programs use for the object at index `i`.
pub fn ob_index_to_name(ob_index: usize) -> (r: String)
    ensures
        r@ == ob_index_name_spec(ob_index as nat),
{
    let mut s: String = "ob_".to_owned();
    push_decimal(&mut s, ob_index);
    s
}

/// The numeric value of a digit character, or none for another character.
pub open spec fn digit_value(c: char) -> Option<int> {
    if c == '0' {
        Some(0int)
    } else if c == '1' {
        Some(1int)
    } else if c == '2' {
        Some(2int)
    } else if c == '3' {
        Some(3int)
    } else if c == '4' {
        Some(4int)
    } else if c == '5' {
        Some(5int)
    } else if c == '6' {
        Some(6int)
    } else if c == '7' {
        Some(7int)
    } else if c == '8' {
        Some(8int)
    } else if c == '9' {
        Some(9int)
    } else {
        None
    }
}

/// The value of the digits of `s` from position `i` on, accumulating onto
/// `acc`; none on a non-digit or when the value leaves `limit`.
pub open spec fn digits_value_from(s: Seq<char>, i: int, acc: int, limit: int) -> Option<int>
    decreases s.len() - i,
{
    if i < 0 || i >= s.len() {
        Some(acc)
    } else {
        match digit_value(s[i]) {
            Some(d) => {
                let next = 10 * acc + d;
                if next > limit {
                    None
                } else {
                    digits_value_from(s, i + 1, next, limit)
                }
            },
            None => None,
        }
    }
}

/// The signed decimal value of `s`: an optional sign followed by at least
/// one digit, everything within the signed 64-bit range.
pub open spec fn parse_i64_spec(s: Seq<char>) -> Option<i64> {
    if s.len() == 0 {
        None
    } else if s[0] == '-' {
        if s.len() == 1 {
            None
        } else {
            match digits_value_from(s, 1, 0, 0x8000_0000_0000_0000int) {
                Some(m) => Some((0 - m) as i64),
                None => None,
            }
        }
    } else if s[0] == '+' {
        if s.len() == 1 {
            None
        } else {
            match digits_value_from(s, 1, 0, i64::MAX as int) {
                Some(m) => Some(m as i64),
                None => None,
            }
        }
    } else {
        match digits_value_from(s, 0, 0, i64::MAX as int) {
            Some(m) => Some(m as i64),
            None => None,
        }
    }
}

/// The numeric value of a digit character.
fn digit_value_exec(c: char) -> (r: Option<u32>)
    ensures
        match r {
            Some(d) => digit_value(c) == Some(d as int) && d < 10,
            None => digit_value(c) is None,
        },
{
    if c == '0' {
        Some(0)
    } else if c == '1' {
        Some(1)
    } else if c == '2' {
        Some(2)
    } else if c == '3' {
        Some(3)
    } else if c == '4' {
        Some(4)
    } else if c == '5' {
        Some(5)
    } else if c == '6' {
        Some(6)
    } else if c == '7' {
        Some(7)
    } else if c == '8' {
        Some(8)
    } else if c == '9' {
        Some(9)
    } else {
        None
    }
}

/// Parses a signed decimal integer: an optional sign followed by at least
/// one digit; none on any other shape or when the value leaves the range.
pub fn parse_i64_chars(s: &Vec<char>) -> (r: Option<i64>)
    ensures
        r == parse_i64_spec(s@),
{
    let n = s.len();
    if n == 0 {
        return None;
    }
    let (neg, start): (bool, usize) = if s[0] == '-' {
        (true, 1)
    } else if s[0] == '+' {
        (false, 1)
    } else {
        (false, 0)
    };
    if start >= n {
        return None;
    }
    let limit: u64 = if neg {
        0x8000_0000_0000_0000
    } else {
        0x7fff_ffff_ffff_ffff
    };
    let mut mag: u64 = 0;
    let mut i: usize = start;
    while i < n
        invariant
            n == s@.len(),
            start <= i <= n,
            mag <= limit,
            limit == if neg {
                0x8000_0000_0000_0000u64
            } else {
                0x7fff_ffff_ffff_ffffu64
            },
            digits_value_from(s@, start as int, 0, limit as int) == digits_value_from(
                s@,
                i as int,
                mag as int,
                limit as int,
            ),
        decreases n - i,
    {
        let d = match digit_value_exec(s[i]) {
            Some(d) => d,
            None => {
                return None;
            },
        };
        let next: u128 = mag as u128 * 10 + d as u128;
        if next > limit as u128 {
            return None;
        }
        mag = next as u64;
        i = i + 1;
    }
    if neg {
        if mag == 0x8000_0000_0000_0000 {
            Some(i64::MIN)
        } else {
            Some(-(mag as i64))
        }
    } else {
        Some(mag as i64)
    }
}

/// Appends the decimal digits of `n` to the string.
fn push_decimal_u64(s: &mut String, n: u64)
    ensures
        final(s)@ == old(s)@ + dec_digits(n as nat),
    decreases n,
{
    if n < 10 {
        push_char(s, digit_char((n % 10) as usize));
        proof {
            assert(s@ =~= old(s)@ + dec_digits(n as nat));
        }
    } else {
        push_decimal_u64(s, n / 10);
        push_char(s, digit_char((n % 10) as usize));
        proof {
            assert(s@ =~= old(s)@ + dec_digits(n as nat));
        }
    }
}

/// The decimal representation of `n`.
pub fn decimal_string_u64(n: u64) -> (r: String)
    ensures
        r@ == dec_digits(n as nat),
{
    let mut s = String::new();
    push_decimal_u64(&mut s, n);
    proof {
        assert(s@ =~= dec_digits(n as nat));
    }
    s
}

/// Appends the characters to the string, in order.
pub fn push_chars(s: &mut String, cs: &Vec<char>)
    ensures
        final(s)@ == old(s)@ + cs@,
{
    let n = cs.len();
    let mut i: usize = 0;
    while i < n
        invariant
            n == cs@.len(),
            i <= n,
            s@ == old(s)@ + cs@.take(i as int),
        decreases n - i,
    {
        push_char(s, cs[i]);
        proof {
            assert(s@ =~= old(s)@ + cs@.take(i + 1));
        }
        i = i + 1;
    }
    proof {
        assert(s@ =~= old(s)@ + cs@);
    }
}

/// A decimal rendering is never empty.
pub proof fn lemma_dec_digits_nonempty(n: nat)
    ensures
        dec_digits(n).len() > 0,
    decreases n,
{
    if n >= 10 {
        lemma_dec_digits_nonempty(n / 10);
    }
}

/// Strict lexicographic order on character sequences, by code point, a
/// proper prefix ordering before its extensions.
pub open spec fn lex_lt(a: Seq<char>, b: Seq<char>) -> bool
    decreases a.len(),
{
    if b.len() == 0 {
        false
    } else if a.len() == 0 {
        true
    } else if a[0] != b[0] {
        a[0] < b[0]
    } else {
        lex_lt(a.skip(1), b.skip(1))
    }
}

/// The lexicographic order is transitive.
pub proof fn lemma_lex_lt_trans(a: Seq<char>, b: Seq<char>, c: Seq<char>)
    requires
        lex_lt(a, b),
        lex_lt(b, c),
    ensures
        lex_lt(a, c),
    decreases a.len() + b.len() + c.len(),
{
    if a.len() > 0 && b.len() > 0 && c.len() > 0 {
        if a[0] == b[0] && b[0] == c[0] {
            lemma_lex_lt_trans(a.skip(1), b.skip(1), c.skip(1));
        }
    }
}

/// Three-way lexicographic comparison of two strings: negative, zero or
/// positive as the first is smaller, equal or larger.
pub fn lex_cmp(a: &String, b: &String) -> (r: i32)
    ensures
        (r < 0) == lex_lt(a@, b@),
        (r == 0) == (a@ == b@),
        (r > 0) == lex_lt(b@, a@),
{
    let av = crate::outside::chars_vec(a.as_str());
    let bv = crate::outside::chars_vec(b.as_str());
    let na = av.len();
    let nb = bv.len();
    let mut i: usize = 0;
    proof {
        assert(av@.skip(0) =~= av@);
        assert(bv@.skip(0) =~= bv@);
    }
    while i < na && i < nb
        invariant
            na == av@.len(),
            nb == bv@.len(),
            av@ == a@,
            bv@ == b@,
            i <= na,
            i <= nb,
            forall|k: int| 0 <= k < i ==> av@[k] == bv@[k],
            lex_lt(a@, b@) == lex_lt(av@.skip(i as int), bv@.skip(i as int)),
            lex_lt(b@, a@) == lex_lt(bv@.skip(i as int), av@.skip(i as int)),
        decreases na - i,
    {
        proof {
            assert(av@.skip(i as int)[0] == av@[i as int]);
            assert(bv@.skip(i as int)[0] == bv@[i as int]);
            assert(av@.skip(i as int).skip(1) =~= av@.skip(i + 1));
            assert(bv@.skip(i as int).skip(1) =~= bv@.skip(i + 1));
        }
        if av[i] == bv[i] {
            i = i + 1;
        } else {
            proof {
                if a@ == b@ {
                    assert(a@[i as int] == b@[i as int]);
                }
            }
            if av[i] < bv[i] {
                return -1;
            } else {
                return 1;
            }
        }
    }
    if na == nb {
        proof {
            assert(a@ =~= b@);
        }
        0
    } else if na < nb {
        proof {
            assert(av@.skip(i as int).len() == 0);
            assert(bv@.skip(i as int).len() > 0);
            if a@ == b@ {
                assert(a@.len() == b@.len());
            }
        }
        -1
    } else {
        proof {
            assert(bv@.skip(i as int).len() == 0);
            assert(av@.skip(i as int).len() > 0);
            if a@ == b@ {
                assert(a@.len() == b@.len());
            }
        }
        1
    }
}

} // verus!
