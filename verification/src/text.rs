//! Text building: decimal digits, padding, character classes.

use vstd::prelude::*;

verus! {

/// `String::push` appends one character at the end and changes nothing else.
pub assume_specification[ String::push ](s: &mut String, c: char)
    ensures
        final(s)@ == old(s)@.push(c),
;

/// `String::push_str` appends the characters of a slice at the end and changes
/// nothing else.
pub assume_specification[ String::push_str ](s: &mut String, t: &str)
    ensures
        final(s)@ == old(s)@ + t@,
;

/// The decimal digit `d`.
pub open spec fn digit(d: nat) -> char
    recommends
        d < 10,
{
    (48 + d) as char
}

/// The decimal digits of `n`, most significant first, without leading zeros.
pub open spec fn decimal(n: nat) -> Seq<char>
    decreases n,
{
    if n < 10 {
        seq![digit(n)]
    } else {
        decimal(n / 10).push(digit(n % 10))
    }
}

/// `s` with zeros in front until it is `width` characters long.
pub open spec fn zero_padded(s: Seq<char>, width: nat) -> Seq<char>
    decreases width - s.len(),
{
    if s.len() >= width {
        s
    } else {
        zero_padded(seq!['0'] + s, width)
    }
}

/// The character of a decimal digit.
pub fn digit_char(d: u64) -> (c: char)
    requires
        d < 10,
    ensures
        c == digit(d as nat),
{
    (48 + d as u8) as char
}

/// Appends the decimal digits of `n`, padded with zeros to `width`.
pub fn push_decimal(out: &mut String, n: u64, width: u64)
    requires
        width < 100,
    ensures
        final(out)@ == old(out)@ + zero_padded(decimal(n as nat), width as nat),
{
    let mut digits: Vec<char> = Vec::new();
    let mut rest: u64 = n;
    proof {
        assert(decimal(n as nat) =~= decimal(n as nat) + digits@.reverse());
    }
    // Least significant digit first.
    while rest >= 10
        invariant
            decimal(n as nat) == decimal(rest as nat) + digits@.reverse(),
        decreases rest,
    {
        let ghost before = digits@;
        let ghost r0 = rest;
        digits.push(digit_char(rest % 10));
        rest = rest / 10;
        proof {
            assert(digits@.reverse() =~= seq![digit((r0 % 10) as nat)] + before.reverse());
            assert(decimal(r0 as nat) =~= decimal(rest as nat) + seq![digit((r0 % 10) as nat)]);
            assert(decimal(n as nat) =~= decimal(rest as nat) + digits@.reverse());
        }
    }
    let ghost before = digits@;
    digits.push(digit_char(rest));
    proof {
        assert(digits@.reverse() =~= seq![digit(rest as nat)] + before.reverse());
        assert(decimal(n as nat) =~= digits@.reverse());
    }
    while (digits.len() as u64) < width
        invariant
            zero_padded(decimal(n as nat), width as nat) == zero_padded(
                digits@.reverse(),
                width as nat,
            ),
            width < 100,
        decreases width - digits@.len(),
    {
        let ghost before = digits@;
        digits.push('0');
        proof {
            assert(digits@.reverse() =~= seq!['0'] + before.reverse());
        }
    }
    let mut i: usize = digits.len();
    while i > 0
        invariant
            i <= digits@.len(),
            out@ == old(out)@ + digits@.reverse().take(digits@.len() - i),
        decreases i,
    {
        i = i - 1;
        out.push(digits[i]);
        proof {
            let r = digits@.reverse();
            let k = digits@.len() - i;
            assert(r.take(k) =~= r.take(k - 1).push(r[k - 1]));
            assert(out@ =~= old(out)@ + r.take(k));
        }
    }
    proof {
        assert(digits@.reverse().take(digits@.len() as int) =~= digits@.reverse());
    }
}

/// Characters that Unicode counts as white space.
pub open spec fn is_white(c: char) -> bool {
    let u = c as u32;
    ||| 0x9 <= u <= 0xD
    ||| u == 0x20
    ||| u == 0x85
    ||| u == 0xA0
    ||| u == 0x1680
    ||| 0x2000 <= u <= 0x200A
    ||| u == 0x2028
    ||| u == 0x2029
    ||| u == 0x202F
    ||| u == 0x205F
    ||| u == 0x3000
}

/// Whether a character is white space.
pub fn white(c: char) -> (r: bool)
    ensures
        r == is_white(c),
{
    let u: u32 = c as u32;
    (0x9 <= u && u <= 0xD) || u == 0x20 || u == 0x85 || u == 0xA0 || u == 0x1680 || (0x2000 <= u
        && u <= 0x200A) || u == 0x2028 || u == 0x2029 || u == 0x202F || u == 0x205F || u == 0x3000
}

/// `s` without the white space at its two ends.
pub open spec fn trimmed(s: Seq<char>) -> Seq<char>
    decreases s.len(),
{
    if s.len() == 0 {
        s
    } else if is_white(s[0]) {
        trimmed(s.skip(1))
    } else if is_white(s.last()) {
        trimmed(s.drop_last())
    } else {
        s
    }
}

/// The bounds of `trimmed(s)` within `s`.
pub fn trim_bounds(s: &str) -> (r: (usize, usize))
    ensures
        r.0 <= r.1 <= s@.len(),
        trimmed(s@) == s@.subrange(r.0 as int, r.1 as int),
{
    let mut lo: usize = 0;
    let mut hi: usize = s.unicode_len();
    proof {
        assert(s@.subrange(0, hi as int) =~= s@);
    }
    while lo < hi && white(s.get_char(lo))
        invariant
            lo <= hi <= s@.len(),
            trimmed(s@) == trimmed(s@.subrange(lo as int, hi as int)),
        decreases hi - lo,
    {
        proof {
            let t = s@.subrange(lo as int, hi as int);
            assert(t.skip(1) =~= s@.subrange(lo + 1, hi as int));
        }
        lo = lo + 1;
    }
    while lo < hi && white(s.get_char(hi - 1))
        invariant
            lo <= hi <= s@.len(),
            lo < hi ==> !is_white(s@[lo as int]),
            trimmed(s@) == trimmed(s@.subrange(lo as int, hi as int)),
        decreases hi - lo,
    {
        proof {
            let t = s@.subrange(lo as int, hi as int);
            assert(t.drop_last() =~= s@.subrange(lo as int, hi - 1));
        }
        hi = hi - 1;
    }
    (lo, hi)
}

/// The ASCII upper-case form of a character.
pub open spec fn upper(c: char) -> char {
    if 'a' <= c && c <= 'z' {
        ((c as u32 - 32) as u32) as char
    } else {
        c
    }
}

/// The ASCII upper-case form of a character.
pub fn upper_char(c: char) -> (r: char)
    ensures
        r == upper(c),
{
    if 'a' <= c && c <= 'z' {
        ((c as u8) - 32) as char
    } else {
        c
    }
}

/// Whether a text sorts before another, character by character.
pub open spec fn sorts_before(s: Seq<char>, t: Seq<char>) -> bool
    decreases s.len(),
{
    if t.len() == 0 {
        false
    } else if s.len() == 0 {
        true
    } else if s[0] == t[0] {
        sorts_before(s.skip(1), t.skip(1))
    } else {
        (s[0] as u32) < (t[0] as u32)
    }
}

/// No text sorts before itself.
pub proof fn lemma_sorts_irreflexive(s: Seq<char>)
    ensures
        !sorts_before(s, s),
    decreases s.len(),
{
    if s.len() > 0 {
        lemma_sorts_irreflexive(s.skip(1));
    }
}

/// The first character in which two texts differ decides their order.
pub proof fn lemma_first_difference(s: Seq<char>, t: Seq<char>, i: int)
    requires
        0 <= i < s.len(),
        i < t.len(),
        forall|k: int| 0 <= k < i ==> s[k] == t[k],
        s[i] != t[i],
    ensures
        sorts_before(s, t) == ((s[i] as u32) < (t[i] as u32)),
    decreases i,
{
    if i > 0 {
        assert(s[0] == t[0]);
        assert forall|k: int| 0 <= k < i - 1 implies s.skip(1)[k] == t.skip(1)[k] by {
            assert(s[k + 1] == t[k + 1]);
        }
        lemma_first_difference(s.skip(1), t.skip(1), i - 1);
    }
}

/// Two padded digits.
pub proof fn lemma_two_digits(n: nat)
    requires
        n < 100,
    ensures
        zero_padded(decimal(n), 2) == seq![digit(n / 10), digit(n % 10)],
{
    reveal_with_fuel(decimal, 3);
    reveal_with_fuel(zero_padded, 3);
    assert(zero_padded(decimal(n), 2) =~= seq![digit(n / 10), digit(n % 10)]);
}

/// Four padded digits.
pub proof fn lemma_four_digits(n: nat)
    requires
        n < 10000,
    ensures
        zero_padded(decimal(n), 4) == seq![
            digit(n / 1000),
            digit(n / 100 % 10),
            digit(n / 10 % 10),
            digit(n % 10),
        ],
{
    let all = seq![digit(n / 1000), digit(n / 100 % 10), digit(n / 10 % 10), digit(n % 10)];
    reveal_with_fuel(decimal, 5);
    reveal_with_fuel(zero_padded, 5);
    assert(n / 10 / 10 == n / 100);
    assert(n / 100 / 10 == n / 1000);
    if n < 10 {
        assert(decimal(n) =~= seq![digit(n)]);
    } else if n < 100 {
        assert(decimal(n) =~= seq![digit(n / 10), digit(n % 10)]);
    } else if n < 1000 {
        assert(decimal(n) =~= seq![digit(n / 100), digit(n / 10 % 10), digit(n % 10)]);
    } else {
        assert(decimal(n) =~= all);
    }
    assert(zero_padded(decimal(n), 4) =~= all);
}

/// Digits sort like their values.
pub proof fn lemma_digit_order(d: nat, e: nat)
    requires
        d < 10,
        e < 10,
    ensures
        digit(d) == digit(e) <==> d == e,
        (digit(d) as u32) < (digit(e) as u32) <==> d < e,
{
}

/// The first of two digits in which numbers differ decides their order.
pub proof fn lemma_two_places(n: nat, m: nat)
    requires
        n < 100,
        m < 100,
    ensures
        n / 10 != m / 10 ==> (n < m <==> n / 10 < m / 10),
        n / 10 == m / 10 ==> (n < m <==> n % 10 < m % 10),
        n / 10 == m / 10 && n % 10 == m % 10 ==> n == m,
{
}

/// The first of four digits in which numbers differ decides their order.
pub proof fn lemma_four_places(n: nat, m: nat)
    requires
        n < 10000,
        m < 10000,
    ensures
        n / 1000 != m / 1000 ==> (n < m <==> n / 1000 < m / 1000),
        n / 1000 == m / 1000 && n / 100 % 10 != m / 100 % 10 ==> (n < m <==> n / 100 % 10 < m / 100
            % 10),
        n / 1000 == m / 1000 && n / 100 % 10 == m / 100 % 10 && n / 10 % 10 != m / 10 % 10 ==> (n
            < m <==> n / 10 % 10 < m / 10 % 10),
        n / 1000 == m / 1000 && n / 100 % 10 == m / 100 % 10 && n / 10 % 10 == m / 10 % 10 ==> (n
            < m <==> n % 10 < m % 10),
        n / 1000 == m / 1000 && n / 100 % 10 == m / 100 % 10 && n / 10 % 10 == m / 10 % 10 && n % 10
            == m % 10 ==> n == m,
{
    assert(n / 10 / 10 == n / 100 && m / 10 / 10 == m / 100);
    assert(n / 100 / 10 == n / 1000 && m / 100 / 10 == m / 1000);
}

} // verus!
