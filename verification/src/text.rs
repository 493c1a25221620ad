//! Characters, decimal numerals, binary numerals, and small string
//! operations shared by the resolver and the encoder.

use vstd::prelude::*;

verus! {

/// The decimal digits.
pub open spec fn is_digit_char(c: char) -> bool {
    '0' <= c && c <= '9'
}

/// Numeric value of one decimal digit.
pub open spec fn digit_val(c: char) -> nat
    recommends
        is_digit_char(c),
{
    (c as u32 - '0' as u32) as nat
}

/// The digit character for a value below ten.
pub open spec fn digit_char(d: nat) -> char
    recommends
        d < 10,
{
    if d == 0 {
        '0'
    } else if d == 1 {
        '1'
    } else if d == 2 {
        '2'
    } else if d == 3 {
        '3'
    } else if d == 4 {
        '4'
    } else if d == 5 {
        '5'
    } else if d == 6 {
        '6'
    } else if d == 7 {
        '7'
    } else if d == 8 {
        '8'
    } else {
        '9'
    }
}

/// A non-empty run of decimal digits and nothing else.
pub open spec fn is_digits(s: Seq<char>) -> bool {
    s.len() > 0 && forall|i: int| 0 <= i < s.len() ==> is_digit_char(s[i])
}

/// Value of a digit sequence read in base ten.
pub open spec fn dec_val(s: Seq<char>) -> nat
    decreases s.len(),
{
    if s.len() == 0 {
        0
    } else {
        dec_val(s.drop_last()) * 10 + digit_val(s.last())
    }
}

/// The decimal numeral of a number, with no leading zero except for zero
/// itself.
pub open spec fn dec_str(n: nat) -> Seq<char>
    decreases n,
{
    if n < 10 {
        seq![digit_char(n)]
    } else {
        dec_str(n / 10).push(digit_char(n % 10))
    }
}

/// A decimal numeral is made of digits and nothing else.
pub proof fn lemma_dec_str_digits(n: nat)
    ensures
        is_digits(dec_str(n)),
    decreases n,
{
    if n < 10 {
    } else {
        lemma_dec_str_digits(n / 10);
        let s = dec_str(n / 10);
        assert forall|i: int| 0 <= i < dec_str(n).len() implies is_digit_char(
            dec_str(n)[i],
        ) by {
            if i < s.len() {
                assert(dec_str(n)[i] == s[i]);
            } else {
                assert(dec_str(n)[i] == digit_char(n % 10));
            }
        }
    }
}

/// Powers of two.
pub open spec fn pow2(w: nat) -> nat
    decreases w,
{
    if w == 0 {
        1
    } else {
        2 * pow2((w - 1) as nat)
    }
}

/// The character for one bit.
pub open spec fn bit_char(b: nat) -> char
    recommends
        b < 2,
{
    if b == 1 {
        '1'
    } else {
        '0'
    }
}

/// The `w`-character binary numeral of `n mod 2^w`, most significant bit
/// first.
pub open spec fn bits(n: nat, w: nat) -> Seq<char>
    decreases w,
{
    if w == 0 {
        Seq::empty()
    } else {
        bits(n / 2, (w - 1) as nat).push(bit_char(n % 2))
    }
}

/// Value of a binary numeral, most significant bit first; any character
/// other than '1' counts as a zero bit.
pub open spec fn bin_val(s: Seq<char>) -> nat
    decreases s.len(),
{
    if s.len() == 0 {
        0
    } else {
        bin_val(s.drop_last()) * 2 + (if s.last() == '1' {
            1nat
        } else {
            0nat
        })
    }
}

pub proof fn lemma_bits_len(n: nat, w: nat)
    ensures
        bits(n, w).len() == w,
    decreases w,
{
    if w > 0 {
        lemma_bits_len(n / 2, (w - 1) as nat);
    }
}

/// Reading a binary numeral back recovers the number it was written from.
pub proof fn lemma_bin_val_bits(n: nat, w: nat)
    requires
        n < pow2(w),
    ensures
        bin_val(bits(n, w)) == n,
    decreases w,
{
    if w == 0 {
        assert(n == 0);
    } else {
        lemma_bin_val_bits(n / 2, (w - 1) as nat);
        assert(bits(n, w).drop_last() == bits(n / 2, (w - 1) as nat));
        assert(bin_val(bits(n, w)) == (n / 2) * 2 + n % 2);
    }
}

/// The first index holding `c`, if any.
pub open spec fn find_index(s: Seq<char>, c: char) -> Option<int>
    decreases s.len(),
{
    if s.len() == 0 {
        Option::None
    } else if s[0] == c {
        Option::Some(0)
    } else {
        match find_index(s.drop_first(), c) {
            Option::None => Option::None,
            Option::Some(i) => Option::Some(i + 1),
        }
    }
}

pub proof fn lemma_find_index(s: Seq<char>, c: char)
    ensures
        match find_index(s, c) {
            Option::Some(i) => 0 <= i < s.len() && s[i] == c && forall|j: int|
                0 <= j < i ==> s[j] != c,
            Option::None => forall|j: int| 0 <= j < s.len() ==> s[j] != c,
        },
    decreases s.len(),
{
    if s.len() > 0 && s[0] != c {
        lemma_find_index(s.drop_first(), c);
        match find_index(s.drop_first(), c) {
            Option::Some(k) => {
                assert forall|j: int| 0 <= j < k + 1 implies s[j] != c by {
                    if j > 0 {
                        assert(s.drop_first()[j - 1] == s[j]);
                    }
                }
            },
            Option::None => {
                assert forall|j: int| 0 <= j < s.len() implies s[j] != c by {
                    if j > 0 {
                        assert(s.drop_first()[j - 1] == s[j]);
                    }
                }
            },
        }
    }
}

/// Drop every leading occurrence of `c`.
pub open spec fn trim_leading(s: Seq<char>, c: char) -> Seq<char>
    decreases s.len(),
{
    if s.len() > 0 && s[0] == c {
        trim_leading(s.drop_first(), c)
    } else {
        s
    }
}

/// Drop every trailing occurrence of `c`.
pub open spec fn trim_trailing(s: Seq<char>, c: char) -> Seq<char>
    decreases s.len(),
{
    if s.len() > 0 && s.last() == c {
        trim_trailing(s.drop_last(), c)
    } else {
        s
    }
}

/// Character-for-character equality of two string slices.
pub fn str_eq(a: &str, b: &str) -> (r: bool)
    ensures
        r == (a@ == b@),
{
    let alen = a.unicode_len();
    let blen = b.unicode_len();
    if alen != blen {
        return false;
    }
    let mut i: usize = 0;
    while i < alen
        invariant
            i <= alen,
            alen == a@.len(),
            alen == b@.len(),
            forall|j: int| 0 <= j < i ==> a@[j] == b@[j],
        decreases alen - i,
    {
        if a.get_char(i) != b.get_char(i) {
            return false;
        }
        i = i + 1;
    }
    proof {
        assert(a@ =~= b@);
    }
    true
}

/// The first position of `c` in `s`, scanning left to right.
pub fn find_char(s: &str, c: char) -> (r: Option<usize>)
    ensures
        match r {
            Option::Some(i) => find_index(s@, c) == Option::Some(i as int),
            Option::None => find_index(s@, c) is None,
        },
{
    let len = s.unicode_len();
    let mut i: usize = 0;
    proof {
        assert(s@.skip(0) =~= s@);
    }
    while i < len
        invariant
            i <= len,
            len == s@.len(),
            match find_index(s@.skip(i as int), c) {
                Option::Some(k) => find_index(s@, c) == Option::Some(i + k),
                Option::None => find_index(s@, c) is None,
            },
        decreases len - i,
    {
        if s.get_char(i) == c {
            return Some(i);
        }
        proof {
            assert(s@.skip(i as int).drop_first() =~= s@.skip(i + 1));
        }
        i = i + 1;
    }
    None
}

/// The digit character for a value below ten, as a string slice.
fn digit_str(d: u64) -> (r: &'static str)
    requires
        d < 10,
    ensures
        r@ =~= seq![digit_char(d as nat)],
{
    proof {
        reveal_strlit("0");
        reveal_strlit("1");
        reveal_strlit("2");
        reveal_strlit("3");
        reveal_strlit("4");
        reveal_strlit("5");
        reveal_strlit("6");
        reveal_strlit("7");
        reveal_strlit("8");
        reveal_strlit("9");
    }
    if d == 0 {
        "0"
    } else if d == 1 {
        "1"
    } else if d == 2 {
        "2"
    } else if d == 3 {
        "3"
    } else if d == 4 {
        "4"
    } else if d == 5 {
        "5"
    } else if d == 6 {
        "6"
    } else if d == 7 {
        "7"
    } else if d == 8 {
        "8"
    } else {
        "9"
    }
}

/// Render a number as its decimal numeral.
pub fn decimal_string(n: u64) -> (r: String)
    ensures
        r@ == dec_str(n as nat),
    decreases n,
{
    if n < 10 {
        let r = String::from_str(digit_str(n));
        proof {
            assert(r@ =~= dec_str(n as nat));
        }
        r
    } else {
        let mut r = decimal_string(n / 10);
        r.append(digit_str(n % 10));
        proof {
            assert(r@ =~= dec_str(n as nat));
        }
        r
    }
}

/// Render a number as a `w`-character binary numeral.
pub fn binary_string(n: u64, w: u64) -> (r: String)
    ensures
        r@ == bits(n as nat, w as nat),
    decreases w,
{
    if w == 0 {
        let r = String::new();
        proof {
            assert(r@ =~= bits(n as nat, 0));
        }
        r
    } else {
        let mut r = binary_string(n / 2, w - 1);
        if n % 2 == 1 {
            r.append("1");
        } else {
            r.append("0");
        }
        proof {
            reveal_strlit("0");
            reveal_strlit("1");
            assert(r@ =~= bits(n as nat, w as nat));
        }
        r
    }
}

/// Whether a string is a non-empty run of decimal digits.
pub fn is_digit_string(s: &str) -> (r: bool)
    ensures
        r == is_digits(s@),
{
    let len: usize = s.unicode_len();
    if len == 0 {
        return false;
    }
    let mut i: usize = 0;
    while i < len
        invariant
            i <= len,
            len == s@.len(),
            forall|j: int| 0 <= j < i ==> is_digit_char(s@[j]),
        decreases len - i,
    {
        let c = s.get_char(i);
        if c < '0' || c > '9' {
            proof {
                assert(!is_digit_char(s@[i as int]));
            }
            return false;
        }
        i = i + 1;
    }
    true
}

/// Read a decimal numeral, accepting only digit characters and only values
/// up to `max`.
pub fn parse_number(s: &str, max: u64) -> (r: Option<u64>)
    requires
        max <= 65535,
    ensures
        match r {
            Option::Some(v) => is_digits(s@) && dec_val(s@) == v && v <= max,
            Option::None => !(is_digits(s@) && dec_val(s@) <= max),
        },
{
    let len = s.unicode_len();
    if len == 0 {
        return None;
    }
    let mut i: usize = 0;
    let mut acc: u64 = 0;
    proof {
        assert(s@.take(0) =~= Seq::<char>::empty());
    }
    while i < len
        invariant
            i <= len,
            len == s@.len(),
            max <= 65535,
            forall|j: int| 0 <= j < i ==> is_digit_char(s@[j]),
            acc <= 655359,
            dec_val(s@.take(i as int)) <= 65535 ==> acc == dec_val(s@.take(i as int)),
            dec_val(s@.take(i as int)) > 65535 ==> acc > 65535,
        decreases len - i,
    {
        let c = s.get_char(i);
        if c < '0' || c > '9' {
            proof {
                assert(!is_digit_char(s@[i as int]));
            }
            return None;
        }
        let d: u64 = (c as u32 - '0' as u32) as u64;
        proof {
            assert(s@.take(i + 1).drop_last() =~= s@.take(i as int));
            assert(s@.take(i + 1).last() == s@[i as int]);
        }
        if acc <= 65535 {
            acc = acc * 10 + d;
        }
        i = i + 1;
    }
    proof {
        assert(s@.take(len as int) =~= s@);
    }
    if acc <= max {
        Some(acc)
    } else {
        None
    }
}

} // verus!
