//! Small formatting and numeric utilities shared by the storage core.

use crate::codec::read_range;
use vstd::arithmetic::div_mod::{
    lemma_div_denominator, lemma_fundamental_div_mod, lemma_mod_bound,
};
use vstd::arithmetic::power2::{lemma2_to64, lemma_pow2_unfold, pow2};
use vstd::prelude::*;
use vstd::string::StringExecFns;

verus! {

/// The lowercase hexadecimal digit for `d`.
pub open spec fn hex_digit(d: int) -> char {
    if d == 0 {
        '0'
    } else if d == 1 {
        '1'
    } else if d == 2 {
        '2'
    } else if d == 3 {
        '3'
    } else if d == 4 {
        '4'
    } else if d == 5 {
        '5'
    } else if d == 6 {
        '6'
    } else if d == 7 {
        '7'
    } else if d == 8 {
        '8'
    } else if d == 9 {
        '9'
    } else if d == 10 {
        'a'
    } else if d == 11 {
        'b'
    } else if d == 12 {
        'c'
    } else if d == 13 {
        'd'
    } else if d == 14 {
        'e'
    } else {
        'f'
    }
}

/// The hexadecimal digits of `n`, most significant first, no leading zeros
/// (a single zero for `n == 0`).
pub open spec fn hex_digits(n: nat) -> Seq<char>
    decreases n,
{
    if n < 16 {
        seq![hex_digit(n as int)]
    } else {
        hex_digits(n / 16).push(hex_digit((n % 16) as int))
    }
}

/// The text `hex_str` produces: the hexadecimal digits of `n`, zero-padded
/// on the left to at least eight digits, followed by `H`.
pub open spec fn spec_hex_str(n: nat) -> Seq<char> {
    let ds = hex_digits(n);
    (if ds.len() < 8 {
        Seq::new((8 - ds.len()) as nat, |i: int| '0')
    } else {
        Seq::empty()
    }) + ds + seq!['H']
}

/// Appends the character for hexadecimal digit `d`.
fn push_hex_digit(s: &mut String, d: usize)
    requires
        d < 16,
    ensures
        final(s)@ == old(s)@ + seq![hex_digit(d as int)],
{
    if d == 0 {
        proof {
            reveal_strlit("0");
        }
        s.append("0");
    } else if d == 1 {
        proof {
            reveal_strlit("1");
        }
        s.append("1");
    } else if d == 2 {
        proof {
            reveal_strlit("2");
        }
        s.append("2");
    } else if d == 3 {
        proof {
            reveal_strlit("3");
        }
        s.append("3");
    } else if d == 4 {
        proof {
            reveal_strlit("4");
        }
        s.append("4");
    } else if d == 5 {
        proof {
            reveal_strlit("5");
        }
        s.append("5");
    } else if d == 6 {
        proof {
            reveal_strlit("6");
        }
        s.append("6");
    } else if d == 7 {
        proof {
            reveal_strlit("7");
        }
        s.append("7");
    } else if d == 8 {
        proof {
            reveal_strlit("8");
        }
        s.append("8");
    } else if d == 9 {
        proof {
            reveal_strlit("9");
        }
        s.append("9");
    } else if d == 10 {
        proof {
            reveal_strlit("a");
        }
        s.append("a");
    } else if d == 11 {
        proof {
            reveal_strlit("b");
        }
        s.append("b");
    } else if d == 12 {
        proof {
            reveal_strlit("c");
        }
        s.append("c");
    } else if d == 13 {
        proof {
            reveal_strlit("d");
        }
        s.append("d");
    } else if d == 14 {
        proof {
            reveal_strlit("e");
        }
        s.append("e");
    } else {
        proof {
            reveal_strlit("f");
        }
        s.append("f");
    }
    assert(final(s)@ =~= old(s)@ + seq![hex_digit(d as int)]);
}

/// Appends the hexadecimal digits of `n`, most significant first.
fn push_hex_digits(s: &mut String, n: usize)
    ensures
        final(s)@ == old(s)@ + hex_digits(n as nat),
    decreases n,
{
    if n < 16 {
        push_hex_digit(s, n);
    } else {
        push_hex_digits(s, n / 16);
        push_hex_digit(s, n % 16);
        assert(s@ =~= old(s)@ + hex_digits(n as nat));
    }
}

/// Formats `number` as at least eight lowercase hexadecimal digits followed
/// by `H`.
pub fn hex_str(number: usize) -> (s: String)
    ensures
        s@ == spec_hex_str(number as nat),
{
    let mut digits = String::new();
    push_hex_digits(&mut digits, number);
    let dlen = digits.as_str().unicode_len();
    let pad_total: usize = if dlen < 8 {
        8 - dlen
    } else {
        0
    };
    let mut s = String::new();
    let mut pad: usize = 0;
    while pad < pad_total
        invariant
            pad <= pad_total <= 8,
            dlen == hex_digits(number as nat).len(),
            pad_total as int == (if dlen < 8 {
                8 - dlen
            } else {
                0int
            }),
            s@ == Seq::new(pad as nat, |i: int| '0'),
        decreases pad_total - pad,
    {
        proof {
            reveal_strlit("0");
        }
        s.append("0");
        pad = pad + 1;
        assert(s@ =~= Seq::new(pad as nat, |i: int| '0'));
    }
    s.append(digits.as_str());
    proof {
        reveal_strlit("H");
    }
    s.append("H");
    proof {
        assert(s@ =~= spec_hex_str(number as nat));
    }
    s
}

/// The decimal digit character for `d`.
pub open spec fn dec_digit(d: int) -> char {
    if d == 0 {
        '0'
    } else if d == 1 {
        '1'
    } else if d == 2 {
        '2'
    } else if d == 3 {
        '3'
    } else if d == 4 {
        '4'
    } else if d == 5 {
        '5'
    } else if d == 6 {
        '6'
    } else if d == 7 {
        '7'
    } else if d == 8 {
        '8'
    } else {
        '9'
    }
}

/// The decimal digits of `n`, most significant first.
pub open spec fn dec_digits(n: nat) -> Seq<char>
    decreases n,
{
    if n < 10 {
        seq![dec_digit(n as int)]
    } else {
        dec_digits(n / 10).push(dec_digit((n % 10) as int))
    }
}

/// Appends the character for decimal digit `d`.
fn push_dec_digit(s: &mut String, d: usize)
    requires
        d < 10,
    ensures
        final(s)@ == old(s)@ + seq![dec_digit(d as int)],
{
    if d == 0 {
        proof {
            reveal_strlit("0");
        }
        s.append("0");
    } else if d == 1 {
        proof {
            reveal_strlit("1");
        }
        s.append("1");
    } else if d == 2 {
        proof {
            reveal_strlit("2");
        }
        s.append("2");
    } else if d == 3 {
        proof {
            reveal_strlit("3");
        }
        s.append("3");
    } else if d == 4 {
        proof {
            reveal_strlit("4");
        }
        s.append("4");
    } else if d == 5 {
        proof {
            reveal_strlit("5");
        }
        s.append("5");
    } else if d == 6 {
        proof {
            reveal_strlit("6");
        }
        s.append("6");
    } else if d == 7 {
        proof {
            reveal_strlit("7");
        }
        s.append("7");
    } else if d == 8 {
        proof {
            reveal_strlit("8");
        }
        s.append("8");
    } else {
        proof {
            reveal_strlit("9");
        }
        s.append("9");
    }
    assert(final(s)@ =~= old(s)@ + seq![dec_digit(d as int)]);
}

/// Appends the decimal digits of `n`, most significant first.
fn push_dec_digits(s: &mut String, n: usize)
    ensures
        final(s)@ == old(s)@ + dec_digits(n as nat),
    decreases n,
{
    if n < 10 {
        push_dec_digit(s, n);
    } else {
        push_dec_digits(s, n / 10);
        push_dec_digit(s, n % 10);
        assert(s@ =~= old(s)@ + dec_digits(n as nat));
    }
}

/// The value left after `k` steps of the unit cascade: each step divides by
/// 1024 when the running value still exceeds 1024.
pub open spec fn size_after(s: nat, k: nat) -> nat
    decreases k,
{
    if k == 0 {
        s
    } else if size_after(s, (k - 1) as nat) > 1024 {
        size_after(s, (k - 1) as nat) / 1024
    } else {
        size_after(s, (k - 1) as nat)
    }
}

/// How many of the first `k` cascade steps divided.
pub open spec fn size_divs(s: nat, k: nat) -> nat
    decreases k,
{
    if k == 0 {
        0
    } else if size_after(s, (k - 1) as nat) > 1024 {
        size_divs(s, (k - 1) as nat) + 1
    } else {
        size_divs(s, (k - 1) as nat)
    }
}

/// The unit name after `d` divisions by 1024.
pub open spec fn size_unit(d: nat) -> Seq<char> {
    if d == 0 {
        seq!['B']
    } else if d == 1 {
        seq!['K', 'B']
    } else if d == 2 {
        seq!['M', 'B']
    } else if d == 3 {
        seq!['G', 'B']
    } else if d == 4 {
        seq!['T', 'B']
    } else if d == 5 {
        seq!['P', 'B']
    } else if d == 6 {
        seq!['E', 'B']
    } else if d == 7 {
        seq!['Z', 'B']
    } else {
        seq!['Y', 'B']
    }
}

/// The text `human_readable_size` produces for `size`: the cascaded value in
/// decimal, a space, and the unit the cascade reached.
pub open spec fn spec_human_readable_size(size: nat) -> Seq<char> {
    dec_digits(size_after(size, 8)) + seq![' '] + size_unit(size_divs(size, 8))
}

/// Appends the unit name for `d` divisions.
fn push_size_unit(s: &mut String, d: usize)
    requires
        d <= 8,
    ensures
        final(s)@ == old(s)@ + size_unit(d as nat),
{
    if d == 0 {
        proof {
            reveal_strlit("B");
        }
        s.append("B");
    } else if d == 1 {
        proof {
            reveal_strlit("KB");
        }
        s.append("KB");
    } else if d == 2 {
        proof {
            reveal_strlit("MB");
        }
        s.append("MB");
    } else if d == 3 {
        proof {
            reveal_strlit("GB");
        }
        s.append("GB");
    } else if d == 4 {
        proof {
            reveal_strlit("TB");
        }
        s.append("TB");
    } else if d == 5 {
        proof {
            reveal_strlit("PB");
        }
        s.append("PB");
    } else if d == 6 {
        proof {
            reveal_strlit("EB");
        }
        s.append("EB");
    } else if d == 7 {
        proof {
            reveal_strlit("ZB");
        }
        s.append("ZB");
    } else {
        proof {
            reveal_strlit("YB");
        }
        s.append("YB");
    }
    assert(final(s)@ =~= old(s)@ + size_unit(d as nat));
}

/// Formats `size` in bytes with a binary unit: the value is divided by 1024
/// while it exceeds 1024, through B, KB, MB, GB, TB, PB, EB, ZB and YB.
pub fn human_readable_size(size: usize) -> (s: String)
    ensures
        s@ == spec_human_readable_size(size as nat),
{
    proof {
        reveal_with_fuel(size_after, 10);
        reveal_with_fuel(size_divs, 10);
    }
    let mut value: usize = size;
    let mut divs: usize = 0;
    if value > 1024 {
        value = value / 1024;
        divs = divs + 1;
    }
    assert(value == size_after(size as nat, 1) && divs == size_divs(size as nat, 1));
    if value > 1024 {
        value = value / 1024;
        divs = divs + 1;
    }
    assert(value == size_after(size as nat, 2) && divs == size_divs(size as nat, 2));
    if value > 1024 {
        value = value / 1024;
        divs = divs + 1;
    }
    assert(value == size_after(size as nat, 3) && divs == size_divs(size as nat, 3));
    if value > 1024 {
        value = value / 1024;
        divs = divs + 1;
    }
    assert(value == size_after(size as nat, 4) && divs == size_divs(size as nat, 4));
    if value > 1024 {
        value = value / 1024;
        divs = divs + 1;
    }
    assert(value == size_after(size as nat, 5) && divs == size_divs(size as nat, 5));
    if value > 1024 {
        value = value / 1024;
        divs = divs + 1;
    }
    assert(value == size_after(size as nat, 6) && divs == size_divs(size as nat, 6));
    if value > 1024 {
        value = value / 1024;
        divs = divs + 1;
    }
    assert(value == size_after(size as nat, 7) && divs == size_divs(size as nat, 7));
    if value > 1024 {
        value = value / 1024;
        divs = divs + 1;
    }
    assert(value == size_after(size as nat, 8) && divs == size_divs(size as nat, 8));
    let mut s = String::new();
    push_dec_digits(&mut s, value);
    proof {
        reveal_strlit(" ");
    }
    s.append(" ");
    push_size_unit(&mut s, divs);
    proof {
        assert(s@ =~= spec_human_readable_size(size as nat));
    }
    s
}

/// The number of binary digits of `n`: zero for zero, one more than its
/// half otherwise.
pub open spec fn spec_ffs(n: nat) -> nat
    decreases n,
{
    if n == 0 {
        0
    } else {
        spec_ffs(n / 2) + 1
    }
}

/// The number of binary digits of `number`: the smallest `r` with
/// `number < pow2(r)`.
pub fn ffs(number: u32) -> (r: u8)
    ensures
        r as nat == spec_ffs(number as nat),
        r <= 32,
        (number as nat) < pow2(r as nat),
        r > 0 ==> pow2((r - 1) as nat) <= number as nat,
{
    let mut m: u32 = number;
    let mut i: u8 = 0;
    proof {
        lemma2_to64();
        assert(pow2(0) == 1);
    }
    while m != 0
        invariant
            i <= 32,
            m as nat == number as nat / pow2(i as nat),
            i > 0 ==> pow2((i - 1) as nat) <= number as nat,
            spec_ffs(number as nat) == i as nat + spec_ffs(m as nat),
        decreases m,
    {
        proof {
            vstd::arithmetic::power2::lemma_pow2_pos(i as nat);
            lemma_pow2_unfold((i + 1) as nat);
            lemma_div_denominator(number as int, pow2(i as nat) as int, 2);
            assert(pow2(i as nat) as int * 2 == 2 * pow2(i as nat) as int) by (nonlinear_arith);
            lemma_fundamental_div_mod(number as int, pow2(i as nat) as int);
            lemma_mod_bound(number as int, pow2(i as nat) as int);
            // m >= 1 means number >= pow2(i), so i cannot reach 32
            assert(pow2(i as nat) <= number as nat) by (nonlinear_arith)
                requires
                    1 <= number as int / (pow2(i as nat) as int),
                    number as int == pow2(i as nat) as int * (number as int / (
                    pow2(i as nat) as int)) + number as int % (pow2(i as nat) as int),
                    0 <= number as int % (pow2(i as nat) as int),
                    pow2(i as nat) as int > 0,
            ;
            lemma2_to64();
            assert(i < 32) by {
                if i == 32 {
                    assert(pow2(32) == 0x1_0000_0000);
                }
            }
        }
        m = m / 2;
        i = i + 1;
    }
    proof {
        vstd::arithmetic::power2::lemma_pow2_pos(i as nat);
        lemma_fundamental_div_mod(number as int, pow2(i as nat) as int);
        lemma_mod_bound(number as int, pow2(i as nat) as int);
        assert((number as nat) < pow2(i as nat)) by (nonlinear_arith)
            requires
                number as int == pow2(i as nat) as int * (number as int / (
                pow2(i as nat) as int)) + number as int % (pow2(i as nat) as int),
                number as int / (pow2(i as nat) as int) == 0,
                number as int % (pow2(i as nat) as int) < pow2(i as nat) as int,
        ;
    }
    i
}

/// `arr` extended with zero bytes to length `n`.
pub fn pad_zeroes(arr: &Vec<u8>, n: usize) -> (r: Vec<u8>)
    requires
        arr.len() <= n,
    ensures
        r@ == arr@ + Seq::new((n - arr.len()) as nat, |i: int| 0u8),
{
    let mut r = read_range(arr, 0, arr.len());
    assert(r@ =~= arr@);
    let mut i: usize = arr.len();
    while i < n
        invariant
            arr.len() <= i <= n,
            r@ == arr@ + Seq::new((i - arr.len()) as nat, |j: int| 0u8),
        decreases n - i,
    {
        r.push(0);
        i = i + 1;
        assert(r@ =~= arr@ + Seq::new((i - arr.len()) as nat, |j: int| 0u8));
    }
    r
}

/// Relies on rand's `thread_rng().fill_bytes`: fills the identifier with
/// random bytes.  The result depends on the generator's state, so nothing is
/// promised about its value.
#[verifier::external_body]
pub fn uuid() -> (r: [u8; 16]) {
    let mut rng = rand::thread_rng();
    let mut buf = [0u8; 16];
    rand::RngCore::fill_bytes(&mut rng, &mut buf);
    buf
}

} // verus!
