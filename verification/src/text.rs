//! Numbers and columns in text.

use vstd::prelude::*;
use vstd::string::*;

verus! {

/// The character of a decimal digit.
pub open spec fn digit_char(d: int) -> char {
    if d == 0 {
        '0'
    } else if d == 1 {
        '1'
    } else if d == 2 {
        '2'
    } else if d == 3 {
        '3'
    } else if d == 4 {
        '4'
    } else if d == 5 {
        '5'
    } else if d == 6 {
        '6'
    } else if d == 7 {
        '7'
    } else if d == 8 {
        '8'
    } else {
        '9'
    }
}

/// A number in decimal.
pub open spec fn decimal(n: int) -> Seq<char>
    decreases n,
{
    if n < 10 {
        seq![digit_char(n)]
    } else {
        decimal(n / 10).push(digit_char(n % 10))
    }
}

/// So many spaces.
pub open spec fn spaces(n: int) -> Seq<char> {
    Seq::new(
        if n > 0 {
            n as nat
        } else {
            0
        },
        |i: int| ' ',
    )
}

/// Text followed by spaces up to a width.
pub open spec fn pad_right(t: Seq<char>, width: int) -> Seq<char> {
    t + spaces(width - t.len())
}

/// Text after spaces up to a width.
pub open spec fn pad_left(t: Seq<char>, width: int) -> Seq<char> {
    spaces(width - t.len()) + t
}

fn digit(d: u64) -> (r: &'static str)
    requires
        d < 10,
    ensures
        r@ == seq![digit_char(d as int)],
{
    proof {
        reveal_strlit("0");
        reveal_strlit("1");
        reveal_strlit("2");
        reveal_strlit("3");
        reveal_strlit("4");
        reveal_strlit("5");
        reveal_strlit("6");
        reveal_strlit("7");
        reveal_strlit("8");
        reveal_strlit("9");
    }
    let r: &'static str = if d == 0 {
        "0"
    } else if d == 1 {
        "1"
    } else if d == 2 {
        "2"
    } else if d == 3 {
        "3"
    } else if d == 4 {
        "4"
    } else if d == 5 {
        "5"
    } else if d == 6 {
        "6"
    } else if d == 7 {
        "7"
    } else if d == 8 {
        "8"
    } else {
        "9"
    };
    assert(r@ =~= seq![digit_char(d as int)]);
    r
}

/// Appends a number in decimal.
pub fn append_decimal(t: &mut String, n: u64)
    ensures
        final(t)@ == old(t)@ + decimal(n as int),
    decreases n,
{
    let ghost before = t@;
    if n >= 10 {
        append_decimal(t, n / 10);
    }
    t.append(digit(n % 10));
    assert(t@ =~= before + decimal(n as int));
}

/// A number in decimal.
pub fn number(n: u64) -> (r: String)
    ensures
        r@ == decimal(n as int),
{
    let mut r = String::new();
    append_decimal(&mut r, n);
    assert(r@ =~= decimal(n as int));
    r
}

/// A number that may be negative in decimal.
pub open spec fn signed(n: int) -> Seq<char> {
    if n < 0 {
        "-"@ + decimal(-n)
    } else {
        decimal(n)
    }
}

/// Appends a number that may be negative in decimal.
pub fn append_signed(t: &mut String, n: i32)
    ensures
        final(t)@ == old(t)@ + signed(n as int),
{
    let ghost before = t@;
    if n < 0 {
        t.append("-");
        append_decimal(t, (-(n as i64)) as u64);
    } else {
        append_decimal(t, n as u64);
    }
    assert(t@ =~= before + signed(n as int));
}

/// A truth value as text.
pub open spec fn truth_text(b: bool) -> Seq<char> {
    if b {
        "true"@
    } else {
        "false"@
    }
}

/// A truth value as text.
pub fn truth(b: bool) -> (r: String)
    ensures
        r@ == truth_text(b),
{
    let mut r = String::new();
    if b {
        r.append("true");
    } else {
        r.append("false");
    }
    assert(r@ =~= truth_text(b));
    r
}

/// Appends so many spaces.
pub fn append_spaces(t: &mut String, n: usize)
    ensures
        final(t)@ == old(t)@ + spaces(n as int),
{
    let ghost before = t@;
    let mut i: usize = 0;
    assert(t@ =~= before + spaces(0));
    while i < n
        invariant
            i <= n,
            t@ == before + spaces(i as int),
        decreases n - i,
    {
        proof {
            reveal_strlit(" ");
        }
        t.append(" ");
        assert(t@ =~= before + spaces(i + 1));
        i = i + 1;
    }
}

fn gap(len: usize, width: usize) -> (r: usize)
    ensures
        r == (if width >= len {
            width - len
        } else {
            0
        }),
{
    if width >= len {
        width - len
    } else {
        0
    }
}

/// Appends text followed by spaces up to a width.
pub fn append_left(t: &mut String, text: &str, width: usize)
    ensures
        final(t)@ == old(t)@ + pad_right(text@, width as int),
{
    let ghost before = t@;
    let n: usize = gap(text.unicode_len(), width);
    t.append(text);
    append_spaces(t, n);
    assert(spaces(n as int) =~= spaces(width - text@.len()));
    assert(t@ =~= before + pad_right(text@, width as int));
}

/// Appends text after spaces up to a width.
pub fn append_right(t: &mut String, text: &str, width: usize)
    ensures
        final(t)@ == old(t)@ + pad_left(text@, width as int),
{
    let ghost before = t@;
    let n: usize = gap(text.unicode_len(), width);
    append_spaces(t, n);
    t.append(text);
    assert(spaces(n as int) =~= spaces(width - text@.len()));
    assert(t@ =~= before + pad_left(text@, width as int));
}

/// Text behind other text.
pub fn joined(a: &str, b: &str) -> (r: String)
    ensures
        r@ == a@ + b@,
{
    let mut r = String::new();
    r.append(a);
    r.append(b);
    assert(r@ =~= a@ + b@);
    r
}

/// The quotient rounded to the nearest number, and to the even one of two that are as near.
pub open spec fn rounded(n: int, by: int) -> int {
    let q = n / by;
    let rest = n % by;
    if 2 * rest > by || (2 * rest == by && q % 2 == 1) {
        q + 1
    } else {
        q
    }
}

fn round(n: u128, by: u128) -> (r: u128)
    requires
        0 < by <= 0x1_0000_0000_0000_0000,
        n <= 0x1_0000_0000_0000_0000_0000,
    ensures
        r == rounded(n as int, by as int),
{
    let q: u128 = n / by;
    let rest: u128 = n % by;
    proof {
        assert(q <= n) by (nonlinear_arith)
            requires
                q == n / by,
                by >= 1,
                n >= 0,
        ;
    }
    assert(rest < by);
    if 2 * rest > by || (2 * rest == by && q % 2 == 1) {
        q + 1
    } else {
        q
    }
}

/// The distance of the numbers with 53 binary digits around `n`.
pub open spec fn granule(n: int) -> int
    decreases n,
{
    if n < 0x20_0000_0000_0000 {
        1
    } else {
        2 * granule(n / 2)
    }
}

/// The number with at most 53 significant binary digits that is nearest to `n`.
pub open spec fn nearest(n: int) -> int {
    rounded(n, granule(n)) * granule(n)
}

fn nearest_53(n: u64) -> (r: u128)
    ensures
        r == nearest(n as int),
        r <= 0x2_0000_0000_0000_0000,
{
    let mut m: u64 = n;
    let mut g: u64 = 1;
    while m >= 0x20_0000_0000_0000
        invariant
            granule(n as int) == g * granule(m as int),
            1 <= g <= 0x1000,
            g * m <= n,
            n - g * m < g,
        decreases m,
    {
        let ghost before = g as int;
        let ghost top = m as int;
        proof {
            let h = top / 2;
            assert(before * (2 * granule(h)) == (2 * before) * granule(h)) by (nonlinear_arith);
            assert((2 * before) * h <= before * top) by (nonlinear_arith)
                requires
                    2 * h <= top,
                    before >= 0,
            ;
            assert(before * top - (2 * before) * h <= before) by (nonlinear_arith)
                requires
                    top <= 2 * h + 1,
                    before >= 0,
            ;
            assert(before * 0x20_0000_0000_0000 <= before * top) by (nonlinear_arith)
                requires
                    top >= 0x20_0000_0000_0000,
                    before >= 0,
            ;
        }
        m = m / 2;
        g = g * 2;
    }
    assert(granule(m as int) == 1);
    assert(g as int * 1 == g as int);
    let q: u128 = round(n as u128, g as u128);
    proof {
        let gi = g as int;
        let mi = m as int;
        let ni = n as int;
        vstd::arithmetic::mul::lemma_mul_is_commutative(gi, mi);
        vstd::arithmetic::div_mod::lemma_fundamental_div_mod_converse(ni, gi, mi, ni - gi * mi);
        assert(q <= mi + 1);
        assert(q * gi <= gi * mi + gi) by (nonlinear_arith)
            requires
                q <= mi + 1,
                gi > 0,
        ;
    }
    q * (g as u128)
}

/// A value in units, rounded to tenths or to hundredths, whichever `parts` counts.
pub open spec fn scaled(value: int, unit: int, parts: int) -> Seq<char> {
    let n = rounded(value * parts, unit);
    let tail = if parts == 100 {
        seq![digit_char((n % 100) / 10), digit_char(n % 10)]
    } else {
        seq![digit_char(n % 10)]
    };
    decimal(n / parts) + "."@ + tail
}

fn append_scaled(t: &mut String, value: u128, unit: u128, parts: u128)
    requires
        value <= 0x2_0000_0000_0000_0000,
        0x400 <= unit <= 0x1_0000_0000_0000,
        parts == 10 || parts == 100,
    ensures
        final(t)@ == old(t)@ + scaled(value as int, unit as int, parts as int),
{
    let ghost before = t@;
    assert(value * parts <= 0x2_0000_0000_0000_0000 * 100) by (nonlinear_arith)
        requires
            0 <= value <= 0x2_0000_0000_0000_0000,
            0 <= parts <= 100,
    ;
    let n: u128 = round(value * parts, unit);
    proof {
        let product = value * parts;
        assert(product / unit as int <= 0x2_0000_0000_0000_0000 * 100 / 0x400) by (nonlinear_arith)
            requires
                0 <= product <= 0x2_0000_0000_0000_0000 * 100,
                unit >= 0x400,
        ;
    }
    let m: u64 = n as u64;
    append_decimal(t, m / parts as u64);
    t.append(".");
    if parts == 100 {
        t.append(digit((m % 100) / 10));
        t.append(digit(m % 10));
    } else {
        t.append(digit(m % 10));
    }
    assert(t@ =~= before + scaled(value as int, unit as int, parts as int));
}

pub const KIB: u64 = 0x400;

pub const MIB: u64 = 0x10_0000;

pub const GIB: u64 = 0x4000_0000;

pub const TIB: u64 = 0x100_0000_0000;

/// Bytes in the largest unit that they reach, with two decimal places, and in full.
pub open spec fn bytes_text(bytes: int) -> Seq<char> {
    let value = nearest(bytes);
    let full = " ("@ + decimal(bytes) + " bytes)"@;
    if value >= TIB {
        scaled(value, TIB as int, 100) + " TiB"@ + full
    } else if value >= GIB {
        scaled(value, GIB as int, 100) + " GiB"@ + full
    } else if value >= MIB {
        scaled(value, MIB as int, 100) + " MiB"@ + full
    } else if value >= KIB {
        scaled(value, KIB as int, 100) + " KiB"@ + full
    } else {
        decimal(bytes) + " B"@ + full
    }
}

/// Bytes in the largest unit that they reach, with two decimal places, and in full.
pub fn fmt_bytes(bytes: usize) -> (r: String)
    ensures
        r@ == bytes_text(bytes as int),
{
    let value: u128 = nearest_53(bytes as u64);
    let mut r = String::new();
    if value >= TIB as u128 {
        append_scaled(&mut r, value, TIB as u128, 100);
        r.append(" TiB");
    } else if value >= GIB as u128 {
        append_scaled(&mut r, value, GIB as u128, 100);
        r.append(" GiB");
    } else if value >= MIB as u128 {
        append_scaled(&mut r, value, MIB as u128, 100);
        r.append(" MiB");
    } else if value >= KIB as u128 {
        append_scaled(&mut r, value, KIB as u128, 100);
        r.append(" KiB");
    } else {
        append_decimal(&mut r, bytes as u64);
        r.append(" B");
    }
    r.append(" (");
    append_decimal(&mut r, bytes as u64);
    r.append(" bytes)");
    assert(r@ =~= bytes_text(bytes as int));
    r
}

/// Bytes in the largest unit that they reach, with one decimal place.
pub open spec fn short_bytes_text(bytes: int) -> Seq<char> {
    let value = nearest(bytes);
    if value >= GIB {
        scaled(value, GIB as int, 10) + " GiB"@
    } else if value >= MIB {
        scaled(value, MIB as int, 10) + " MiB"@
    } else if value >= KIB {
        scaled(value, KIB as int, 10) + " KiB"@
    } else {
        decimal(bytes) + " B"@
    }
}

/// Bytes in the largest unit that they reach, with one decimal place.
pub fn fmt_bytes_short(bytes: usize) -> (r: String)
    ensures
        r@ == short_bytes_text(bytes as int),
{
    let value: u128 = nearest_53(bytes as u64);
    let mut r = String::new();
    if value >= GIB as u128 {
        append_scaled(&mut r, value, GIB as u128, 10);
        r.append(" GiB");
    } else if value >= MIB as u128 {
        append_scaled(&mut r, value, MIB as u128, 10);
        r.append(" MiB");
    } else if value >= KIB as u128 {
        append_scaled(&mut r, value, KIB as u128, 10);
        r.append(" KiB");
    } else {
        append_decimal(&mut r, bytes as u64);
        r.append(" B");
    }
    assert(r@ =~= short_bytes_text(bytes as int));
    r
}

/// The number that decimal digits spell.
pub open spec fn spelled(t: Seq<char>) -> int
    decreases t.len(),
{
    if t.len() == 0 {
        0
    } else {
        10 * spelled(t.drop_last()) + (t.last() as int - '0' as int)
    }
}

/// The text of a number is made of digits, spells the number and starts with a zero for zero only.
pub proof fn law_decimal(n: int)
    requires
        0 <= n,
    ensures
        decimal(n).len() > 0,
        spelled(decimal(n)) == n,
        forall|i: int| 0 <= i < decimal(n).len() ==> '0' <= #[trigger] decimal(n)[i] <= '9',
        n > 0 ==> decimal(n)[0] != '0',
        n == 0 ==> decimal(n) == seq!['0'],
    decreases n,
{
    if n >= 10 {
        law_decimal(n / 10);
        assert(decimal(n).drop_last() =~= decimal(n / 10));
        assert(decimal(n)[0] == decimal(n / 10)[0]);
    } else {
        assert(decimal(n).drop_last() =~= Seq::<char>::empty());
        assert(spelled(Seq::<char>::empty()) == 0);
    }
}

/// Different numbers have different texts.
pub proof fn law_texts_tell_numbers_apart(a: int, b: int)
    requires
        0 <= a,
        0 <= b,
        decimal(a) == decimal(b),
    ensures
        a == b,
{
    law_decimal(a);
    law_decimal(b);
}

/// A negative number is a minus sign and what it is short of zero.
pub proof fn law_signed(n: int)
    ensures
        n >= 0 ==> spelled(signed(n)) == n && signed(n)[0] != '-',
        n < 0 ==> signed(n)[0] == '-' && spelled(signed(n).skip(1)) == -n,
{
    reveal_strlit("-");
    if n < 0 {
        law_decimal(-n);
        assert(signed(n).skip(1) =~= decimal(-n));
    } else {
        law_decimal(n);
        assert('0' <= decimal(n)[0]);
    }
}

/// Padded text is as long as the width, or as the text where that is longer; the text stands at the
/// one end, and spaces at the other.
pub proof fn law_padding(t: Seq<char>, width: int)
    ensures
        pad_left(t, width).len() == (if width > t.len() {
            width
        } else {
            t.len() as int
        }),
        pad_right(t, width).len() == pad_left(t, width).len(),
        pad_right(t, width).take(t.len() as int) == t,
        pad_left(t, width).skip(pad_left(t, width).len() - t.len()) == t,
        forall|i: int|
            t.len() <= i < pad_right(t, width).len() ==> #[trigger] pad_right(t, width)[i] == ' ',
        forall|i: int|
            0 <= i < pad_left(t, width).len() - t.len() ==> #[trigger] pad_left(t, width)[i] == ' ',
{
    assert(pad_right(t, width).take(t.len() as int) =~= t);
    assert(pad_left(t, width).skip(pad_left(t, width).len() - t.len()) =~= t);
}

/// No multiple is nearer than the rounded one; of two that are as near, the even one is taken.
pub proof fn law_rounded_is_nearest(n: int, by: int)
    requires
        0 <= n,
        0 < by,
    ensures
        -by <= 2 * (rounded(n, by) * by - n) <= by,
        2 * (rounded(n, by) * by - n) == by || 2 * (n - rounded(n, by) * by) == by ==> rounded(n, by)
            % 2 == 0,
        n % by == 0 ==> rounded(n, by) * by == n,
        rounded(n, by) >= 0,
{
    let q = n / by;
    vstd::arithmetic::div_mod::lemma_fundamental_div_mod(n, by);
    vstd::arithmetic::div_mod::lemma_div_pos_is_pos(n, by);
    assert(q * by + n % by == n) by (nonlinear_arith)
        requires
            n == by * q + n % by,
    ;
    assert((q + 1) * by == q * by + by) by (nonlinear_arith);
    assert(0 <= n % by < by);
}

/// Numbers below the fifty-third power of two have a distance of one, and a distance is such that
/// the number takes fifty-three binary digits in it.
pub proof fn law_granule(n: int)
    requires
        0 <= n,
    ensures
        granule(n) >= 1,
        n < 0x20_0000_0000_0000 ==> granule(n) == 1,
        n < granule(n) * 0x20_0000_0000_0000,
        n >= 0x20_0000_0000_0000 ==> granule(n) * 0x10_0000_0000_0000 <= n && granule(n) % 2 == 0,
    decreases n,
{
    if n >= 0x20_0000_0000_0000 {
        law_granule(n / 2);
    }
}

/// A number that fits in fifty-three binary digits is kept; another moves by at most half of the
/// distance of those that fit, to one that does.
pub proof fn law_nearest(n: int)
    requires
        0 <= n,
    ensures
        n < 0x20_0000_0000_0000 ==> nearest(n) == n,
        -granule(n) <= 2 * (nearest(n) - n) <= granule(n),
        nearest(n) % granule(n) == 0,
{
    law_granule(n);
    law_rounded_is_nearest(n, granule(n));
    vstd::arithmetic::div_mod::lemma_mod_multiples_basic(rounded(n, granule(n)), granule(n));
    if n < 0x20_0000_0000_0000 {
        assert(n % 1 == 0);
    }
}

/// A value in units has its decimal places behind the point, and no number with as many places is
/// nearer to it.
pub proof fn law_scaled(value: int, unit: int, places: int)
    requires
        0 <= value,
        0 < unit,
        places == 1 || places == 2,
    ensures
        ({
            let parts: int = if places == 1 {
                10
            } else {
                100
            };
            let t = scaled(value, unit, parts);
            let whole = t.take(t.len() - places - 1);
            let read = spelled(whole + t.skip(t.len() - places));
            &&& t.len() > places + 1
            &&& t[t.len() - places - 1] == '.'
            &&& -unit <= 2 * (read * unit - value * parts) <= unit
            &&& forall|i: int|
                0 <= i < t.len() && i != t.len() - places - 1 ==> '0' <= #[trigger] t[i] <= '9'
        }),
{
    let parts: int = if places == 1 {
        10
    } else {
        100
    };
    reveal_strlit(".");
    assert(value * parts >= 0) by (nonlinear_arith)
        requires
            value >= 0,
            parts >= 0,
    ;
    law_rounded_is_nearest(value * parts, unit);
    let n = rounded(value * parts, unit);
    let t = scaled(value, unit, parts);
    let whole = t.take(t.len() - places - 1);
    law_decimal(n / parts);
    assert(whole =~= decimal(n / parts));
    let all = whole + t.skip(t.len() - places);
    if places == 1 {
        assert(all.drop_last() =~= whole);
        assert(all.last() == digit_char(n % 10));
    } else {
        let one = all.drop_last();
        assert(one.drop_last() =~= whole);
        assert(one.last() == digit_char((n % 100) / 10));
        assert(all.last() == digit_char(n % 10));
        assert(spelled(one) == 10 * spelled(whole) + (n % 100) / 10);
    }
    assert(spelled(all) == n);
    assert forall|i: int| 0 <= i < t.len() && i != t.len() - places - 1 implies '0'
        <= #[trigger] t[i] <= '9' by {
        if i < t.len() - places - 1 {
            assert(t[i] == decimal(n / parts)[i]);
        }
    }
}

/// Sizes are told in the largest unit that they reach, and in full.
pub proof fn law_size_texts(bytes: int)
    requires
        0 <= bytes,
    ensures
        bytes < 0x400 ==> bytes_text(bytes) == decimal(bytes) + " B"@ + (" ("@ + decimal(bytes)
            + " bytes)"@),
        0x400 <= bytes < 0x10_0000 ==> bytes_text(bytes) == scaled(bytes, 0x400, 100) + " KiB"@ + (
        " ("@ + decimal(bytes) + " bytes)"@),
        0x10_0000 <= bytes < 0x4000_0000 ==> bytes_text(bytes) == scaled(bytes, 0x10_0000, 100)
            + " MiB"@ + (" ("@ + decimal(bytes) + " bytes)"@),
        0x4000_0000 <= bytes < 0x100_0000_0000 ==> bytes_text(bytes) == scaled(
            bytes,
            0x4000_0000,
            100,
        ) + " GiB"@ + (" ("@ + decimal(bytes) + " bytes)"@),
        0x100_0000_0000 <= bytes ==> bytes_text(bytes) == scaled(
            nearest(bytes),
            0x100_0000_0000,
            100,
        ) + " TiB"@ + (" ("@ + decimal(bytes) + " bytes)"@),
        bytes < 0x400 ==> short_bytes_text(bytes) == decimal(bytes) + " B"@,
        0x400 <= bytes < 0x10_0000 ==> short_bytes_text(bytes) == scaled(bytes, 0x400, 10)
            + " KiB"@,
        0x10_0000 <= bytes < 0x4000_0000 ==> short_bytes_text(bytes) == scaled(bytes, 0x10_0000, 10)
            + " MiB"@,
        0x4000_0000 <= bytes ==> short_bytes_text(bytes) == scaled(nearest(bytes), 0x4000_0000, 10)
            + " GiB"@,
{
    law_nearest(bytes);
    law_granule(bytes);
}

/// The two truth values are told by their names.
pub proof fn law_truth_texts(b: bool)
    ensures
        truth_text(b) == (if b {
            seq!['t', 'r', 'u', 'e']
        } else {
            seq!['f', 'a', 'l', 's', 'e']
        }),
{
    reveal_strlit("true");
    reveal_strlit("false");
}

} // verus!
