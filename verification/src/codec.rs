//! The textual map format: a block of comment and directive lines, one
//! line per cell with the cell center and its thickness, and a trailing
//! comment with the average thickness.
//!
//! Numbers stand in fixed-width fields of twelve characters, right
//! aligned and space padded, one space between fields: centers with six
//! fraction digits (one per micro-unit, so exact), thickness with four
//! fraction digits (the value rounded to the nearest 1e-4, half away
//! from zero, computed exactly in fixed point). An undefined thickness
//! is the token `NaN`. Lines starting with `#`, `@` or `$` are comments
//! and are skipped by the parser, so parsing a rendered map returns
//! exactly the rendered triples, thickness at the declared precision.

use vstd::prelude::*;

use crate::finalize::CellValue;
use crate::finalize::FinalCell;

verus! {

/// Smallest magnitude the renderer refuses for a center coordinate:
/// every rendered value must be strictly below it, so the integer part
/// has at most 24 digits.
pub const VALUE_BOUND: i128 = 1_000_000_000_000_000_000_000_000_000_000;

/// Largest magnitude the renderer accepts for a thickness value.
pub const THICK_BOUND: i128 = 0x1_0000_0000_0000_0000;

/// The decimal digits of `n`, most significant first.
pub open spec fn spec_digits(n: nat) -> Seq<u8>
    decreases n,
{
    if n < 10 {
        seq![(48 + n) as u8]
    } else {
        spec_digits(n / 10) + seq![(48 + n % 10) as u8]
    }
}

/// The decimal digits of `n` zero-padded on the left to width `k`.
pub open spec fn spec_digits_padded(n: nat, k: nat) -> Seq<u8>
    decreases k,
{
    if k == 0 {
        Seq::empty()
    } else {
        spec_digits_padded(n / 10, (k - 1) as nat) + seq![(48 + n % 10) as u8]
    }
}

/// The value of a digit string, most significant first.
pub open spec fn spec_digits_value(s: Seq<u8>) -> nat
    decreases s.len(),
{
    if s.len() == 0 {
        0
    } else {
        spec_digits_value(s.drop_last()) * 10 + (if s.last() >= 48 {
            (s.last() - 48) as nat
        } else {
            0
        })
    }
}

/// Whether every byte of `s` is a decimal digit.
pub open spec fn all_digits(s: Seq<u8>) -> bool {
    forall|i: int| 0 <= i < s.len() ==> 48 <= #[trigger] s[i] <= 57
}

/// The magnitude `m` (micro-units) as `<integer part>.<6 digits>`.
pub open spec fn spec_render_mag(m: nat) -> Seq<u8> {
    spec_digits(m / 1000000) + seq![46u8] + spec_digits_padded(m % 1000000, 6)
}

/// A signed fixed-point coordinate in micro-units as decimal text.
pub open spec fn spec_render_fixed(v: int) -> Seq<u8> {
    if v < 0 {
        seq![45u8] + spec_render_mag((-v) as nat)
    } else {
        spec_render_mag(v as nat)
    }
}

/// The magnitude `q` (hundreds of micro-units, 1e-4) as
/// `<integer part>.<4 digits>`.
pub open spec fn spec_render_mag4(q: nat) -> Seq<u8> {
    spec_digits(q / 10000) + seq![46u8] + spec_digits_padded(q % 10000, 4)
}

/// `v` (micro-units) rounded to the nearest hundred micro-units, halves
/// away from zero: the value a four-fraction-digit rendering shows.
pub open spec fn spec_round100(v: int) -> int {
    let a = if v >= 0 {
        v
    } else {
        -v
    };
    let q = (a + 50) / 100;
    if v >= 0 {
        q * 100
    } else {
        -(q * 100)
    }
}

/// A thickness value as decimal text with four fraction digits.
pub open spec fn spec_render_thick_value(v: int) -> Seq<u8> {
    let a = if v >= 0 {
        v
    } else {
        -v
    };
    let q = (a + 50) / 100;
    if v < 0 && q > 0 {
        seq![45u8] + spec_render_mag4(q as nat)
    } else {
        spec_render_mag4(q as nat)
    }
}

/// The token for an undefined thickness.
pub open spec fn nan_token() -> Seq<u8> {
    seq![78u8, 97u8, 78u8]
}

/// A thickness: a four-fraction-digit decimal, or the undefined token.
pub open spec fn spec_render_thick(t: Option<int>) -> Seq<u8> {
    match t {
        Some(v) => spec_render_thick_value(v),
        None => nan_token(),
    }
}

/// The rounding a rendered thickness undergoes.
pub open spec fn spec_round_thick(t: Option<int>) -> Option<int> {
    match t {
        Some(v) => Some(spec_round100(v)),
        None => None,
    }
}

/// A cell as its rendering shows it: the thickness at the declared
/// four-digit precision, everything else exact.
pub open spec fn spec_round_cell(c: FinalCell) -> FinalCell {
    FinalCell { thickness: spec_round_thick(c.thickness), ..c }
}

/// Whether a magnitude token is well-formed: one to 24 digits, a decimal
/// point, then one to six fraction digits.
pub open spec fn valid_mag(mag: Seq<u8>) -> bool {
    let d = find_byte(mag, 46u8);
    &&& 1 <= d <= 24
    &&& d < mag.len()
    &&& 1 <= mag.len() - d - 1 <= 6
    &&& all_digits(mag.subrange(0, d))
    &&& all_digits(mag.subrange(d + 1, mag.len() as int))
}

/// The value of a well-formed magnitude token, in micro-units.
pub open spec fn mag_value(mag: Seq<u8>) -> nat {
    let d = find_byte(mag, 46u8);
    let f = (mag.len() - d - 1) as nat;
    spec_digits_value(mag.subrange(0, d)) * 1000000 + spec_digits_value(
        mag.subrange(d + 1, mag.len() as int),
    ) * pow10((6 - f) as nat)
}

/// Parse a fixed-point token: an optional leading minus, then a
/// well-formed magnitude.
pub open spec fn spec_parse_fixed(tok: Seq<u8>) -> Option<int> {
    if tok.len() > 0 && tok[0] == 45u8 {
        let mag = tok.drop_first();
        if valid_mag(mag) {
            Some(-(mag_value(mag) as int))
        } else {
            None
        }
    } else {
        if valid_mag(tok) {
            Some(mag_value(tok) as int)
        } else {
            None
        }
    }
}

/// Parse a thickness token: `NaN`, or a fixed-point value.
pub open spec fn spec_parse_thick(tok: Seq<u8>) -> Option<Option<int>> {
    if tok == nan_token() {
        Some(None)
    } else {
        match spec_parse_fixed(tok) {
            Some(v) => Some(Some(v)),
            None => None,
        }
    }
}

/// Powers of ten.
pub open spec fn pow10(k: nat) -> nat
    decreases k,
{
    if k == 0 {
        1
    } else {
        10 * pow10((k - 1) as nat)
    }
}

/// Every power of ten is positive.
proof fn lemma_pow10_pos(k: nat)
    ensures
        pow10(k) >= 1,
    decreases k,
{
    if k > 0 {
        lemma_pow10_pos((k - 1) as nat);
    }
}

/// Powers of ten grow with the exponent.
proof fn lemma_pow10_mono(i: nat, j: nat)
    requires
        i <= j,
    ensures
        pow10(i) <= pow10(j),
    decreases j,
{
    if i < j {
        lemma_pow10_mono(i, (j - 1) as nat);
        lemma_pow10_pos((j - 1) as nat);
    }
}

/// Powers of ten multiply by adding exponents.
proof fn lemma_pow10_adds(a: nat, b: nat)
    ensures
        pow10((a + b) as nat) == pow10(a) * pow10(b),
    decreases a,
{
    if a == 0 {
        vstd::arithmetic::mul::lemma_mul_basics(pow10(b) as int);
    } else {
        lemma_pow10_adds((a - 1) as nat, b);
        assert(10 * (pow10((a - 1) as nat) * pow10(b)) == (10 * pow10((a - 1) as nat)) * pow10(
            b,
        )) by {
            vstd::arithmetic::mul::lemma_mul_is_associative(
                10,
                pow10((a - 1) as nat) as int,
                pow10(b) as int,
            );
        }
    }
}

/// The digits of `n` are digits, and there is at least one.
proof fn lemma_digits_shape(n: nat)
    ensures
        spec_digits(n).len() >= 1,
        all_digits(spec_digits(n)),
    decreases n,
{
    if n >= 10 {
        lemma_digits_shape(n / 10);
        assert(48 <= 48 + n % 10 <= 57) by {
            vstd::arithmetic::div_mod::lemma_mod_bound(n as int, 10);
        }
        assert(all_digits(spec_digits(n)));
    } else {
        assert(spec_digits(n) == seq![(48 + n) as u8]);
    }
}

/// A value below `10^k` has at most `k` digits.
proof fn lemma_digits_len(n: nat, k: nat)
    requires
        n < pow10(k),
    ensures
        spec_digits(n).len() <= (if k == 0 {
            1
        } else {
            k
        }),
    decreases k,
{
    if n < 10 {
    } else {
        if k <= 1 {
            assert(pow10(k) <= 10) by {
                lemma_pow10_pos(0);
            }
        }
        assert(n / 10 < pow10((k - 1) as nat)) by {
            vstd::arithmetic::div_mod::lemma_fundamental_div_mod(n as int, 10);
            vstd::arithmetic::div_mod::lemma_mod_bound(n as int, 10);
        }
        lemma_digits_len(n / 10, (k - 1) as nat);
    }
}

/// Appending one digit multiplies the value by ten and adds the digit.
proof fn lemma_digits_value_snoc(s: Seq<u8>, d: u8)
    requires
        48 <= d <= 57,
    ensures
        spec_digits_value(s + seq![d]) == spec_digits_value(s) * 10 + (d - 48),
{
    let t = s + seq![d];
    assert(t.drop_last() =~= s);
    assert(t.last() == d);
}

/// Parsing the digits of `n` yields `n` again.
proof fn lemma_digits_round_trip(n: nat)
    ensures
        spec_digits_value(spec_digits(n)) == n,
    decreases n,
{
    if n < 10 {
        let s = spec_digits(n);
        assert(s.drop_last() =~= Seq::<u8>::empty());
        assert(spec_digits_value(Seq::<u8>::empty()) == 0);
        assert(s.last() == (48 + n) as u8);
        assert(spec_digits_value(s) == 0 * 10 + n);
    } else {
        lemma_digits_round_trip(n / 10);
        lemma_digits_shape(n / 10);
        assert(48 <= 48 + n % 10 <= 57) by {
            vstd::arithmetic::div_mod::lemma_mod_bound(n as int, 10);
        }
        lemma_digits_value_snoc(spec_digits(n / 10), (48 + n % 10) as u8);
        vstd::arithmetic::div_mod::lemma_fundamental_div_mod(n as int, 10);
    }
}

/// Padded digits: exactly `k` digit bytes, recovering `n` when `n < 10^k`.
proof fn lemma_digits_padded_round_trip(n: nat, k: nat)
    requires
        n < pow10(k),
    ensures
        spec_digits_padded(n, k).len() == k,
        all_digits(spec_digits_padded(n, k)),
        spec_digits_value(spec_digits_padded(n, k)) == n,
    decreases k,
{
    if k == 0 {
    } else {
        assert(n / 10 < pow10((k - 1) as nat)) by {
            vstd::arithmetic::div_mod::lemma_fundamental_div_mod(n as int, 10);
            vstd::arithmetic::div_mod::lemma_mod_bound(n as int, 10);
        }
        lemma_digits_padded_round_trip(n / 10, (k - 1) as nat);
        assert(48 <= 48 + n % 10 <= 57) by {
            vstd::arithmetic::div_mod::lemma_mod_bound(n as int, 10);
        }
        lemma_digits_value_snoc(spec_digits_padded(n / 10, (k - 1) as nat), (48 + n % 10) as u8);
        assert(all_digits(spec_digits_padded(n, k)));
        vstd::arithmetic::div_mod::lemma_fundamental_div_mod(n as int, 10);
    }
}

/// The value of a digit string is below ten to its length.
proof fn lemma_digits_value_bound(s: Seq<u8>)
    requires
        all_digits(s),
    ensures
        spec_digits_value(s) < pow10(s.len()),
    decreases s.len(),
{
    if s.len() > 0 {
        assert(all_digits(s.drop_last())) by {
            assert(forall|i: int| 0 <= i < s.len() - 1 ==> s.drop_last()[i] == s[i]);
        }
        lemma_digits_value_bound(s.drop_last());
        assert(48 <= s.last() <= 57);
    }
}

/// Index of the first occurrence of `b` in `s`, or `s.len()` if absent,
/// clamped into `0 ..= s.len()`.
pub open spec fn find_byte(s: Seq<u8>, b: u8) -> int
    decreases s.len(),
{
    if s.len() == 0 {
        0
    } else if s[0] == b {
        0
    } else {
        let k = 1 + find_byte(s.drop_first(), b);
        if 0 <= k <= s.len() {
            k
        } else {
            s.len() as int
        }
    }
}

/// `find_byte` points at the first occurrence, or past the end.
proof fn lemma_find_byte(s: Seq<u8>, b: u8)
    ensures
        0 <= find_byte(s, b) <= s.len(),
        forall|i: int| 0 <= i < find_byte(s, b) ==> s[i] != b,
        find_byte(s, b) < s.len() ==> s[find_byte(s, b)] == b,
    decreases s.len(),
{
    if s.len() > 0 && s[0] != b {
        lemma_find_byte(s.drop_first(), b);
        assert(forall|i: int|
            0 <= i < find_byte(s, b) ==> s[i] != b) by {
            assert(forall|i: int|
                1 <= i < find_byte(s, b) ==> s[i] == s.drop_first()[i - 1] && s.drop_first()[i - 1]
                    != b);
        }
    }
}

/// In `pre + [b] + suf` with `b` absent from `pre`, the first `b` stands
/// right after `pre`.
proof fn lemma_find_byte_concat(pre: Seq<u8>, b: u8, suf: Seq<u8>)
    requires
        forall|i: int| 0 <= i < pre.len() ==> pre[i] != b,
    ensures
        find_byte(pre + seq![b] + suf, b) == pre.len(),
    decreases pre.len(),
{
    let s = pre + seq![b] + suf;
    if pre.len() == 0 {
        assert(s[0] == b);
    } else {
        assert(s[0] == pre[0]);
        lemma_find_byte_concat(pre.drop_first(), b, suf);
        assert(s.drop_first() =~= pre.drop_first() + seq![b] + suf);
        lemma_find_byte(s.drop_first(), b);
    }
}

/// `find_byte` is the only index with its properties.
proof fn lemma_find_byte_unique(s: Seq<u8>, b: u8, k: int)
    requires
        0 <= k <= s.len(),
        forall|i: int| 0 <= i < k ==> s[i] != b,
        k < s.len() ==> s[k] == b,
    ensures
        find_byte(s, b) == k,
{
    lemma_find_byte(s, b);
}

/// Index of the first byte of `s` that is not a space, or `s.len()` if
/// all are, clamped into `0 ..= s.len()`.
pub open spec fn find_nonspace(s: Seq<u8>) -> int
    decreases s.len(),
{
    if s.len() == 0 {
        0
    } else if s[0] != 32u8 {
        0
    } else {
        let k = 1 + find_nonspace(s.drop_first());
        if 0 <= k <= s.len() {
            k
        } else {
            s.len() as int
        }
    }
}

/// `find_nonspace` points at the first non-space, or past the end.
proof fn lemma_find_nonspace(s: Seq<u8>)
    ensures
        0 <= find_nonspace(s) <= s.len(),
        forall|i: int| 0 <= i < find_nonspace(s) ==> s[i] == 32u8,
        find_nonspace(s) < s.len() ==> s[find_nonspace(s)] != 32u8,
    decreases s.len(),
{
    if s.len() > 0 && s[0] == 32u8 {
        lemma_find_nonspace(s.drop_first());
        assert(forall|i: int|
            0 <= i < find_nonspace(s) ==> s[i] == 32u8) by {
            assert(forall|i: int|
                1 <= i < find_nonspace(s) ==> s[i] == s.drop_first()[i - 1] && s.drop_first()[i
                    - 1] == 32u8);
        }
    }
}

/// `find_nonspace` is the only index with its properties.
proof fn lemma_find_nonspace_unique(s: Seq<u8>, k: int)
    requires
        0 <= k <= s.len(),
        forall|i: int| 0 <= i < k ==> s[i] == 32u8,
        k < s.len() ==> s[k] != 32u8,
    ensures
        find_nonspace(s) == k,
{
    lemma_find_nonspace(s);
}

/// `n` spaces.
pub open spec fn spaces(n: nat) -> Seq<u8>
    decreases n,
{
    if n == 0 {
        Seq::empty()
    } else {
        spaces((n - 1) as nat) + seq![32u8]
    }
}

/// A run of spaces is exactly that.
proof fn lemma_spaces(n: nat)
    ensures
        spaces(n).len() == n,
        forall|i: int| 0 <= i < n ==> #[trigger] spaces(n)[i] == 32u8,
    decreases n,
{
    if n > 0 {
        lemma_spaces((n - 1) as nat);
        assert(forall|i: int|
            0 <= i < n ==> #[trigger] spaces(n)[i] == 32u8) by {
            assert(forall|i: int|
                0 <= i < n - 1 ==> spaces(n)[i] == spaces((n - 1) as nat)[i]);
            assert(spaces(n)[n - 1] == 32u8);
        }
    }
}

/// `tok` right-aligned in a twelve-character field: space padded on the
/// left, or unchanged when it is already that wide.
pub open spec fn pad12(tok: Seq<u8>) -> Seq<u8> {
    if tok.len() >= 12 {
        tok
    } else {
        spaces((12 - tok.len()) as nat) + tok
    }
}

/// A rendered six-digit magnitude is a well-formed token and parses
/// back to its value.
proof fn lemma_mag_round_trip(m: nat)
    requires
        m < VALUE_BOUND,
    ensures
        valid_mag(spec_render_mag(m)),
        mag_value(spec_render_mag(m)) == m,
        spec_render_mag(m).len() >= 8,
        48 <= spec_render_mag(m)[0] <= 57,
        forall|i: int|
            0 <= i < spec_render_mag(m).len() ==> #[trigger] spec_render_mag(m)[i] != 10u8
                && spec_render_mag(m)[i] != 32u8,
{
    let ip = m / 1000000;
    let fp = m % 1000000;
    vstd::arithmetic::div_mod::lemma_mod_bound(m as int, 1000000);
    lemma_digits_shape(ip);
    assert(pow10(24) == 1_000_000_000_000_000_000_000_000) by {
        reveal_with_fuel(pow10, 25);
    }
    assert(pow10(6) == 1000000) by {
        reveal_with_fuel(pow10, 7);
    }
    assert(ip < pow10(24)) by {
        vstd::arithmetic::div_mod::lemma_fundamental_div_mod(m as int, 1000000);
    }
    lemma_digits_len(ip, 24);
    lemma_digits_padded_round_trip(fp, 6);
    lemma_digits_round_trip(ip);
    let s = spec_render_mag(m);
    let di = spec_digits(ip);
    let df = spec_digits_padded(fp, 6);
    assert(s =~= di + seq![46u8] + df);
    assert(forall|i: int| 0 <= i < di.len() ==> di[i] != 46u8);
    lemma_find_byte_concat(di, 46u8, df);
    assert(find_byte(s, 46u8) == di.len());
    assert(s.subrange(0, di.len() as int) =~= di);
    assert(s.subrange(di.len() as int + 1, s.len() as int) =~= df);
    assert(pow10(0) == 1);
    assert(spec_digits_value(df) * 1 == spec_digits_value(df));
    vstd::arithmetic::div_mod::lemma_fundamental_div_mod(m as int, 1000000);
    assert(s[0] == di[0]);
}

/// A rendered four-digit magnitude is a well-formed token and parses
/// back to a hundred times its value (micro-units per 1e-4 unit).
proof fn lemma_mag4_round_trip(q: nat)
    requires
        q <= THICK_BOUND,
    ensures
        valid_mag(spec_render_mag4(q)),
        mag_value(spec_render_mag4(q)) == q * 100,
        spec_render_mag4(q).len() >= 6,
        48 <= spec_render_mag4(q)[0] <= 57,
        forall|i: int|
            0 <= i < spec_render_mag4(q).len() ==> #[trigger] spec_render_mag4(q)[i] != 10u8
                && spec_render_mag4(q)[i] != 32u8,
{
    let ip = q / 10000;
    let fp = q % 10000;
    vstd::arithmetic::div_mod::lemma_mod_bound(q as int, 10000);
    lemma_digits_shape(ip);
    assert(pow10(24) == 1_000_000_000_000_000_000_000_000) by {
        reveal_with_fuel(pow10, 25);
    }
    assert(pow10(4) == 10000) by {
        reveal_with_fuel(pow10, 5);
    }
    assert(pow10(2) == 100) by {
        reveal_with_fuel(pow10, 3);
    }
    assert(ip < pow10(24)) by {
        vstd::arithmetic::div_mod::lemma_fundamental_div_mod(q as int, 10000);
    }
    lemma_digits_len(ip, 24);
    lemma_digits_padded_round_trip(fp, 4);
    lemma_digits_round_trip(ip);
    let s = spec_render_mag4(q);
    let di = spec_digits(ip);
    let df = spec_digits_padded(fp, 4);
    assert(s =~= di + seq![46u8] + df);
    assert(forall|i: int| 0 <= i < di.len() ==> di[i] != 46u8);
    lemma_find_byte_concat(di, 46u8, df);
    assert(find_byte(s, 46u8) == di.len());
    assert(s.subrange(0, di.len() as int) =~= di);
    assert(s.subrange(di.len() as int + 1, s.len() as int) =~= df);
    assert(mag_value(s) == ip * 1000000 + fp * 100);
    assert(ip * 1000000 + fp * 100 == (ip * 10000 + fp) * 100) by {
        vstd::arithmetic::mul::lemma_mul_is_distributive_add_other_way(
            100,
            (ip * 10000) as int,
            fp as int,
        );
        vstd::arithmetic::mul::lemma_mul_is_associative(ip as int, 10000, 100);
    }
    vstd::arithmetic::div_mod::lemma_fundamental_div_mod(q as int, 10000);
    assert(s[0] == di[0]);
}

/// A rendered coordinate parses back to itself.
proof fn lemma_fixed_round_trip(v: int)
    requires
        -VALUE_BOUND < v < VALUE_BOUND,
    ensures
        spec_parse_fixed(spec_render_fixed(v)) == Some(v),
        spec_render_fixed(v).len() >= 8,
        spec_render_fixed(v)[0] == 45u8 || 48 <= spec_render_fixed(v)[0] <= 57,
        forall|i: int|
            0 <= i < spec_render_fixed(v).len() ==> #[trigger] spec_render_fixed(v)[i] != 10u8
                && spec_render_fixed(v)[i] != 32u8,
{
    if v < 0 {
        lemma_mag_round_trip((-v) as nat);
        let tok = spec_render_fixed(v);
        assert(tok[0] == 45u8);
        assert(tok.drop_first() =~= spec_render_mag((-v) as nat));
    } else {
        lemma_mag_round_trip(v as nat);
        let tok = spec_render_fixed(v);
        assert(tok =~= spec_render_mag(v as nat));
    }
}

/// A rendered thickness parses back to the value at the declared
/// four-digit precision.
proof fn lemma_thick_round_trip(t: Option<int>)
    requires
        t matches Some(v) ==> -THICK_BOUND <= v <= THICK_BOUND,
    ensures
        spec_parse_thick(spec_render_thick(t)) == Some(spec_round_thick(t)),
        spec_render_thick(t).len() >= 3,
        spec_render_thick(t)[0] == 45u8 || 48 <= spec_render_thick(t)[0] <= 57 || spec_render_thick(
            t,
        )[0] == 78u8,
        forall|i: int|
            0 <= i < spec_render_thick(t).len() ==> #[trigger] spec_render_thick(t)[i] != 10u8
                && spec_render_thick(t)[i] != 32u8,
{
    match t {
        None => {
            assert(spec_render_thick(t) == nan_token());
            assert(nan_token()[0] == 78u8);
            assert(nan_token()[1] != 10u8 && nan_token()[1] != 32u8);
            assert(nan_token()[2] != 10u8 && nan_token()[2] != 32u8);
        },
        Some(v) => {
            let a = if v >= 0 {
                v
            } else {
                -v
            };
            let q = (a + 50) / 100;
            assert(0 <= q <= THICK_BOUND) by {
                vstd::arithmetic::div_mod::lemma_div_pos_is_pos(a + 50, 100);
                assert((a + 50) / 100 <= (THICK_BOUND + 50) / 100) by {
                    vstd::arithmetic::div_mod::lemma_div_is_ordered(a + 50, THICK_BOUND + 50, 100);
                }
                assert((THICK_BOUND + 50) / 100 <= THICK_BOUND) by {
                    vstd::arithmetic::div_mod::lemma_fundamental_div_mod_converse(
                        THICK_BOUND + 50,
                        100,
                        184467440737095516,
                        66,
                    );
                }
            }
            lemma_mag4_round_trip(q as nat);
            let tok = spec_render_thick(t);
            if v < 0 && q > 0 {
                assert(tok[0] == 45u8);
                assert(tok.drop_first() =~= spec_render_mag4(q as nat));
                assert(spec_parse_fixed(tok) == Some(-(q * 100)));
            } else {
                assert(tok =~= spec_render_mag4(q as nat));
                assert(spec_parse_fixed(tok) == Some(q * 100));
                if v < 0 {
                    assert(q == 0);
                    assert(spec_round100(v) == -(0 * 100));
                }
            }
            assert(tok != nan_token()) by {
                assert(tok[0] != 78u8);
                if tok == nan_token() {
                    assert(tok[0] == 78u8);
                }
            }
        },
    }
}

/// Whether a byte opens a comment or directive line.
pub open spec fn is_comment_start(b: u8) -> bool {
    b == 35u8 || b == 64u8 || b == 36u8
}

/// A line the parser skips: empty, or a comment/directive line.
pub open spec fn is_skip_line(line: Seq<u8>) -> bool {
    line.len() == 0 || is_comment_start(line[0])
}

/// Parse one data line: three whitespace-separated tokens — two
/// fixed-point coordinates and a thickness.
#[verifier::opaque]
pub open spec fn spec_parse_triple(line: Seq<u8>) -> Option<FinalCell> {
    let a0 = find_nonspace(line);
    let r1 = line.subrange(a0, line.len() as int);
    let t1e = find_byte(r1, 32u8);
    let r2a = r1.subrange(t1e, r1.len() as int);
    let b0 = find_nonspace(r2a);
    let r2 = r2a.subrange(b0, r2a.len() as int);
    let t2e = find_byte(r2, 32u8);
    let r3a = r2.subrange(t2e, r2.len() as int);
    let c0 = find_nonspace(r3a);
    let r3 = r3a.subrange(c0, r3a.len() as int);
    let t3e = find_byte(r3, 32u8);
    let tail = r3.subrange(t3e, r3.len() as int);
    let d0 = find_nonspace(tail);
    if t1e == 0 || t2e == 0 || t3e == 0 || d0 < tail.len() {
        None
    } else {
        match (spec_parse_fixed(r1.subrange(0, t1e)), spec_parse_fixed(r2.subrange(0, t2e)),
        spec_parse_thick(r3.subrange(0, t3e))) {
            (Some(x), Some(y), Some(t)) => Some(FinalCell { cx: x, cy: y, thickness: t }),
            _ => None,
        }
    }
}

/// Parse a whole map: split at newlines, skip comment and empty lines,
/// parse every other line as a cell triple. `None` if any data line is
/// malformed.
pub open spec fn spec_parse_lines(data: Seq<u8>) -> Option<Seq<FinalCell>>
    decreases data.len(),
{
    if data.len() == 0 {
        Some(Seq::empty())
    } else {
        let k = find_byte(data, 10u8);
        let line = data.subrange(0, k);
        let rest = if 0 <= k < data.len() {
            data.subrange(k + 1, data.len() as int)
        } else {
            Seq::empty()
        };
        let tail = spec_parse_lines(rest);
        if is_skip_line(line) {
            tail
        } else {
            match (spec_parse_triple(line), tail) {
                (Some(c), Some(t)) => Some(seq![c] + t),
                _ => None,
            }
        }
    }
}

/// One rendered cell line, without its newline: three twelve-character
/// fields separated by single spaces.
pub open spec fn spec_render_triple(c: FinalCell) -> Seq<u8> {
    pad12(spec_render_fixed(c.cx)) + seq![32u8] + pad12(spec_render_fixed(c.cy)) + seq![32u8]
        + pad12(spec_render_thick(c.thickness))
}

/// All rendered cell lines, each closed by a newline.
pub open spec fn spec_render_cells(cells: Seq<FinalCell>) -> Seq<u8>
    decreases cells.len(),
{
    if cells.len() == 0 {
        Seq::empty()
    } else {
        spec_render_triple(cells.first()) + seq![10u8] + spec_render_cells(cells.drop_first())
    }
}

/// A header line the renderer accepts: non-empty, opening a comment or
/// directive, holding no newline.
pub open spec fn wf_header(h: Seq<u8>) -> bool {
    &&& h.len() > 0
    &&& is_comment_start(h[0])
    &&& forall|i: int| 0 <= i < h.len() ==> #[trigger] h[i] != 10u8
}

/// The rendered header block, each line closed by a newline.
pub open spec fn spec_render_headers(hs: Seq<Seq<u8>>) -> Seq<u8>
    decreases hs.len(),
{
    if hs.len() == 0 {
        Seq::empty()
    } else {
        hs.first() + seq![10u8] + spec_render_headers(hs.drop_first())
    }
}

/// A cell whose values the renderer can write.
pub open spec fn cell_in_bounds(c: FinalCell) -> bool {
    &&& -VALUE_BOUND < c.cx < VALUE_BOUND
    &&& -VALUE_BOUND < c.cy < VALUE_BOUND
    &&& (c.thickness matches Some(t) ==> -THICK_BOUND <= t <= THICK_BOUND)
}

/// The label of the trailing average line.
pub open spec fn avg_label() -> Seq<u8> {
    seq![35u8, 32u8, 65u8, 118u8, 101u8, 114u8, 97u8, 103u8, 101u8, 32u8, 109u8, 101u8, 109u8, 98u8, 114u8, 97u8, 110u8, 101u8, 32u8, 116u8, 104u8, 105u8, 99u8, 107u8, 110u8, 101u8, 115u8, 115u8, 58u8, 32u8]
}

/// The whole rendered map: headers, one line per cell, and the average
/// thickness as a trailing labelled comment.
pub open spec fn spec_render_map(
    hs: Seq<Seq<u8>>,
    cells: Seq<FinalCell>,
    avg: Option<int>,
) -> Seq<u8> {
    spec_render_headers(hs) + spec_render_cells(cells) + avg_label() + pad12(
        spec_render_thick(avg),
    ) + seq![32u8, 110u8, 109u8, 10u8]
}

/// The label is a comment start followed by printable text: no newline.
proof fn lemma_avg_label_shape()
    ensures
        avg_label().len() == 30,
        avg_label()[0] == 35u8,
        forall|i: int| 0 <= i < avg_label().len() ==> #[trigger] avg_label()[i] != 10u8,
{
    assert forall|i: int| 0 <= i < avg_label().len() implies #[trigger] avg_label()[i] != 10u8 by {
        assert(avg_label()[0] != 10u8);
        assert(avg_label()[1] != 10u8);
        assert(avg_label()[2] != 10u8);
        assert(avg_label()[3] != 10u8);
        assert(avg_label()[4] != 10u8);
        assert(avg_label()[5] != 10u8);
        assert(avg_label()[6] != 10u8);
        assert(avg_label()[7] != 10u8);
        assert(avg_label()[8] != 10u8);
        assert(avg_label()[9] != 10u8);
        assert(avg_label()[10] != 10u8);
        assert(avg_label()[11] != 10u8);
        assert(avg_label()[12] != 10u8);
        assert(avg_label()[13] != 10u8);
        assert(avg_label()[14] != 10u8);
        assert(avg_label()[15] != 10u8);
        assert(avg_label()[16] != 10u8);
        assert(avg_label()[17] != 10u8);
        assert(avg_label()[18] != 10u8);
        assert(avg_label()[19] != 10u8);
        assert(avg_label()[20] != 10u8);
        assert(avg_label()[21] != 10u8);
        assert(avg_label()[22] != 10u8);
        assert(avg_label()[23] != 10u8);
        assert(avg_label()[24] != 10u8);
        assert(avg_label()[25] != 10u8);
        assert(avg_label()[26] != 10u8);
        assert(avg_label()[27] != 10u8);
        assert(avg_label()[28] != 10u8);
        assert(avg_label()[29] != 10u8);
    }
}

/// Appending one more header renders as the old block plus one line.
proof fn lemma_render_headers_snoc(hs: Seq<Seq<u8>>, h: Seq<u8>)
    ensures
        spec_render_headers(hs.push(h)) == spec_render_headers(hs) + h + seq![10u8],
    decreases hs.len(),
{
    if hs.len() == 0 {
        assert(hs.push(h).drop_first() =~= Seq::<Seq<u8>>::empty());
        assert(hs.push(h).first() == h);
        assert(spec_render_headers(Seq::<Seq<u8>>::empty()) == Seq::<u8>::empty());
        assert(spec_render_headers(hs.push(h)) == h + seq![10u8] + Seq::<u8>::empty());
        assert(h + seq![10u8] + Seq::<u8>::empty() =~= Seq::<u8>::empty() + h + seq![10u8]);
    } else {
        assert(hs.push(h).drop_first() =~= hs.drop_first().push(h));
        assert(hs.push(h).first() == hs.first());
        lemma_render_headers_snoc(hs.drop_first(), h);
        assert(spec_render_headers(hs.push(h)) == hs.first() + seq![10u8] + (spec_render_headers(
            hs.drop_first(),
        ) + h + seq![10u8]));
        assert(hs.first() + seq![10u8] + (spec_render_headers(hs.drop_first()) + h + seq![10u8])
            =~= (hs.first() + seq![10u8] + spec_render_headers(hs.drop_first())) + h
            + seq![10u8]);
    }
}

/// Appending one more cell renders as the old lines plus one line.
proof fn lemma_render_cells_snoc(cells: Seq<FinalCell>, c: FinalCell)
    ensures
        spec_render_cells(cells.push(c)) == spec_render_cells(cells) + spec_render_triple(c)
            + seq![10u8],
    decreases cells.len(),
{
    if cells.len() == 0 {
        assert(cells.push(c).drop_first() =~= Seq::<FinalCell>::empty());
        assert(cells.push(c).first() == c);
        assert(spec_render_cells(Seq::<FinalCell>::empty()) == Seq::<u8>::empty());
        assert(spec_render_cells(cells.push(c)) == spec_render_triple(c) + seq![10u8]
            + Seq::<u8>::empty());
        assert(spec_render_triple(c) + seq![10u8] + Seq::<u8>::empty() =~= Seq::<u8>::empty()
            + spec_render_triple(c) + seq![10u8]);
    } else {
        assert(cells.push(c).drop_first() =~= cells.drop_first().push(c));
        assert(cells.push(c).first() == cells.first());
        lemma_render_cells_snoc(cells.drop_first(), c);
        assert(spec_render_cells(cells.push(c)) == spec_render_triple(cells.first()) + seq![10u8]
            + (spec_render_cells(cells.drop_first()) + spec_render_triple(c) + seq![10u8]));
        assert(spec_render_triple(cells.first()) + seq![10u8] + (spec_render_cells(
            cells.drop_first(),
        ) + spec_render_triple(c) + seq![10u8]) =~= (spec_render_triple(cells.first())
            + seq![10u8] + spec_render_cells(cells.drop_first())) + spec_render_triple(c)
            + seq![10u8]);
    }
}

/// Within `s`: after `p` spaces stands the space-free token `tok`,
/// followed by a space or by the end of `s`.
proof fn lemma_take_field(s: Seq<u8>, p: int, tok: Seq<u8>)
    requires
        0 <= p,
        tok.len() > 0,
        p + tok.len() <= s.len(),
        forall|i: int| 0 <= i < p ==> s[i] == 32u8,
        forall|i: int| 0 <= i < tok.len() ==> #[trigger] tok[i] != 32u8,
        forall|i: int| 0 <= i < tok.len() ==> s[p + i] == tok[i],
        p + tok.len() < s.len() ==> s[p + tok.len()] == 32u8,
    ensures
        find_nonspace(s) == p,
        find_byte(s.subrange(p, s.len() as int), 32u8) == tok.len(),
        s.subrange(p, s.len() as int).subrange(0, tok.len() as int) == tok,
{
    assert(s[p + 0] == tok[0]);
    lemma_find_nonspace_unique(s, p);
    let r = s.subrange(p, s.len() as int);
    assert forall|i: int| 0 <= i < tok.len() implies r[i] != 32u8 by {
        assert(r[i] == s[p + i]);
        assert(s[p + i] == tok[i]);
        assert(tok[i] != 32u8);
    }
    lemma_find_byte_unique(r, 32u8, tok.len() as int);
    assert(r.subrange(0, tok.len() as int) =~= tok);
}

/// A rendered cell line parses back to its cell, thickness at the
/// declared precision.
#[verifier::rlimit(100)]
#[verifier::spinoff_prover]
proof fn lemma_triple_round_trip(c: FinalCell)
    requires
        cell_in_bounds(c),
    ensures
        spec_parse_triple(spec_render_triple(c)) == Some(spec_round_cell(c)),
        spec_render_triple(c).len() > 0,
        !is_comment_start(spec_render_triple(c)[0]),
        forall|i: int|
            0 <= i < spec_render_triple(c).len() ==> #[trigger] spec_render_triple(c)[i] != 10u8,
{
    let tx = spec_render_fixed(c.cx);
    let ty = spec_render_fixed(c.cy);
    let tt = spec_render_thick(c.thickness);
    lemma_fixed_round_trip(c.cx);
    lemma_fixed_round_trip(c.cy);
    lemma_thick_round_trip(c.thickness);
    let nx: nat = if tx.len() >= 12 { 0 } else { (12 - tx.len()) as nat };
    let ny: nat = if ty.len() >= 12 { 0 } else { (12 - ty.len()) as nat };
    let nz: nat = if tt.len() >= 12 { 0 } else { (12 - tt.len()) as nat };
    lemma_spaces(nx);
    lemma_spaces(ny);
    lemma_spaces(nz);
    assert(pad12(tx) =~= spaces(nx) + tx);
    assert(pad12(ty) =~= spaces(ny) + ty);
    assert(pad12(tt) =~= spaces(nz) + tt);
    let line = spec_render_triple(c);
    assert(line =~= spaces(nx) + tx + seq![32u8] + spaces(ny) + ty + seq![32u8] + spaces(nz) + tt);
    // First field.
    lemma_take_field(line, nx as int, tx);
    let r1 = line.subrange(nx as int, line.len() as int);
    // Second field: one separator, then the padding of the y field.
    let r2a = r1.subrange(tx.len() as int, r1.len() as int);
    assert(forall|i: int| 0 <= i < 1 + ny ==> r2a[i] == 32u8);
    assert(forall|i: int| 0 <= i < ty.len() ==> r2a[1 + ny + i] == ty[i]);
    lemma_take_field(r2a, 1 + ny as int, ty);
    let r2 = r2a.subrange(1 + ny as int, r2a.len() as int);
    // Third field.
    let r3a = r2.subrange(ty.len() as int, r2.len() as int);
    assert(forall|i: int| 0 <= i < 1 + nz ==> r3a[i] == 32u8);
    assert(forall|i: int| 0 <= i < tt.len() ==> r3a[1 + nz + i] == tt[i]);
    lemma_take_field(r3a, 1 + nz as int, tt);
    let r3 = r3a.subrange(1 + nz as int, r3a.len() as int);
    // Nothing follows the third token.
    let tail = r3.subrange(tt.len() as int, r3.len() as int);
    assert(tail =~= Seq::<u8>::empty());
    assert(find_nonspace(tail) == 0);
    assert(r1.subrange(0, tx.len() as int) == tx);
    assert(r2.subrange(0, ty.len() as int) == ty);
    assert(r3.subrange(0, tt.len() as int) == tt);
    reveal(spec_parse_triple);
    assert(spec_parse_triple(line) == Some(spec_round_cell(c)));
    assert(line[0] == 32u8 || line[0] == tx[0]);
}

/// Prepending a rendered header block does not change what parses.
proof fn lemma_parse_skips_headers(hs: Seq<Seq<u8>>, rest: Seq<u8>)
    requires
        forall|i: int| 0 <= i < hs.len() ==> wf_header(#[trigger] hs[i]),
    ensures
        spec_parse_lines(spec_render_headers(hs) + rest) == spec_parse_lines(rest),
    decreases hs.len(),
{
    if hs.len() == 0 {
        assert(spec_render_headers(hs) + rest =~= rest);
    } else {
        let h = hs.first();
        let data = spec_render_headers(hs) + rest;
        let tail_data = spec_render_headers(hs.drop_first()) + rest;
        assert(data =~= h + seq![10u8] + tail_data);
        lemma_find_byte_concat(h, 10u8, tail_data);
        let k = find_byte(data, 10u8);
        assert(k == h.len());
        assert(data.subrange(0, k) =~= h);
        assert(data.subrange(k + 1, data.len() as int) =~= tail_data);
        assert(forall|i: int|
            0 <= i < hs.drop_first().len() ==> wf_header(#[trigger] hs.drop_first()[i]));
        lemma_parse_skips_headers(hs.drop_first(), rest);
    }
}

/// A rendered cell block followed by anything parses to the cells at
/// the declared precision, followed by whatever the remainder parses to.
#[verifier::rlimit(100)]
proof fn lemma_parse_cells(cells: Seq<FinalCell>, rest: Seq<u8>)
    requires
        forall|j: int| 0 <= j < cells.len() ==> cell_in_bounds(#[trigger] cells[j]),
    ensures
        spec_parse_lines(spec_render_cells(cells) + rest) == (match spec_parse_lines(rest) {
            Some(t) => Some(cells.map_values(|c: FinalCell| spec_round_cell(c)) + t),
            None => None::<Seq<FinalCell>>,
        }),
    decreases cells.len(),
{
    let rc = |c: FinalCell| spec_round_cell(c);
    if cells.len() == 0 {
        assert(spec_render_cells(cells) + rest =~= rest);
        if spec_parse_lines(rest) is Some {
            assert(cells.map_values(rc) + spec_parse_lines(rest).unwrap() =~= spec_parse_lines(
                rest,
            ).unwrap());
        }
    } else {
        let c = cells.first();
        let line = spec_render_triple(c);
        lemma_triple_round_trip(c);
        let tail_data = spec_render_cells(cells.drop_first()) + rest;
        let data = spec_render_cells(cells) + rest;
        assert(data =~= line + seq![10u8] + tail_data);
        lemma_find_byte_concat(line, 10u8, tail_data);
        let k = find_byte(data, 10u8);
        assert(k == line.len());
        assert(data.subrange(0, k) =~= line);
        assert(data.subrange(k + 1, data.len() as int) =~= tail_data);
        assert(forall|j: int|
            0 <= j < cells.drop_first().len() ==> cell_in_bounds(#[trigger] cells.drop_first()[j]));
        lemma_parse_cells(cells.drop_first(), rest);
        match spec_parse_lines(rest) {
            Some(t) => {
                assert(spec_parse_lines(tail_data) == Some(cells.drop_first().map_values(rc) + t));
                assert(seq![rc(c)] + (cells.drop_first().map_values(rc) + t) =~= cells.map_values(
                    rc,
                ) + t);
            },
            None => {},
        }
    }
}

/// The trailing average comment parses to nothing.
#[verifier::rlimit(100)]
proof fn lemma_parse_avg_line(avg: Option<int>)
    requires
        avg matches Some(v) ==> -THICK_BOUND <= v <= THICK_BOUND,
    ensures
        spec_parse_lines(
            avg_label() + pad12(spec_render_thick(avg)) + seq![32u8, 110u8, 109u8, 10u8],
        ) == Some(Seq::<FinalCell>::empty()),
{
    lemma_thick_round_trip(avg);
    lemma_avg_label_shape();
    let tt = spec_render_thick(avg);
    let np: nat = if tt.len() >= 12 { 0 } else { (12 - tt.len()) as nat };
    lemma_spaces(np);
    assert(pad12(tt) =~= spaces(np) + tt);
    let line = avg_label() + pad12(tt) + seq![32u8, 110u8, 109u8];
    let data = avg_label() + pad12(tt) + seq![32u8, 110u8, 109u8, 10u8];
    assert(data =~= line + seq![10u8] + Seq::<u8>::empty());
    assert(forall|i: int| 0 <= i < line.len() ==> #[trigger] line[i] != 10u8);
    lemma_find_byte_concat(line, 10u8, Seq::<u8>::empty());
    let k = find_byte(data, 10u8);
    assert(k == line.len());
    assert(data.subrange(0, k) =~= line);
    assert(data.subrange(k + 1, data.len() as int) =~= Seq::<u8>::empty());
    assert(line[0] == 35u8);
    assert(is_skip_line(data.subrange(0, k)));
    assert(spec_parse_lines(Seq::<u8>::empty()) == Some(Seq::<FinalCell>::empty()));
    assert(spec_parse_lines(data) == spec_parse_lines(data.subrange(k + 1, data.len() as int)));
}

/// Round trip: parsing a rendered map yields exactly the rendered cells,
/// thickness at the declared four-digit precision. Comment lines,
/// including the trailing average, do not take part.
#[verifier::rlimit(100)]
pub proof fn lemma_map_round_trip(hs: Seq<Seq<u8>>, cells: Seq<FinalCell>, avg: Option<int>)
    requires
        forall|i: int| 0 <= i < hs.len() ==> wf_header(#[trigger] hs[i]),
        forall|j: int| 0 <= j < cells.len() ==> cell_in_bounds(#[trigger] cells[j]),
        avg matches Some(v) ==> -THICK_BOUND <= v <= THICK_BOUND,
    ensures
        spec_parse_lines(spec_render_map(hs, cells, avg)) == Some(
            cells.map_values(|c: FinalCell| spec_round_cell(c)),
        ),
{
    let avg_line = avg_label() + pad12(spec_render_thick(avg)) + seq![32u8, 110u8, 109u8, 10u8];
    let body = spec_render_cells(cells) + avg_line;
    assert(spec_render_map(hs, cells, avg) =~= spec_render_headers(hs) + body);
    lemma_parse_skips_headers(hs, body);
    lemma_parse_avg_line(avg);
    lemma_parse_cells(cells, avg_line);
    assert(cells.map_values(|c: FinalCell| spec_round_cell(c)) + Seq::<FinalCell>::empty()
        =~= cells.map_values(|c: FinalCell| spec_round_cell(c)));
}

/// Append the decimal digits of `n`.
fn push_digits(out: &mut Vec<u8>, n: u128)
    ensures
        final(out)@ == old(out)@ + spec_digits(n as nat),
    decreases n,
{
    if n < 10 {
        out.push(48 + n as u8);
        proof {
            assert(final(out)@ =~= old(out)@ + spec_digits(n as nat));
        }
    } else {
        push_digits(out, n / 10);
        out.push(48 + (n % 10) as u8);
        proof {
            assert((48 + (n % 10) as u8) as u8 == (48 + (n as nat) % 10) as u8);
            assert(final(out)@ =~= old(out)@ + spec_digits(n as nat));
        }
    }
}

/// Append the decimal digits of `n`, zero-padded to width `k`.
fn push_padded(out: &mut Vec<u8>, n: u128, k: usize)
    ensures
        final(out)@ == old(out)@ + spec_digits_padded(n as nat, k as nat),
    decreases k,
{
    if k > 0 {
        push_padded(out, n / 10, k - 1);
        out.push(48 + (n % 10) as u8);
        proof {
            assert(final(out)@ =~= old(out)@ + spec_digits_padded(n as nat, k as nat));
        }
    } else {
        proof {
            assert(final(out)@ =~= old(out)@ + spec_digits_padded(n as nat, 0));
        }
    }
}

/// Append `n` spaces.
fn push_spaces(out: &mut Vec<u8>, n: usize)
    ensures
        final(out)@ == old(out)@ + spaces(n as nat),
    decreases n,
{
    if n > 0 {
        push_spaces(out, n - 1);
        out.push(32);
        proof {
            assert(final(out)@ =~= old(out)@ + spaces(n as nat));
        }
    } else {
        proof {
            assert(final(out)@ =~= old(out)@ + spaces(0));
        }
    }
}

/// Append `tok` right-aligned in a twelve-character field.
fn push_pad12(out: &mut Vec<u8>, tok: &Vec<u8>)
    ensures
        final(out)@ == old(out)@ + pad12(tok@),
{
    if tok.len() < 12 {
        push_spaces(out, 12 - tok.len());
    }
    let ghost base = out@;
    let n = tok.len();
    let mut j: usize = 0;
    while j < n
        invariant
            j <= n,
            n == tok@.len(),
            out@ == base + tok@.subrange(0, j as int),
        decreases n - j,
    {
        out.push(tok[j]);
        proof {
            assert(base + tok@.subrange(0, j as int) + seq![tok@[j as int]] =~= base
                + tok@.subrange(0, j + 1));
        }
        j = j + 1;
    }
    proof {
        assert(tok@.subrange(0, n as int) =~= tok@);
        assert(out@ =~= old(out)@ + pad12(tok@));
    }
}

/// A coordinate as a decimal token with six fraction digits.
fn fixed_token(v: i128) -> (r: Vec<u8>)
    requires
        -VALUE_BOUND < v < VALUE_BOUND,
    ensures
        r@ == spec_render_fixed(v as int),
{
    let mut out: Vec<u8> = Vec::new();
    let m: u128 = if v < 0 {
        out.push(45);
        (-v) as u128
    } else {
        v as u128
    };
    let ghost base = out@;
    push_digits(&mut out, m / 1000000);
    out.push(46);
    let ghost mid = out@;
    push_padded(&mut out, m % 1000000, 6);
    proof {
        assert(mid =~= base + spec_digits((m as nat) / 1000000) + seq![46u8]);
        assert(out@ =~= base + spec_render_mag(m as nat));
        if v < 0 {
            assert(base =~= Seq::<u8>::empty() + seq![45u8]);
            assert(out@ =~= spec_render_fixed(v as int));
        } else {
            assert(out@ =~= spec_render_fixed(v as int));
        }
    }
    out
}

/// A thickness as a decimal token with four fraction digits (the value
/// rounded to the nearest 1e-4), or the `NaN` token.
fn thick_token(t: Option<i128>) -> (r: Vec<u8>)
    requires
        t matches Some(v) ==> -THICK_BOUND <= v <= THICK_BOUND,
    ensures
        r@ == spec_render_thick(crate::finalize::opt_int(t)),
{
    let mut out: Vec<u8> = Vec::new();
    match t {
        None => {
            out.push(78);
            out.push(97);
            out.push(78);
            proof {
                assert(out@ =~= nan_token());
            }
        },
        Some(v) => {
            let a: u128 = if v < 0 {
                (-v) as u128
            } else {
                v as u128
            };
            let q: u128 = (a + 50) / 100;
            if v < 0 && q > 0 {
                out.push(45);
            }
            let ghost base = out@;
            push_digits(&mut out, q / 10000);
            out.push(46);
            let ghost mid = out@;
            push_padded(&mut out, q % 10000, 4);
            proof {
                assert(mid =~= base + spec_digits((q as nat) / 10000) + seq![46u8]);
                assert(out@ =~= base + spec_render_mag4(q as nat));
                if v < 0 && q > 0 {
                    assert(base =~= Seq::<u8>::empty() + seq![45u8]);
                    assert(out@ =~= spec_render_thick(crate::finalize::opt_int(t)));
                } else {
                    assert(out@ =~= spec_render_thick(crate::finalize::opt_int(t)));
                }
            }
        },
    }
    out
}

/// Append one rendered cell line, closed by its newline.
fn push_cell_line(out: &mut Vec<u8>, c: &CellValue)
    requires
        cell_in_bounds(c@),
    ensures
        final(out)@ == old(out)@ + spec_render_triple(c@) + seq![10u8],
{
    let tx = fixed_token(c.cx);
    push_pad12(out, &tx);
    out.push(32);
    let ty = fixed_token(c.cy);
    push_pad12(out, &ty);
    out.push(32);
    let tt = thick_token(c.thickness);
    push_pad12(out, &tt);
    out.push(10);
    proof {
        assert(final(out)@ =~= old(out)@ + spec_render_triple(c@) + seq![10u8]);
    }
}

/// Append the trailing average line's label.
fn push_avg_label(out: &mut Vec<u8>)
    ensures
        final(out)@ == old(out)@ + avg_label(),
{
    out.push(35);
    out.push(32);
    out.push(65);
    out.push(118);
    out.push(101);
    out.push(114);
    out.push(97);
    out.push(103);
    out.push(101);
    out.push(32);
    out.push(109);
    out.push(101);
    out.push(109);
    out.push(98);
    out.push(114);
    out.push(97);
    out.push(110);
    out.push(101);
    out.push(32);
    out.push(116);
    out.push(104);
    out.push(105);
    out.push(99);
    out.push(107);
    out.push(110);
    out.push(101);
    out.push(115);
    out.push(115);
    out.push(58);
    out.push(32);
    proof {
        assert(final(out)@ =~= old(out)@ + avg_label());
    }
}

/// Render the whole map: the given header lines, one line per cell, and
/// the average thickness as a trailing labelled comment.
pub fn render_map(headers: &Vec<Vec<u8>>, cells: &Vec<CellValue>, avg: Option<i128>) -> (r: Vec<
    u8,
>)
    requires
        forall|i: int| 0 <= i < headers@.len() ==> wf_header(#[trigger] headers@[i]@),
        forall|j: int| 0 <= j < cells@.len() ==> cell_in_bounds(#[trigger] cells@[j]@),
        avg matches Some(v) ==> -THICK_BOUND <= v <= THICK_BOUND,
    ensures
        r@ == spec_render_map(
            headers@.map_values(|h: Vec<u8>| h@),
            cells@.map_values(|c: CellValue| c@),
            crate::finalize::opt_int(avg),
        ),
{
    let ghost hmodel = headers@.map_values(|h: Vec<u8>| h@);
    let ghost cmodel = cells@.map_values(|c: CellValue| c@);
    let mut out: Vec<u8> = Vec::new();
    let mut i: usize = 0;
    proof {
        assert(hmodel.subrange(0, 0) =~= Seq::<Seq<u8>>::empty());
        assert(out@ =~= spec_render_headers(hmodel.subrange(0, 0)));
    }
    while i < headers.len()
        invariant
            i <= headers@.len(),
            hmodel == headers@.map_values(|h: Vec<u8>| h@),
            out@ == spec_render_headers(hmodel.subrange(0, i as int)),
        decreases headers@.len() - i,
    {
        let h = &headers[i];
        let ghost base = out@;
        let mut j: usize = 0;
        while j < h.len()
            invariant
                j <= h@.len(),
                h@ == headers@.map_values(|x: Vec<u8>| x@)[i as int],
                i < headers@.len(),
                out@ == base + h@.subrange(0, j as int),
            decreases h@.len() - j,
        {
            out.push(h[j]);
            proof {
                assert(base + h@.subrange(0, j as int) + seq![h@[j as int]] =~= base + h@.subrange(
                    0,
                    j + 1,
                ));
            }
            j = j + 1;
        }
        out.push(10);
        proof {
            assert(h@.subrange(0, h@.len() as int) =~= h@);
            lemma_render_headers_snoc(hmodel.subrange(0, i as int), h@);
            assert(hmodel.subrange(0, i as int).push(h@) =~= hmodel.subrange(0, i + 1));
            assert(out@ =~= spec_render_headers(hmodel.subrange(0, i as int)) + h@ + seq![10u8]);
        }
        i = i + 1;
    }
    proof {
        assert(hmodel.subrange(0, hmodel.len() as int) =~= hmodel);
    }
    let ghost hdone = out@;
    let mut k: usize = 0;
    proof {
        assert(cmodel.subrange(0, 0) =~= Seq::<FinalCell>::empty());
        assert(out@ =~= hdone + spec_render_cells(cmodel.subrange(0, 0)));
    }
    while k < cells.len()
        invariant
            k <= cells@.len(),
            cmodel == cells@.map_values(|c: CellValue| c@),
            forall|j: int| 0 <= j < cells@.len() ==> cell_in_bounds(#[trigger] cells@[j]@),
            out@ == hdone + spec_render_cells(cmodel.subrange(0, k as int)),
        decreases cells@.len() - k,
    {
        let ghost base = out@;
        proof {
            assert(cells@[k as int]@ == cmodel[k as int]);
            assert(cell_in_bounds(cmodel[k as int]));
        }
        push_cell_line(&mut out, &cells[k]);
        proof {
            lemma_render_cells_snoc(cmodel.subrange(0, k as int), cmodel[k as int]);
            assert(cmodel.subrange(0, k as int).push(cmodel[k as int]) =~= cmodel.subrange(
                0,
                k + 1,
            ));
        }
        k = k + 1;
    }
    proof {
        assert(cmodel.subrange(0, cmodel.len() as int) =~= cmodel);
    }
    let ghost cdone = out@;
    push_avg_label(&mut out);
    let ta = thick_token(avg);
    push_pad12(&mut out, &ta);
    out.push(32);
    out.push(110);
    out.push(109);
    out.push(10);
    proof {
        assert(out@ =~= cdone + avg_label() + pad12(
            spec_render_thick(crate::finalize::opt_int(avg)),
        ) + seq![32u8, 110u8, 109u8, 10u8]);
        assert(out@ =~= spec_render_map(hmodel, cmodel, crate::finalize::opt_int(avg)));
    }
    out
}

/// First position of `b` in `data[start .. end)`, or `end` when absent.
fn find_from(data: &Vec<u8>, start: usize, end: usize, b: u8) -> (k: usize)
    requires
        start <= end <= data@.len(),
    ensures
        start <= k <= end,
        forall|i: int| start <= i < k ==> data@[i] != b,
        k < end ==> data@[k as int] == b,
        k - start == find_byte(data@.subrange(start as int, end as int), b),
{
    let mut k = start;
    while k < end && data[k] != b
        invariant
            start <= k <= end,
            end <= data@.len(),
            forall|i: int| start <= i < k ==> data@[i] != b,
        decreases end - k,
    {
        k = k + 1;
    }
    proof {
        let sub = data@.subrange(start as int, end as int);
        assert(forall|i: int| 0 <= i < k - start ==> sub[i] == data@[start + i] && sub[i] != b);
        lemma_find_byte_unique(sub, b, k - start);
    }
    k
}

/// First position in `data[start .. end)` that is not a space, or `end`.
fn skip_spaces_from(data: &Vec<u8>, start: usize, end: usize) -> (k: usize)
    requires
        start <= end <= data@.len(),
    ensures
        start <= k <= end,
        forall|i: int| start <= i < k ==> data@[i] == 32u8,
        k < end ==> data@[k as int] != 32u8,
        k - start == find_nonspace(data@.subrange(start as int, end as int)),
{
    let mut k = start;
    while k < end && data[k] == 32
        invariant
            start <= k <= end,
            end <= data@.len(),
            forall|i: int| start <= i < k ==> data@[i] == 32u8,
        decreases end - k,
    {
        k = k + 1;
    }
    proof {
        let sub = data@.subrange(start as int, end as int);
        assert(forall|i: int| 0 <= i < k - start ==> sub[i] == data@[start + i] && sub[i] == 32u8);
        lemma_find_nonspace_unique(sub, k - start);
    }
    k
}

/// Parse the digit run `data[start .. end)` into its value.
fn parse_digits(data: &Vec<u8>, start: usize, end: usize) -> (r: Option<u128>)
    requires
        start <= end <= data@.len(),
        end - start <= 24,
    ensures
        match r {
            Some(v) => all_digits(data@.subrange(start as int, end as int)) && v as nat
                == spec_digits_value(data@.subrange(start as int, end as int)) && v
                < 1_000_000_000_000_000_000_000_000,
            None => !all_digits(data@.subrange(start as int, end as int)),
        },
{
    let ghost whole = data@.subrange(start as int, end as int);
    let mut acc: u128 = 0;
    let mut j = start;
    proof {
        assert(pow10(24) == 1_000_000_000_000_000_000_000_000) by {
            reveal_with_fuel(pow10, 25);
        }
        assert(whole.subrange(0, 0) =~= Seq::<u8>::empty());
    }
    while j < end
        invariant
            start <= j <= end,
            end <= data@.len(),
            end - start <= 24,
            whole == data@.subrange(start as int, end as int),
            all_digits(whole.subrange(0, j - start)),
            acc as nat == spec_digits_value(whole.subrange(0, j - start)),
            acc < pow10((j - start) as nat),
            pow10(24) == 1_000_000_000_000_000_000_000_000,
        decreases end - j,
    {
        let b = data[j];
        proof {
            assert(whole[j - start] == data@[j as int]);
        }
        if b < 48 || b > 57 {
            proof {
                assert(!all_digits(whole)) by {
                    assert(whole[j - start] == b);
                }
            }
            return None;
        }
        proof {
            lemma_pow10_mono((j - start + 1) as nat, 24);
            lemma_digits_value_snoc(whole.subrange(0, j - start), b);
            assert(whole.subrange(0, j - start) + seq![b] =~= whole.subrange(0, j - start + 1));
            assert(all_digits(whole.subrange(0, j - start + 1)));
        }
        acc = acc * 10 + ((b - 48) as u128);
        j = j + 1;
    }
    proof {
        assert(whole.subrange(0, end - start) =~= whole);
        lemma_pow10_mono((end - start) as nat, 24);
    }
    Some(acc)
}

/// Ten to a small power, for scaling parsed fractions.
fn pow10_exec(k: usize) -> (r: u128)
    requires
        k <= 6,
    ensures
        r as nat == pow10(k as nat),
        1 <= r <= 1000000,
{
    proof {
        assert(pow10(0) == 1 && pow10(1) == 10 && pow10(2) == 100 && pow10(3) == 1000 && pow10(4)
            == 10000 && pow10(5) == 100000 && pow10(6) == 1000000) by {
            reveal_with_fuel(pow10, 7);
        }
    }
    if k == 0 {
        1
    } else if k == 1 {
        10
    } else if k == 2 {
        100
    } else if k == 3 {
        1000
    } else if k == 4 {
        10000
    } else if k == 5 {
        100000
    } else {
        1000000
    }
}

/// Parse the token `data[start .. end)` as a fixed-point value.
#[verifier::rlimit(100)]
fn parse_fixed_bytes(data: &Vec<u8>, start: usize, end: usize) -> (r: Option<i128>)
    requires
        start <= end <= data@.len(),
    ensures
        match r {
            Some(v) => spec_parse_fixed(data@.subrange(start as int, end as int)) == Some(v as int),
            None => spec_parse_fixed(data@.subrange(start as int, end as int)) is None,
        },
{
    let ghost tok = data@.subrange(start as int, end as int);
    let neg = end > start && data[start] == 45;
    let ms = if neg {
        start + 1
    } else {
        start
    };
    let ghost mag = data@.subrange(ms as int, end as int);
    proof {
        if neg {
            assert(tok.drop_first() =~= mag);
        } else {
            assert(tok =~= mag);
        }
    }
    let dot = find_from(data, ms, end, 46);
    proof {
        assert(find_byte(mag, 46u8) == dot - ms);
    }
    if dot == end {
        return None;
    }
    let ipl = dot - ms;
    if ipl < 1 || ipl > 24 {
        return None;
    }
    let fl = end - dot - 1;
    if fl < 1 || fl > 6 {
        return None;
    }
    let ip = parse_digits(data, ms, dot);
    let fp = parse_digits(data, dot + 1, end);
    proof {
        assert(mag.subrange(0, dot - ms) =~= data@.subrange(ms as int, dot as int));
        assert(mag.subrange(dot - ms + 1, mag.len() as int) =~= data@.subrange(
            dot + 1,
            end as int,
        ));
    }
    match (ip, fp) {
        (Some(a), Some(b)) => {
            let scale = pow10_exec(6 - fl);
            proof {
                let fr = data@.subrange(dot + 1, end as int);
                lemma_digits_value_bound(fr);
                assert(b < pow10(fl as nat));
                lemma_pow10_adds(fl as nat, (6 - fl) as nat);
                assert(pow10(6) == 1000000) by {
                    reveal_with_fuel(pow10, 7);
                }
                assert((b as int) * (scale as int) <= (pow10(fl as nat) - 1) * (scale as int)) by {
                    vstd::arithmetic::mul::lemma_mul_inequality(
                        b as int,
                        pow10(fl as nat) - 1,
                        scale as int,
                    );
                }
                assert((pow10(fl as nat) - 1) * (scale as int) == pow10(fl as nat) * (scale as int)
                    - 1 * (scale as int)) by {
                    vstd::arithmetic::mul::lemma_mul_is_distributive_sub_other_way(
                        scale as int,
                        pow10(fl as nat) as int,
                        1,
                    );
                }
                vstd::arithmetic::mul::lemma_mul_basics(scale as int);
                assert((b as int) * (scale as int) < 1000000);
                vstd::arithmetic::mul::lemma_mul_nonnegative(b as int, scale as int);
            }
            let v: u128 = a * 1000000 + b * scale;
            proof {
                assert(valid_mag(mag));
                assert(mag_value(mag) == v as nat);
            }
            if neg {
                Some(-(v as i128))
            } else {
                Some(v as i128)
            }
        },
        _ => {
            proof {
                assert(!valid_mag(mag));
            }
            None
        },
    }
}

/// Parse the token `data[start .. end)` as a thickness: the `NaN` token
/// or a fixed-point value.
fn parse_thick_bytes(data: &Vec<u8>, start: usize, end: usize) -> (r: Option<Option<i128>>)
    requires
        start <= end <= data@.len(),
    ensures
        match r {
            Some(t) => spec_parse_thick(data@.subrange(start as int, end as int)) == Some(
                crate::finalize::opt_int(t),
            ),
            None => spec_parse_thick(data@.subrange(start as int, end as int)) is None,
        },
{
    let ghost tok = data@.subrange(start as int, end as int);
    if end - start == 3 && data[start] == 78 && data[start + 1] == 97 && data[start + 2] == 78 {
        proof {
            assert(tok =~= nan_token());
        }
        Some(None)
    } else {
        proof {
            assert(tok != nan_token()) by {
                if tok == nan_token() {
                    assert(tok.len() == 3);
                    assert(data@[start as int] == tok[0] && data@[start + 1] == tok[1] && data@[
                        start + 2
                    ] == tok[2]);
                }
            }
        }
        match parse_fixed_bytes(data, start, end) {
            Some(v) => Some(Some(v)),
            None => None,
        }
    }
}

/// Parse one data line `data[start .. end)` as a cell triple.
#[verifier::rlimit(100)]
#[verifier::spinoff_prover]
fn parse_line(data: &Vec<u8>, start: usize, end: usize) -> (r: Option<CellValue>)
    requires
        start <= end <= data@.len(),
    ensures
        match r {
            Some(c) => spec_parse_triple(data@.subrange(start as int, end as int)) == Some(c@),
            None => spec_parse_triple(data@.subrange(start as int, end as int)) is None,
        },
{
    let ghost line = data@.subrange(start as int, end as int);
    let a0 = skip_spaces_from(data, start, end);
    let ghost r1 = line.subrange(a0 - start, line.len() as int);
    let a1 = find_from(data, a0, end, 32);
    proof {
        assert(find_nonspace(line) == a0 - start);
        assert(r1 =~= data@.subrange(a0 as int, end as int));
        assert(find_byte(r1, 32u8) == a1 - a0);
    }
    if a1 == a0 {
        proof {
            reveal(spec_parse_triple);
            assert(spec_parse_triple(line) is None);
        }
        return None;
    }
    let ghost r2a = r1.subrange(a1 - a0, r1.len() as int);
    let b0 = skip_spaces_from(data, a1, end);
    let ghost r2 = r2a.subrange(b0 - a1, r2a.len() as int);
    let b1 = find_from(data, b0, end, 32);
    proof {
        assert(r2a =~= data@.subrange(a1 as int, end as int));
        assert(find_nonspace(r2a) == b0 - a1);
        assert(r2 =~= data@.subrange(b0 as int, end as int));
        assert(find_byte(r2, 32u8) == b1 - b0);
    }
    if b1 == b0 {
        proof {
            reveal(spec_parse_triple);
            assert(spec_parse_triple(line) is None);
        }
        return None;
    }
    let ghost r3a = r2.subrange(b1 - b0, r2.len() as int);
    let c0 = skip_spaces_from(data, b1, end);
    let ghost r3 = r3a.subrange(c0 - b1, r3a.len() as int);
    let c1 = find_from(data, c0, end, 32);
    proof {
        assert(r3a =~= data@.subrange(b1 as int, end as int));
        assert(find_nonspace(r3a) == c0 - b1);
        assert(r3 =~= data@.subrange(c0 as int, end as int));
        assert(find_byte(r3, 32u8) == c1 - c0);
    }
    if c1 == c0 {
        proof {
            reveal(spec_parse_triple);
            assert(spec_parse_triple(line) is None);
        }
        return None;
    }
    let ghost tail = r3.subrange(c1 - c0, r3.len() as int);
    let d0 = skip_spaces_from(data, c1, end);
    proof {
        assert(tail =~= data@.subrange(c1 as int, end as int));
        assert(find_nonspace(tail) == d0 - c1);
    }
    if d0 < end {
        proof {
            reveal(spec_parse_triple);
            assert(spec_parse_triple(line) is None);
        }
        return None;
    }
    let x = parse_fixed_bytes(data, a0, a1);
    let y = parse_fixed_bytes(data, b0, b1);
    let t = parse_thick_bytes(data, c0, c1);
    proof {
        assert(r1.subrange(0, a1 - a0) =~= data@.subrange(a0 as int, a1 as int));
        assert(r2.subrange(0, b1 - b0) =~= data@.subrange(b0 as int, b1 as int));
        assert(r3.subrange(0, c1 - c0) =~= data@.subrange(c0 as int, c1 as int));
    }
    match (x, y, t) {
        (Some(cx), Some(cy), Some(th)) => {
            let cell = CellValue { cx, cy, thickness: th };
            proof {
                reveal(spec_parse_triple);
                assert(spec_parse_triple(line) == Some(cell@));
            }
            Some(cell)
        },
        _ => {
            proof {
                reveal(spec_parse_triple);
                assert(spec_parse_triple(line) is None);
            }
            None
        },
    }
}

/// Parse a whole rendered map back into its cells. Comment, directive
/// and empty lines are skipped; `None` exactly when some data line is
/// malformed.
#[verifier::rlimit(100)]
pub fn parse_map(data: &Vec<u8>) -> (r: Option<Vec<CellValue>>)
    ensures
        match r {
            Some(cells) => spec_parse_lines(data@) == Some(cells@.map_values(|c: CellValue| c@)),
            None => spec_parse_lines(data@) is None,
        },
{
    let len = data.len();
    let mut acc: Vec<CellValue> = Vec::new();
    let mut pos: usize = 0;
    proof {
        assert(data@.subrange(0, len as int) =~= data@);
        assert(acc@.map_values(|c: CellValue| c@) =~= Seq::<FinalCell>::empty());
        if spec_parse_lines(data@) is Some {
            assert(Seq::<FinalCell>::empty() + spec_parse_lines(data@).unwrap()
                =~= spec_parse_lines(data@).unwrap());
        }
    }
    while pos < len
        invariant
            pos <= len,
            len == data@.len(),
            match spec_parse_lines(data@.subrange(pos as int, len as int)) {
                Some(t) => spec_parse_lines(data@) == Some(acc@.map_values(|c: CellValue| c@) + t),
                None => spec_parse_lines(data@) is None,
            },
        decreases len - pos,
    {
        let ghost rem = data@.subrange(pos as int, len as int);
        let k = find_from(data, pos, len, 10);
        let next = if k < len {
            k + 1
        } else {
            len
        };
        let ghost line = rem.subrange(0, k - pos);
        let ghost rest = data@.subrange(next as int, len as int);
        proof {
            assert(line =~= data@.subrange(pos as int, k as int));
            if k < len {
                assert(rem.subrange(k - pos + 1, rem.len() as int) =~= rest);
            } else {
                assert(rest =~= Seq::<u8>::empty());
            }
            assert(find_byte(rem, 10u8) == k - pos);
        }
        if k == pos || data[pos] == 35 || data[pos] == 64 || data[pos] == 36 {
            proof {
                if k > pos {
                    assert(line[0] == data@[pos as int]);
                }
                assert(is_skip_line(line));
                assert(spec_parse_lines(rem) == spec_parse_lines(rest));
            }
            pos = next;
        } else {
            proof {
                assert(line[0] == data@[pos as int]);
                assert(!is_skip_line(line));
            }
            match parse_line(data, pos, k) {
                Some(cell) => {
                    proof {
                        assert(data@.subrange(pos as int, k as int) =~= line);
                        let old_model = acc@.map_values(|c: CellValue| c@);
                        assert(acc@.push(cell).map_values(|c: CellValue| c@) =~= old_model.push(
                            cell@,
                        ));
                        match spec_parse_lines(rest) {
                            Some(t2) => {
                                assert(spec_parse_lines(rem) == Some(seq![cell@] + t2));
                                assert(old_model + (seq![cell@] + t2) =~= old_model.push(cell@)
                                    + t2);
                            },
                            None => {},
                        }
                    }
                    acc.push(cell);
                    pos = next;
                },
                None => {
                    proof {
                        assert(data@.subrange(pos as int, k as int) =~= line);
                        assert(spec_parse_triple(line) is None);
                        assert(spec_parse_lines(rem) is None);
                    }
                    return None;
                },
            }
        }
    }
    proof {
        assert(data@.subrange(len as int, len as int) =~= Seq::<u8>::empty());
        assert(spec_parse_lines(Seq::<u8>::empty()) == Some(Seq::<FinalCell>::empty()));
        assert(acc@.map_values(|c: CellValue| c@) + Seq::<FinalCell>::empty() =~= acc@.map_values(
            |c: CellValue| c@,
        ));
    }
    Some(acc)
}

/// Finalize an accumulated map and render it whole: the given header
/// lines, one line per cell in row-major order, and the average
/// thickness as a trailing labelled comment. Parsing the result yields
/// exactly the finalized cells, thickness at the declared precision.
pub fn render_thickness_map(
    map: &crate::accum::ThicknessMap,
    nan_limit: u64,
    headers: &Vec<Vec<u8>>,
) -> (r: Vec<u8>)
    requires
        map.wf(),
        nan_limit >= 1,
        forall|i: int| 0 <= i < headers@.len() ==> wf_header(#[trigger] headers@[i]@),
    ensures
        r@ == spec_render_map(
            headers@.map_values(|h: Vec<u8>| h@),
            crate::finalize::spec_finalized(map@, nan_limit as nat),
            crate::finalize::spec_global_average(
                crate::finalize::spec_finalized(map@, nan_limit as nat),
            ),
        ),
{
    let cells = crate::finalize::finalize_cells(map, nan_limit);
    proof {
        assert(cells@.map_values(|c: CellValue| c@) =~= crate::finalize::spec_finalized(
            map@,
            nan_limit as nat,
        ));
    }
    let avg = crate::finalize::global_average(&cells);
    proof {
        assert(crate::finalize::opt_int(avg) == crate::finalize::spec_global_average(
            cells@.map_values(|c: CellValue| c@),
        ));
    }
    render_map(headers, &cells, avg)
}

} // verus!
