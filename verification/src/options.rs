//! Command-line option parsing: the argument grammar of a run, over plain
//! byte strings, with numerals read into fixed-point scalars.

use vstd::prelude::*;
use crate::scalar::SCALE;
use crate::swarm::to_ints;

verus! {

/// ASCII decimal digit.
pub open spec fn is_digit(b: u8) -> bool {
    48 <= b <= 57
}

/// Every byte is an ASCII decimal digit.
pub open spec fn all_digits(s: Seq<u8>) -> bool {
    forall|i: int| 0 <= i < s.len() ==> is_digit(s[i])
}

/// The number a digit string denotes, most significant digit first.
pub open spec fn digits_value(s: Seq<u8>) -> int
    decreases s.len(),
{
    if s.len() == 0 {
        0
    } else {
        digits_value(s.drop_last()) * 10 + (s.last() - 48)
    }
}

/// Ten to the `k`.
pub open spec fn pow10(k: nat) -> int
    decreases k,
{
    if k == 0 {
        1
    } else {
        10 * pow10((k - 1) as nat)
    }
}

/// A digit string's value is non-negative, and no prefix exceeds it.
pub proof fn lemma_digits_value_extend(s: Seq<u8>, j: int)
    requires
        all_digits(s),
        0 <= j <= s.len(),
    ensures
        digits_value(s) >= digits_value(s.take(j)),
        digits_value(s) >= 0,
    decreases s.len(),
{
    if s.len() == 0 {
        assert(s.take(j) =~= s);
    } else {
        let t = s.drop_last();
        assert(all_digits(t)) by {
            assert(forall|i: int| 0 <= i < t.len() ==> t[i] == s[i]);
        }
        lemma_digits_value_extend(t, if j <= t.len() { j } else { t.len() as int });
        assert(digits_value(s) == digits_value(t) * 10 + (s.last() - 48));
        assert(is_digit(s.last()));
        if j == s.len() {
            assert(s.take(j) =~= s);
        } else {
            assert(s.take(j) =~= t.take(j));
        }
    }
}

/// A string of `n` digits denotes a value below ten to the `n`.
pub proof fn lemma_digits_value_bound(s: Seq<u8>)
    requires
        all_digits(s),
    ensures
        0 <= digits_value(s) < pow10(s.len()),
    decreases s.len(),
{
    if s.len() > 0 {
        let t = s.drop_last();
        assert(all_digits(t)) by {
            assert(forall|i: int| 0 <= i < t.len() ==> t[i] == s[i]);
        }
        lemma_digits_value_bound(t);
        assert(is_digit(s.last()));
    }
}

/// A non-empty all-digit string whose value fits a `u64`.
pub open spec fn is_u64_numeral(s: Seq<u8>) -> bool {
    &&& s.len() > 0
    &&& all_digits(s)
    &&& digits_value(s) <= u64::MAX
}

/// A non-empty all-digit string whose value fits a `usize`.
pub open spec fn is_count_numeral(s: Seq<u8>) -> bool {
    &&& s.len() > 0
    &&& all_digits(s)
    &&& digits_value(s) <= usize::MAX
}

/// Reads an unsigned numeral; `None` exactly when the bytes are not a
/// non-empty digit string or the value overflows a `u64`.
pub fn parse_u64(s: &Vec<u8>) -> (r: Option<u64>)
    ensures
        match r {
            Option::Some(v) => is_u64_numeral(s@) && v as int == digits_value(s@),
            Option::None => !is_u64_numeral(s@),
        },
{
    if s.len() == 0 {
        return Option::None;
    }
    let mut acc: u64 = 0;
    let mut i: usize = 0;
    while i < s.len()
        invariant
            0 <= i <= s@.len(),
            s@.len() > 0,
            all_digits(s@.take(i as int)),
            acc as int == digits_value(s@.take(i as int)),
        decreases s@.len() - i,
    {
        let b = s[i];
        if b < 48 || b > 57 {
            proof {
                assert(!is_digit(s@[i as int]));
            }
            return Option::None;
        }
        let d = (b - 48) as u64;
        let lim = (u64::MAX - d) / 10;
        proof {
            assert(s@.take(i as int + 1).drop_last() =~= s@.take(i as int));
            assert(s@.take(i as int + 1).last() == s@[i as int]);
            assert(all_digits(s@.take(i as int + 1)));
        }
        if acc > lim {
            proof {
                let mi = (u64::MAX - d) as int;
                vstd::arithmetic::div_mod::lemma_fundamental_div_mod(mi, 10);
                assert(acc as int * 10 + d as int > u64::MAX as int);
                assert(digits_value(s@.take(i as int + 1)) > u64::MAX as int);
                if all_digits(s@) {
                    lemma_digits_value_extend(s@, i as int + 1);
                }
            }
            return Option::None;
        }
        acc = acc * 10 + d;
        i += 1;
    }
    proof {
        assert(s@.take(s@.len() as int) =~= s@);
    }
    Option::Some(acc)
}

/// Reads a particle count; `None` exactly when the bytes are not a
/// non-empty digit string or the value overflows a `usize`.
pub fn parse_count(s: &Vec<u8>) -> (r: Option<usize>)
    ensures
        match r {
            Option::Some(v) => is_count_numeral(s@) && v as int == digits_value(s@),
            Option::None => !is_count_numeral(s@),
        },
{
    match parse_u64(s) {
        Option::Some(v) => {
            if v <= usize::MAX as u64 {
                Option::Some(v as usize)
            } else {
                Option::None
            }
        },
        Option::None => {
            proof {
                if is_count_numeral(s@) {
                    assert(digits_value(s@) <= usize::MAX <= u64::MAX);
                }
            }
            Option::None
        },
    }
}

/// Shape of an unsigned decimal numeral whose dot sits at `k` (`k` equal to
/// the length means no dot): digits, then optionally a dot and up to six
/// fraction digits.  Either side of the dot may be empty (`.5`, `1.`), but
/// not both: at least one digit must appear.
pub open spec fn decimal_shape_at(s: Seq<u8>, k: int) -> bool {
    if k == s.len() {
        s.len() > 0 && all_digits(s)
    } else {
        &&& 0 <= k < s.len()
        &&& s[k] == 46
        &&& s.len() > 1
        &&& all_digits(s.take(k))
        &&& s.len() - k - 1 <= 6
        &&& all_digits(s.skip(k + 1))
    }
}

/// An unsigned decimal numeral.
pub open spec fn is_decimal(s: Seq<u8>) -> bool {
    exists|k: int| 0 <= k <= s.len() && decimal_shape_at(s, k)
}

/// The fixed-point value of a decimal numeral whose dot sits at `k`.
pub open spec fn decimal_value_at(s: Seq<u8>, k: int) -> int {
    if k == s.len() {
        digits_value(s) * SCALE
    } else {
        digits_value(s.take(k)) * SCALE + digits_value(s.skip(k + 1)) * pow10(
            (6 - (s.len() - k - 1)) as nat,
        )
    }
}

/// The fixed-point value of a decimal numeral.
pub open spec fn decimal_value(s: Seq<u8>) -> int {
    decimal_value_at(s, choose|k: int| 0 <= k <= s.len() && decimal_shape_at(s, k))
}

/// A decimal numeral has exactly one possible dot position.
pub proof fn lemma_decimal_shape_unique(s: Seq<u8>, k1: int, k2: int)
    requires
        0 <= k1 <= s.len(),
        0 <= k2 <= s.len(),
        decimal_shape_at(s, k1),
        decimal_shape_at(s, k2),
    ensures
        k1 == k2,
{
    if k1 < k2 {
        if k2 == s.len() {
            assert(is_digit(s[k1]));
        } else {
            assert(is_digit(s.take(k2)[k1]));
        }
    } else if k2 < k1 {
        if k1 == s.len() {
            assert(is_digit(s[k2]));
        } else {
            assert(is_digit(s.take(k1)[k2]));
        }
    }
}

/// A witnessed dot position determines the numeral's value.
pub proof fn lemma_decimal_value_is(s: Seq<u8>, k: int)
    requires
        0 <= k <= s.len(),
        decimal_shape_at(s, k),
    ensures
        is_decimal(s),
        decimal_value(s) == decimal_value_at(s, k),
{
    let kc = choose|kc: int| 0 <= kc <= s.len() && decimal_shape_at(s, kc);
    lemma_decimal_shape_unique(s, kc, k);
}

/// With the first dot at `dotp`, no other position can satisfy the decimal
/// shape.
pub proof fn lemma_decimal_dot(s: Seq<u8>, dotp: int)
    requires
        0 <= dotp < s.len(),
        s[dotp] == 46,
        forall|j: int| 0 <= j < dotp ==> s[j] != 46,
    ensures
        forall|k: int| 0 <= k <= s.len() && decimal_shape_at(s, k) ==> k == dotp,
{
    assert forall|k: int| 0 <= k <= s.len() && decimal_shape_at(s, k) implies k == dotp by {
        if k != dotp {
            if k == s.len() {
                assert(is_digit(s[dotp]));
            } else if k < dotp {
                assert(s[k] == 46);
            } else {
                assert(is_digit(s.take(k)[dotp]));
            }
        }
    }
}

/// Reads an unsigned decimal numeral into fixed-point units, exactly: six
/// fraction digits at most, so nothing is rounded.  `None` exactly when the
/// shape is wrong or the value overflows an `i64`.
pub fn parse_decimal(s: &Vec<u8>) -> (r: Option<i64>)
    ensures
        match r {
            Option::Some(v) => is_decimal(s@) && v >= 0 && v as int == decimal_value(s@),
            Option::None => !is_decimal(s@) || decimal_value(s@) > i64::MAX,
        },
{
    // Locate the first dot, if any.
    let mut dot: usize = s.len();
    let mut i: usize = 0;
    while i < s.len()
        invariant
            0 <= i <= s@.len(),
            dot == s@.len() || (0 <= dot < i && s@[dot as int] == 46 && forall|j: int|
                0 <= j < dot ==> s@[j] != 46),
            dot == s@.len() ==> forall|j: int| 0 <= j < i ==> s@[j] != 46,
        decreases s@.len() - i,
    {
        if s[i] == 46 && dot == s.len() {
            dot = i;
        }
        i += 1;
    }
    if dot == s.len() {
        // No dot: an integer numeral, scaled.
        match parse_u64(s) {
            Option::Some(v) => {
                let lim = (i64::MAX as u64) / (SCALE as u64);
                proof {
                    vstd::arithmetic::div_mod::lemma_fundamental_div_mod(i64::MAX as int, SCALE as int);
                    lemma_decimal_value_is(s@, s@.len() as int);
                }
                if v <= lim {
                    Option::Some((v * (SCALE as u64)) as i64)
                } else {
                    Option::None
                }
            },
            Option::None => {
                proof {
                    if is_decimal(s@) {
                        let k = choose|k: int| 0 <= k <= s@.len() && decimal_shape_at(s@, k);
                        assert(k == s@.len());
                        lemma_decimal_value_is(s@, k);
                        assert(digits_value(s@) > u64::MAX);
                        assert(digits_value(s@) * SCALE >= digits_value(s@) * 1) by (nonlinear_arith)
                            requires
                                digits_value(s@) >= 0,
                        ;
                    }
                }
                Option::None
            },
        }
    } else {
        if s.len() == 1 {
            // A lone dot has no digit on either side.
            proof {
                lemma_decimal_dot(s@, 0);
            }
            return Option::None;
        }
        let flen = s.len() - dot - 1;
        if flen > 6 {
            proof {
                lemma_decimal_dot(s@, dot as int);
            }
            return Option::None;
        }
        // Copy out the two digit groups; either may be empty.
        let mut ip: Vec<u8> = Vec::new();
        let mut j: usize = 0;
        while j < dot
            invariant
                0 <= j <= dot,
                dot <= s@.len(),
                ip@ =~= s@.subrange(0, j as int),
            decreases dot - j,
        {
            ip.push(s[j]);
            j += 1;
        }
        let mut fp: Vec<u8> = Vec::new();
        j = dot + 1;
        while j < s.len()
            invariant
                dot + 1 <= j <= s@.len(),
                fp@ =~= s@.subrange(dot + 1, j as int),
            decreases s@.len() - j,
        {
            fp.push(s[j]);
            j += 1;
        }
        proof {
            assert(ip@ =~= s@.take(dot as int));
            assert(fp@ =~= s@.skip(dot as int + 1));
            lemma_decimal_dot(s@, dot as int);
        }
        let iv: u64 = if dot == 0 {
            proof {
                assert(ip@.len() == 0);
                assert(digits_value(ip@) == 0);
            }
            0
        } else {
            match parse_u64(&ip) {
                Option::Some(v) => v,
                Option::None => {
                    proof {
                        if is_decimal(s@) {
                            let k = choose|k: int| 0 <= k <= s@.len() && decimal_shape_at(s@, k);
                            assert(k == dot as int);
                            lemma_decimal_value_is(s@, k);
                            assert(digits_value(ip@) > u64::MAX);
                            assert(digits_value(ip@) * SCALE >= digits_value(ip@) * 1)
                                by (nonlinear_arith)
                                requires
                                    digits_value(ip@) >= 0,
                            ;
                            assert(fp@ == s@.skip(dot as int + 1));
                            lemma_digits_value_bound(fp@);
                            lemma_pow10_pos((6 - flen) as nat);
                            assert(digits_value(fp@) * pow10((6 - flen) as nat) >= 0)
                                by (nonlinear_arith)
                                requires
                                    digits_value(fp@) >= 0,
                                    pow10((6 - flen) as nat) >= 0,
                            ;
                        }
                    }
                    return Option::None;
                },
            }
        };
        let fv: u64 = if flen == 0 {
            proof {
                assert(fp@.len() == 0);
                assert(digits_value(fp@) == 0);
            }
            0
        } else {
            match parse_u64(&fp) {
                Option::Some(v) => v,
                Option::None => {
                    proof {
                        if all_digits(fp@) {
                            lemma_digits_value_bound(fp@);
                            lemma_pow10_le(fp@.len(), 6);
                            assert(pow10(6) == 1_000_000) by {
                                assert(pow10(0) == 1);
                                assert(pow10(1) == 10);
                                assert(pow10(2) == 100);
                                assert(pow10(3) == 1_000);
                                assert(pow10(4) == 10_000);
                                assert(pow10(5) == 100_000);
                            }
                            assert(is_u64_numeral(fp@));
                        }
                    }
                    return Option::None;
                },
            }
        };
        let mult: u64 = if flen == 0 {
            1_000_000
        } else if flen == 1 {
            100_000
        } else if flen == 2 {
            10_000
        } else if flen == 3 {
            1_000
        } else if flen == 4 {
            100
        } else if flen == 5 {
            10
        } else {
            1
        };
        proof {
            assert(pow10(0) == 1);
            assert(pow10(1) == 10);
            assert(pow10(2) == 100);
            assert(pow10(3) == 1_000);
            assert(pow10(4) == 10_000);
            assert(pow10(5) == 100_000);
            assert(pow10(6) == 1_000_000);
            assert(mult as int == pow10((6 - flen) as nat));
            assert(iv as int == digits_value(ip@));
            assert(all_digits(ip@));
            assert(fv as int == digits_value(fp@));
            assert(all_digits(fp@));
            lemma_digits_value_bound(fp@);
            lemma_pow10_le(fp@.len(), 6);
            assert(decimal_shape_at(s@, dot as int));
            lemma_decimal_value_is(s@, dot as int);
            assert((fv as int) * (mult as int) <= 1_000_000 * 1_000_000)
                by (nonlinear_arith)
                requires
                    0 <= fv as int <= 1_000_000,
                    0 <= mult as int <= 1_000_000,
            ;
            assert((fv as int) * (mult as int) >= 0) by (nonlinear_arith)
                requires
                    0 <= fv as int,
                    0 <= mult as int,
            ;
        }
        let total: u128 = (iv as u128) * 1_000_000u128 + (fv as u128) * (mult as u128);
        if total > i64::MAX as u128 {
            Option::None
        } else {
            Option::Some(total as i64)
        }
    }
}

/// Ten to the `k` is positive.
pub proof fn lemma_pow10_pos(k: nat)
    ensures
        pow10(k) >= 1,
    decreases k,
{
    if k > 0 {
        lemma_pow10_pos((k - 1) as nat);
    }
}

/// Ten to the `a` is at most ten to the `b` when `a <= b`.
pub proof fn lemma_pow10_le(a: nat, b: nat)
    requires
        a <= b,
    ensures
        pow10(a) <= pow10(b),
    decreases b,
{
    if a < b {
        lemma_pow10_le(a, (b - 1) as nat);
        lemma_pow10_pos((b - 1) as nat);
    }
}

/// A signed decimal numeral: an optional leading minus sign, then an
/// unsigned decimal numeral.
pub open spec fn is_signed_decimal(s: Seq<u8>) -> bool {
    if s.len() > 0 && s[0] == 45 {
        is_decimal(s.skip(1))
    } else {
        is_decimal(s)
    }
}

/// The fixed-point value of a signed decimal numeral.
pub open spec fn signed_value(s: Seq<u8>) -> int {
    if s.len() > 0 && s[0] == 45 {
        -decimal_value(s.skip(1))
    } else {
        decimal_value(s)
    }
}

/// A signed decimal numeral whose fixed-point value fits an `i64` scalar.
pub open spec fn is_scalar_numeral(s: Seq<u8>) -> bool {
    &&& is_signed_decimal(s)
    &&& -i64::MAX <= signed_value(s) <= i64::MAX
}

/// Reads a signed decimal numeral into a fixed-point scalar; `None` exactly
/// when the bytes are not a scalar numeral.
pub fn parse_scalar(s: &Vec<u8>) -> (r: Option<i64>)
    ensures
        match r {
            Option::Some(v) => is_scalar_numeral(s@) && v as int == signed_value(s@),
            Option::None => !is_scalar_numeral(s@),
        },
{
    if s.len() > 0 && s[0] == 45 {
        let mut t: Vec<u8> = Vec::new();
        let mut j: usize = 1;
        while j < s.len()
            invariant
                1 <= j <= s@.len(),
                t@ =~= s@.subrange(1, j as int),
            decreases s@.len() - j,
        {
            t.push(s[j]);
            j += 1;
        }
        proof {
            assert(t@ =~= s@.skip(1));
        }
        match parse_decimal(&t) {
            Option::Some(v) => Option::Some(-v),
            Option::None => Option::None,
        }
    } else {
        match parse_decimal(s) {
            Option::Some(v) => Option::Some(v),
            Option::None => Option::None,
        }
    }
}

/// Index of the first comma, or the length when there is none.
pub open spec fn first_comma(s: Seq<u8>) -> int
    decreases s.len(),
{
    if s.len() == 0 {
        0
    } else if s[0] == 44 {
        0
    } else {
        1 + first_comma(s.drop_first())
    }
}

/// A scan that finds no comma before `c`, and a comma (or the end) at `c`,
/// has found the first comma.
pub proof fn lemma_first_comma_is(s: Seq<u8>, c: int)
    requires
        0 <= c <= s.len(),
        forall|j: int| 0 <= j < c ==> s[j] != 44,
        c < s.len() ==> s[c] == 44,
    ensures
        first_comma(s) == c,
    decreases s.len(),
{
    if s.len() > 0 && c > 0 {
        assert(forall|j: int| 0 <= j < s.drop_first().len() ==> s.drop_first()[j] == s[j + 1]);
        lemma_first_comma_is(s.drop_first(), c - 1);
    }
}

/// The comma-separated fields of a byte string; a string with no comma is
/// one field, and every comma separates two fields, possibly empty.
pub open spec fn split_commas(s: Seq<u8>) -> Seq<Seq<u8>>
    decreases s.len(),
{
    let c = first_comma(s);
    if 0 <= c < s.len() {
        seq![s.take(c)] + split_commas(s.skip(c + 1))
    } else {
        seq![s]
    }
}

/// A split always has at least one field.
pub proof fn lemma_split_commas_nonempty(s: Seq<u8>)
    ensures
        split_commas(s).len() >= 1,
{
}

/// The first field that is not a scalar numeral (the empty string when all
/// of them are).
pub open spec fn first_invalid(segs: Seq<Seq<u8>>) -> Seq<u8>
    decreases segs.len(),
{
    if segs.len() == 0 {
        Seq::empty()
    } else if !is_scalar_numeral(segs[0]) {
        segs[0]
    } else {
        first_invalid(segs.drop_first())
    }
}

/// When the fields before `t` are scalar numerals and field `t` is not,
/// field `t` is the first invalid one.
pub proof fn lemma_first_invalid_at(segs: Seq<Seq<u8>>, t: int)
    requires
        0 <= t < segs.len(),
        !is_scalar_numeral(segs[t]),
        forall|u: int| 0 <= u < t ==> is_scalar_numeral(segs[u]),
    ensures
        first_invalid(segs) == segs[t],
    decreases segs.len(),
{
    if t > 0 {
        assert(forall|j: int|
            0 <= j < segs.drop_first().len() ==> segs.drop_first()[j] == segs[j + 1]);
        lemma_first_invalid_at(segs.drop_first(), t - 1);
    }
}

/// Every comma-separated field is a scalar numeral.
pub open spec fn is_scalar_list(s: Seq<u8>) -> bool {
    forall|t: int|
        0 <= t < split_commas(s).len() ==> is_scalar_numeral(split_commas(s)[t])
}

/// The fixed-point values of the comma-separated fields.
pub open spec fn scalar_list_values(s: Seq<u8>) -> Seq<int> {
    split_commas(s).map_values(|seg: Seq<u8>| signed_value(seg))
}

/// Field `t` of the split has been read correctly into `out`.
pub open spec fn field_read(full: Seq<Seq<u8>>, out: Seq<i64>, t: int) -> bool {
    &&& is_scalar_numeral(full[t])
    &&& out[t] as int == signed_value(full[t])
}

/// Reads a comma-separated list of scalar numerals; on failure the first
/// field that is not one is reported.
#[verifier::loop_isolation(false)]
#[verifier::rlimit(30)]
pub fn parse_scalar_list(s: &Vec<u8>) -> (r: Result<Vec<i64>, Vec<u8>>)
    ensures
        match r {
            Result::Ok(vs) => is_scalar_list(s@) && to_ints(vs@) == scalar_list_values(s@),
            Result::Err(b) => !is_scalar_list(s@) && b@ == first_invalid(split_commas(s@)),
        },
{
    let ghost full = split_commas(s@);
    let mut out: Vec<i64> = Vec::new();
    let mut start: usize = 0;
    proof {
        assert(full.skip(0) =~= full);
        assert(s@.skip(0) =~= s@);
    }
    loop
        invariant
            0 <= start <= s@.len(),
            full == split_commas(s@),
            out@.len() <= full.len(),
            full.skip(out@.len() as int) == split_commas(s@.skip(start as int)),
            forall|t: int| 0 <= t < out@.len() ==> #[trigger] field_read(full, out@, t),
        decreases s@.len() - start,
    {
        // Find the end of the current field.
        let mut end: usize = start;
        while end < s.len() && s[end] != 44
            invariant
                start <= end <= s@.len(),
                forall|j: int| start <= j < end ==> s@[j] != 44,
            decreases s@.len() - end,
        {
            end += 1;
        }
        // Copy the field out.
        let mut seg: Vec<u8> = Vec::new();
        let mut j: usize = start;
        while j < end
            invariant
                start <= j <= end,
                end <= s@.len(),
                seg@ =~= s@.subrange(start as int, j as int),
            decreases end - j,
        {
            seg.push(s[j]);
            j += 1;
        }
        proof {
            let tail = s@.skip(start as int);
            assert(forall|j: int| 0 <= j < tail.len() ==> tail[j] == s@[start + j]);
            lemma_first_comma_is(tail, end - start);
            assert(tail.take(end - start) =~= s@.subrange(start as int, end as int));
            assert(seg@ =~= s@.subrange(start as int, end as int));
            if (end as int) < s@.len() {
                assert(tail.skip(end - start + 1) =~= s@.skip(end as int + 1));
                assert(split_commas(tail) == seq![seg@] + split_commas(s@.skip(end as int + 1)));
            } else {
                assert(tail =~= seg@);
                assert(split_commas(tail) == seq![seg@]);
            }
            lemma_split_commas_nonempty(s@.skip(start as int));
            assert(out@.len() < full.len());
            assert(full.skip(out@.len() as int)[0] == seg@);
            assert(full[out@.len() as int] == seg@);
        }
        match parse_scalar(&seg) {
            Option::None => {
                proof {
                    assert forall|u: int| 0 <= u < out@.len() implies is_scalar_numeral(
                        full[u],
                    ) by {
                        assert(field_read(full, out@, u));
                    }
                    lemma_first_invalid_at(full, out@.len() as int);
                }
                return Result::Err(seg);
            },
            Option::Some(v) => {
                let ghost donepre = out@.len() as int;
                let ghost outpre = out@;
                out.push(v);
                proof {
                    assert(out@ == outpre.push(v));
                    assert forall|t: int| 0 <= t < out@.len() implies #[trigger] field_read(
                        full,
                        out@,
                        t,
                    ) by {
                        if t == donepre {
                            assert(full[t] == seg@);
                            assert(out@[t] == v);
                        } else {
                            assert(out@[t] == outpre[t]);
                            assert(field_read(full, outpre, t));
                        }
                    }
                }
                if end == s.len() {
                    proof {
                        assert(full.skip(donepre).len() == 1);
                        assert(out@.len() == full.len());
                        assert forall|t: int| 0 <= t < full.len() implies is_scalar_numeral(
                            split_commas(s@)[t],
                        ) by {
                            assert(field_read(full, out@, t));
                        }
                        assert forall|t: int| 0 <= t < out@.len() implies to_ints(out@)[t]
                            == scalar_list_values(s@)[t] by {
                            assert(field_read(full, out@, t));
                        }
                        assert(to_ints(out@) =~= scalar_list_values(s@));
                    }
                    return Result::Ok(out);
                }
                proof {
                    let rest = split_commas(s@.skip(end as int + 1));
                    assert(full.skip(donepre + 1) =~= full.skip(donepre).drop_first());
                    assert((seq![seg@] + rest).drop_first() =~= rest);
                    assert(full.skip(out@.len() as int) == rest);
                }
                start = end + 1;
            },
        }
    }
}

/// The spelling of the particle-count flag, `-n`.
pub open spec fn flag_n() -> Seq<u8> {
    seq![45u8, 110u8]
}

/// The spelling of the iteration-count flag, `-i`.
pub open spec fn flag_i() -> Seq<u8> {
    seq![45u8, 105u8]
}

/// The spelling of the error-threshold flag, `-e`.
pub open spec fn flag_e() -> Seq<u8> {
    seq![45u8, 101u8]
}

/// The spelling of the verbose flag, `-v`.
pub open spec fn flag_v() -> Seq<u8> {
    seq![45u8, 118u8]
}

/// The spelling of the seed flag, `--seed`.
pub open spec fn flag_seed() -> Seq<u8> {
    seq![45u8, 45u8, 115u8, 101u8, 101u8, 100u8]
}

/// The spelling of the initial-positions flag, `--init`.
pub open spec fn flag_init() -> Seq<u8> {
    seq![45u8, 45u8, 105u8, 110u8, 105u8, 116u8]
}

/// The spelling of the initial-velocities flag, `--vinit`.
pub open spec fn flag_vinit() -> Seq<u8> {
    seq![45u8, 45u8, 118u8, 105u8, 110u8, 105u8, 116u8]
}

/// The partial options accumulated while scanning the arguments.
pub ghost struct OptState {
    pub n: Option<int>,
    pub iters: Option<int>,
    pub threshold: int,
    pub verbose: bool,
    pub seed: Option<int>,
    pub init: Option<Seq<int>>,
    pub vinit: Option<Seq<int>>,
}

/// An argument-parsing failure, with the offending token.
pub ghost enum ParseFault {
    Missing(Seq<u8>),
    BadCount(Seq<u8>),
    BadIterations(Seq<u8>),
    BadThreshold(Seq<u8>),
    BadSeed(Seq<u8>),
    BadArgument(Seq<u8>),
}

/// What a scan of the arguments yields.
pub ghost enum ParseOutcome {
    Done(OptState),
    Failed(ParseFault),
}

/// The options before any argument is read: no particle count, no
/// iteration count, the default threshold of one ten-thousandth, quiet, no
/// seed, no explicit positions or velocities.
pub open spec fn start_state() -> OptState {
    OptState {
        n: Option::None,
        iters: Option::None,
        threshold: 100,
        verbose: false,
        seed: Option::None,
        init: Option::None,
        vinit: Option::None,
    }
}

/// The argument grammar: what scanning the arguments from position `i`
/// onward, with `st` already accumulated, yields.  Flags may repeat, the
/// later occurrence winning, exactly as a left-to-right scan reads them.
/// The error threshold must be a positive real: zero or negative values
/// are refused as a bad threshold.
pub open spec fn parse_spec(args: Seq<Seq<u8>>, i: int, st: OptState) -> ParseOutcome
    decreases args.len() - i,
{
    if i >= args.len() {
        match st.n {
            Option::Some(_) => ParseOutcome::Done(st),
            Option::None => ParseOutcome::Failed(ParseFault::Missing(flag_n())),
        }
    } else {
        let a = args[i];
        if a == flag_n() {
            if i + 1 >= args.len() {
                ParseOutcome::Failed(ParseFault::Missing(flag_n()))
            } else if is_count_numeral(args[i + 1]) {
                parse_spec(
                    args,
                    i + 2,
                    OptState { n: Option::Some(digits_value(args[i + 1])), ..st },
                )
            } else {
                ParseOutcome::Failed(ParseFault::BadCount(args[i + 1]))
            }
        } else if a == flag_i() {
            if i + 1 >= args.len() {
                ParseOutcome::Failed(ParseFault::Missing(flag_i()))
            } else if is_count_numeral(args[i + 1]) {
                parse_spec(
                    args,
                    i + 2,
                    OptState { iters: Option::Some(digits_value(args[i + 1])), ..st },
                )
            } else {
                ParseOutcome::Failed(ParseFault::BadIterations(args[i + 1]))
            }
        } else if a == flag_e() {
            if i + 1 >= args.len() {
                ParseOutcome::Failed(ParseFault::Missing(flag_e()))
            } else if is_scalar_numeral(args[i + 1]) && signed_value(args[i + 1]) > 0 {
                parse_spec(args, i + 2, OptState { threshold: signed_value(args[i + 1]), ..st })
            } else {
                ParseOutcome::Failed(ParseFault::BadThreshold(args[i + 1]))
            }
        } else if a == flag_v() {
            parse_spec(args, i + 1, OptState { verbose: true, ..st })
        } else if a == flag_seed() {
            if i + 1 >= args.len() {
                ParseOutcome::Failed(ParseFault::Missing(flag_seed()))
            } else if is_u64_numeral(args[i + 1]) {
                parse_spec(
                    args,
                    i + 2,
                    OptState { seed: Option::Some(digits_value(args[i + 1])), ..st },
                )
            } else {
                ParseOutcome::Failed(ParseFault::BadSeed(args[i + 1]))
            }
        } else if a == flag_init() {
            if i + 1 >= args.len() {
                ParseOutcome::Failed(ParseFault::Missing(flag_init()))
            } else if is_scalar_list(args[i + 1]) {
                parse_spec(
                    args,
                    i + 2,
                    OptState { init: Option::Some(scalar_list_values(args[i + 1])), ..st },
                )
            } else {
                ParseOutcome::Failed(
                    ParseFault::BadArgument(first_invalid(split_commas(args[i + 1]))),
                )
            }
        } else if a == flag_vinit() {
            if i + 1 >= args.len() {
                ParseOutcome::Failed(ParseFault::Missing(flag_vinit()))
            } else if is_scalar_list(args[i + 1]) {
                parse_spec(
                    args,
                    i + 2,
                    OptState { vinit: Option::Some(scalar_list_values(args[i + 1])), ..st },
                )
            } else {
                ParseOutcome::Failed(
                    ParseFault::BadArgument(first_invalid(split_commas(args[i + 1]))),
                )
            }
        } else {
            ParseOutcome::Failed(ParseFault::BadArgument(a))
        }
    }
}

/// Everything one run needs, decoded from the command line.
#[derive(Debug)]
pub struct RunOptions {
    pub n: usize,
    pub iterations: Option<usize>,
    pub threshold: i64,
    pub verbose: bool,
    pub seed: Option<u64>,
    pub init: Option<Vec<i64>>,
    pub vinit: Option<Vec<i64>>,
}

/// An argument-parsing failure, carrying the offending token's bytes.
#[derive(Debug)]
pub enum ParseError {
    MissingArgument(Vec<u8>),
    InvalidParticleNumber(Vec<u8>),
    InvalidIterations(Vec<u8>),
    InvalidThreshold(Vec<u8>),
    InvalidSeed(Vec<u8>),
    InvalidArgument(Vec<u8>),
}

/// The contents of an optional vector of scalars.
pub open spec fn opt_ints(v: Option<Vec<i64>>) -> Option<Seq<int>> {
    match v {
        Option::Some(x) => Option::Some(to_ints(x@)),
        Option::None => Option::None,
    }
}

/// Whether decoded options denote an accumulated state.
pub open spec fn options_match(o: RunOptions, st: OptState) -> bool {
    &&& st.n == Option::Some(o.n as int)
    &&& (match (o.iterations, st.iters) {
        (Option::Some(a), Option::Some(b)) => a as int == b,
        (Option::None, Option::None) => true,
        _ => false,
    })
    &&& o.threshold as int == st.threshold
    &&& o.verbose == st.verbose
    &&& (match (o.seed, st.seed) {
        (Option::Some(a), Option::Some(b)) => a as int == b,
        (Option::None, Option::None) => true,
        _ => false,
    })
    &&& opt_ints(o.init) == st.init
    &&& opt_ints(o.vinit) == st.vinit
}

/// Whether a reported error denotes a fault of the grammar.
pub open spec fn fault_matches(e: ParseError, f: ParseFault) -> bool {
    match (e, f) {
        (ParseError::MissingArgument(b), ParseFault::Missing(t)) => b@ == t,
        (ParseError::InvalidParticleNumber(b), ParseFault::BadCount(t)) => b@ == t,
        (ParseError::InvalidIterations(b), ParseFault::BadIterations(t)) => b@ == t,
        (ParseError::InvalidThreshold(b), ParseFault::BadThreshold(t)) => b@ == t,
        (ParseError::InvalidSeed(b), ParseFault::BadSeed(t)) => b@ == t,
        (ParseError::InvalidArgument(b), ParseFault::BadArgument(t)) => b@ == t,
        _ => false,
    }
}

/// The byte contents of each argument.
pub open spec fn bytes_view(args: Seq<Vec<u8>>) -> Seq<Seq<u8>> {
    args.map_values(|v: Vec<u8>| v@)
}

/// Whether decoded options are what the grammar yields for these
/// arguments.
pub open spec fn parse_ok_matches(args: Seq<Seq<u8>>, o: RunOptions) -> bool {
    match parse_spec(args, 1, start_state()) {
        ParseOutcome::Done(st) => options_match(o, st),
        ParseOutcome::Failed(_) => false,
    }
}

/// Whether a reported error is the fault the grammar yields for these
/// arguments.
pub open spec fn parse_err_matches(args: Seq<Seq<u8>>, e: ParseError) -> bool {
    match parse_spec(args, 1, start_state()) {
        ParseOutcome::Done(_) => false,
        ParseOutcome::Failed(f) => fault_matches(e, f),
    }
}

/// The accumulated state the exec-side locals denote.
pub open spec fn state_of(
    n: Option<usize>,
    iterations: Option<usize>,
    threshold: i64,
    verbose: bool,
    seed: Option<u64>,
    init: Option<Vec<i64>>,
    vinit: Option<Vec<i64>>,
) -> OptState {
    OptState {
        n: match n {
            Option::Some(v) => Option::Some(v as int),
            Option::None => Option::None,
        },
        iters: match iterations {
            Option::Some(v) => Option::Some(v as int),
            Option::None => Option::None,
        },
        threshold: threshold as int,
        verbose: verbose,
        seed: match seed {
            Option::Some(v) => Option::Some(v as int),
            Option::None => Option::None,
        },
        init: opt_ints(init),
        vinit: opt_ints(vinit),
    }
}

/// Whether two byte vectors hold the same bytes.
pub fn bytes_eq(a: &Vec<u8>, b: &Vec<u8>) -> (r: bool)
    ensures
        r == (a@ == b@),
{
    if a.len() != b.len() {
        proof {
            assert(a@ != b@) by {
                if a@ == b@ {
                    assert(a@.len() == b@.len());
                }
            }
        }
        return false;
    }
    let mut i: usize = 0;
    while i < a.len()
        invariant
            a@.len() == b@.len(),
            0 <= i <= a@.len(),
            forall|j: int| 0 <= j < i ==> a@[j] == b@[j],
        decreases a@.len() - i,
    {
        if a[i] != b[i] {
            proof {
                assert(a@ != b@) by {
                    if a@ == b@ {
                        assert(a@[i as int] == b@[i as int]);
                    }
                }
            }
            return false;
        }
        i += 1;
    }
    proof {
        assert(a@ =~= b@);
    }
    true
}

/// A fresh copy of a byte vector.
pub fn copy_bytes(v: &Vec<u8>) -> (c: Vec<u8>)
    ensures
        c@ == v@,
{
    let mut c: Vec<u8> = Vec::new();
    let mut i: usize = 0;
    while i < v.len()
        invariant
            0 <= i <= v@.len(),
            c@ =~= v@.take(i as int),
        decreases v@.len() - i,
    {
        c.push(v[i]);
        i += 1;
    }
    proof {
        assert(c@ =~= v@);
    }
    c
}

/// The bytes of `-n`.
pub fn flag_n_vec() -> (v: Vec<u8>)
    ensures
        v@ == flag_n(),
{
    let mut v: Vec<u8> = Vec::new();
    v.push(45);
    v.push(110);
    proof {
        assert(v@ =~= flag_n());
    }
    v
}

/// The bytes of `-i`.
pub fn flag_i_vec() -> (v: Vec<u8>)
    ensures
        v@ == flag_i(),
{
    let mut v: Vec<u8> = Vec::new();
    v.push(45);
    v.push(105);
    proof {
        assert(v@ =~= flag_i());
    }
    v
}

/// The bytes of `-e`.
pub fn flag_e_vec() -> (v: Vec<u8>)
    ensures
        v@ == flag_e(),
{
    let mut v: Vec<u8> = Vec::new();
    v.push(45);
    v.push(101);
    proof {
        assert(v@ =~= flag_e());
    }
    v
}

/// The bytes of `-v`.
pub fn flag_v_vec() -> (v: Vec<u8>)
    ensures
        v@ == flag_v(),
{
    let mut v: Vec<u8> = Vec::new();
    v.push(45);
    v.push(118);
    proof {
        assert(v@ =~= flag_v());
    }
    v
}

/// The bytes of `--seed`.
pub fn flag_seed_vec() -> (v: Vec<u8>)
    ensures
        v@ == flag_seed(),
{
    let mut v: Vec<u8> = Vec::new();
    v.push(45);
    v.push(45);
    v.push(115);
    v.push(101);
    v.push(101);
    v.push(100);
    proof {
        assert(v@ =~= flag_seed());
    }
    v
}

/// The bytes of `--init`.
pub fn flag_init_vec() -> (v: Vec<u8>)
    ensures
        v@ == flag_init(),
{
    let mut v: Vec<u8> = Vec::new();
    v.push(45);
    v.push(45);
    v.push(105);
    v.push(110);
    v.push(105);
    v.push(116);
    proof {
        assert(v@ =~= flag_init());
    }
    v
}

/// The bytes of `--vinit`.
pub fn flag_vinit_vec() -> (v: Vec<u8>)
    ensures
        v@ == flag_vinit(),
{
    let mut v: Vec<u8> = Vec::new();
    v.push(45);
    v.push(45);
    v.push(118);
    v.push(105);
    v.push(110);
    v.push(105);
    v.push(116);
    proof {
        assert(v@ =~= flag_vinit());
    }
    v
}

/// Reads the argument list of a run — index zero holds the program name
/// and is skipped — exactly as `parse_spec` describes it.
#[verifier::loop_isolation(false)]
#[verifier::rlimit(60)]
pub fn parse(args: &Vec<Vec<u8>>) -> (r: Result<RunOptions, ParseError>)
    ensures
        match r {
            Result::Ok(o) => parse_ok_matches(bytes_view(args@), o),
            Result::Err(e) => parse_err_matches(bytes_view(args@), e),
        },
{
    let ghost bv = bytes_view(args@);
    let fnv = flag_n_vec();
    let fiv = flag_i_vec();
    let fev = flag_e_vec();
    let fvv = flag_v_vec();
    let fsv = flag_seed_vec();
    let finv = flag_init_vec();
    let fviv = flag_vinit_vec();
    let mut n: Option<usize> = Option::None;
    let mut iterations: Option<usize> = Option::None;
    let mut threshold: i64 = 100;
    let mut verbose: bool = false;
    let mut seed: Option<u64> = Option::None;
    let mut init: Option<Vec<i64>> = Option::None;
    let mut vinit: Option<Vec<i64>> = Option::None;
    let mut i: usize = 1;
    while i < args.len()
        invariant
            1 <= i,
            parse_spec(bv, 1, start_state()) == parse_spec(
                bv,
                i as int,
                state_of(n, iterations, threshold, verbose, seed, init, vinit),
            ),
        decreases args@.len() - i,
    {
        proof {
            assert(bv[i as int] == args@[i as int]@);
            if i + 1 < args.len() {
                assert(bv[i as int + 1] == args@[i as int + 1]@);
            }
        }
        let a = &args[i];
        if bytes_eq(a, &fnv) {
            if i + 1 >= args.len() {
                return Result::Err(ParseError::MissingArgument(fnv));
            }
            match parse_count(&args[i + 1]) {
                Option::Some(v) => {
                    n = Option::Some(v);
                    i += 2;
                },
                Option::None => {
                    return Result::Err(
                        ParseError::InvalidParticleNumber(copy_bytes(&args[i + 1])),
                    );
                },
            }
        } else if bytes_eq(a, &fiv) {
            if i + 1 >= args.len() {
                return Result::Err(ParseError::MissingArgument(fiv));
            }
            match parse_count(&args[i + 1]) {
                Option::Some(v) => {
                    iterations = Option::Some(v);
                    i += 2;
                },
                Option::None => {
                    return Result::Err(ParseError::InvalidIterations(copy_bytes(&args[i + 1])));
                },
            }
        } else if bytes_eq(a, &fev) {
            if i + 1 >= args.len() {
                return Result::Err(ParseError::MissingArgument(fev));
            }
            match parse_scalar(&args[i + 1]) {
                Option::Some(v) => {
                    if v > 0 {
                        threshold = v;
                        i += 2;
                    } else {
                        return Result::Err(
                            ParseError::InvalidThreshold(copy_bytes(&args[i + 1])),
                        );
                    }
                },
                Option::None => {
                    return Result::Err(ParseError::InvalidThreshold(copy_bytes(&args[i + 1])));
                },
            }
        } else if bytes_eq(a, &fvv) {
            verbose = true;
            i += 1;
        } else if bytes_eq(a, &fsv) {
            if i + 1 >= args.len() {
                return Result::Err(ParseError::MissingArgument(fsv));
            }
            match parse_u64(&args[i + 1]) {
                Option::Some(v) => {
                    seed = Option::Some(v);
                    i += 2;
                },
                Option::None => {
                    return Result::Err(ParseError::InvalidSeed(copy_bytes(&args[i + 1])));
                },
            }
        } else if bytes_eq(a, &finv) {
            if i + 1 >= args.len() {
                return Result::Err(ParseError::MissingArgument(finv));
            }
            match parse_scalar_list(&args[i + 1]) {
                Result::Ok(vs) => {
                    init = Option::Some(vs);
                    i += 2;
                },
                Result::Err(b) => {
                    return Result::Err(ParseError::InvalidArgument(b));
                },
            }
        } else if bytes_eq(a, &fviv) {
            if i + 1 >= args.len() {
                return Result::Err(ParseError::MissingArgument(fviv));
            }
            match parse_scalar_list(&args[i + 1]) {
                Result::Ok(vs) => {
                    vinit = Option::Some(vs);
                    i += 2;
                },
                Result::Err(b) => {
                    return Result::Err(ParseError::InvalidArgument(b));
                },
            }
        } else {
            return Result::Err(ParseError::InvalidArgument(copy_bytes(a)));
        }
    }
    match n {
        Option::Some(nv) => Result::Ok(
            RunOptions { n: nv, iterations, threshold, verbose, seed, init, vinit },
        ),
        Option::None => Result::Err(ParseError::MissingArgument(fnv)),
    }
}

} // verus!
