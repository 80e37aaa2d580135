//! Verified text utilities: equality, prefix and containment tests on
//! strings, the comma-tolerant integer parser the feed needs, and the
//! decimal formatter that writes numbers back out.

use vstd::prelude::*;
use vstd::string::StrSliceExecFns;

verus! {

/// A decimal digit.
pub open spec fn is_digit(c: char) -> bool {
    '0' <= c && c <= '9'
}

/// Numeric value of a decimal digit.
pub open spec fn digit_val(c: char) -> int {
    c as int - 48
}

/// Every character is a decimal digit.
pub open spec fn all_digits(t: Seq<char>) -> bool {
    forall|j: int| 0 <= j < t.len() ==> is_digit(#[trigger] t[j])
}

/// Value of a string of decimal digits, most significant first.
pub open spec fn digits_value(t: Seq<char>) -> int
    decreases t.len(),
{
    if t.len() == 0 {
        0
    } else {
        digits_value(t.drop_last()) * 10 + digit_val(t.last())
    }
}

/// The text with every comma removed, the preprocessing the feed's
/// grouped numbers get.
pub open spec fn comma_free(s: Seq<char>) -> Seq<char> {
    s.filter(|c: char| c != ',')
}

/// The text after an optional leading sign.
pub open spec fn unsigned_part(t: Seq<char>) -> Seq<char> {
    if t.len() > 0 && (t[0] == '-' || t[0] == '+') {
        t.drop_first()
    } else {
        t
    }
}

/// Whether the text carries a leading minus sign.
pub open spec fn text_negative(t: Seq<char>) -> bool {
    t.len() > 0 && t[0] == '-'
}

/// The signed value the text denotes once commas are stripped.
pub open spec fn int_text_value(s: Seq<char>) -> int {
    let t = comma_free(s);
    if text_negative(t) {
        -digits_value(unsigned_part(t))
    } else {
        digits_value(unsigned_part(t))
    }
}

/// The text denotes a 32-bit integer: after stripping commas it is an
/// optional sign followed by at least one digit, and the value fits.
pub open spec fn valid_int_text(s: Seq<char>) -> bool {
    let t = comma_free(s);
    let d = unsigned_part(t);
    d.len() > 0 && all_digits(d) && i32::MIN <= int_text_value(s) <= i32::MAX
}

/// `p` is a prefix of `s`.
pub open spec fn prefix_of(p: Seq<char>, s: Seq<char>) -> bool {
    p.len() <= s.len() && forall|j: int| 0 <= j < p.len() ==> s[j] == #[trigger] p[j]
}

/// `p` occurs in `s` starting at position `k`.
pub open spec fn match_at(s: Seq<char>, p: Seq<char>, k: int) -> bool {
    0 <= k && k + p.len() <= s.len() && forall|j: int|
        0 <= j < p.len() ==> s[k + j] == #[trigger] p[j]
}

/// `p` occurs somewhere in `s`.
pub open spec fn text_contains(s: Seq<char>, p: Seq<char>) -> bool {
    exists|k: int| match_at(s, p, k)
}

/// A digit string is never negative.
pub proof fn lemma_digits_value_nonneg(t: Seq<char>)
    requires
        all_digits(t),
    ensures
        digits_value(t) >= 0,
    decreases t.len(),
{
    if t.len() > 0 {
        assert(all_digits(t.drop_last()));
        lemma_digits_value_nonneg(t.drop_last());
        assert(digits_value(t.drop_last()) * 10 >= 0) by (nonlinear_arith)
            requires
                digits_value(t.drop_last()) >= 0,
        ;
    }
}

/// A prefix of a digit string never exceeds the whole string's value.
pub proof fn lemma_digits_value_take_le(t: Seq<char>, k: int)
    requires
        all_digits(t),
        0 <= k <= t.len(),
    ensures
        digits_value(t.take(k)) <= digits_value(t),
    decreases t.len() - k,
{
    if k == t.len() {
        assert(t.take(k) =~= t);
    } else {
        assert(t.take(k + 1).drop_last() =~= t.take(k));
        assert(t.take(k + 1).last() == t[k]);
        assert(all_digits(t.take(k)));
        lemma_digits_value_nonneg(t.take(k));
        assert(digits_value(t.take(k)) * 10 >= digits_value(t.take(k))) by (nonlinear_arith)
            requires
                digits_value(t.take(k)) >= 0,
        ;
        lemma_digits_value_take_le(t, k + 1);
    }
}

/// Powers of ten.
pub open spec fn pow10(n: int) -> int
    decreases n,
{
    if n <= 0 {
        1
    } else {
        10 * pow10(n - 1)
    }
}

/// The digit character for a value between zero and nine.
pub open spec fn digit_char(d: int) -> char {
    if d == 0 {
        '0'
    } else if d == 1 {
        '1'
    } else if d == 2 {
        '2'
    } else if d == 3 {
        '3'
    } else if d == 4 {
        '4'
    } else if d == 5 {
        '5'
    } else if d == 6 {
        '6'
    } else if d == 7 {
        '7'
    } else if d == 8 {
        '8'
    } else {
        '9'
    }
}

/// Decimal digit string of a nonnegative number, no leading zeros.
pub open spec fn digits_of(n: int) -> Seq<char>
    decreases n when n >= 0
{
    if n < 10 {
        seq![digit_char(n)]
    } else {
        digits_of(n / 10).push(digit_char(n % 10))
    }
}

/// Decimal text of an integer: minus sign for negatives, then digits.
pub open spec fn spec_decimal(x: int) -> Seq<char> {
    if x < 0 {
        seq!['-'] + digits_of(-x)
    } else {
        digits_of(x)
    }
}

/// The digit characters of `ds`, read back to front: `ds` holds digit
/// values least significant first, so this is the written-out number.
pub open spec fn rev_digit_chars(ds: Seq<i64>) -> Seq<char> {
    Seq::new(ds.len(), |i: int| digit_char(ds[ds.len() - 1 - i] as int))
}

/// Decimal text of an integer: a minus sign for negative values, then
/// the digits without leading zeros, exactly as `spec_decimal` lays
/// them out.
pub fn i32_to_string(x: i32) -> (r: String)
    ensures
        r@ == spec_decimal(x as int),
{
    let m: i64 = if x < 0 {
        -(x as i64)
    } else {
        x as i64
    };
    // peel the digits off, least significant first
    let mut ds: Vec<i64> = Vec::new();
    let mut n: i64 = m;
    proof {
        assert(rev_digit_chars(ds@) =~= Seq::<char>::empty());
        assert(digits_of(m as int) =~= digits_of(n as int) + rev_digit_chars(ds@));
    }
    while n >= 10
        invariant
            0 <= n <= m,
            m >= 0,
            forall|j: int| 0 <= j < ds@.len() ==> 0 <= #[trigger] ds@[j] <= 9,
            digits_of(m as int) =~= digits_of(n as int) + rev_digit_chars(ds@),
        decreases n,
    {
        let d = n % 10;
        let ghost ds0 = ds@;
        ds.push(d);
        n = n / 10;
        proof {
            assert(rev_digit_chars(ds@) =~= seq![digit_char(d as int)] + rev_digit_chars(ds0));
            assert(digits_of(m as int) =~= digits_of(n as int) + rev_digit_chars(ds@));
        }
    }
    let ghost ds1 = ds@;
    ds.push(n);
    proof {
        assert(digits_of(n as int) =~= seq![digit_char(n as int)]);
        assert(rev_digit_chars(ds@) =~= seq![digit_char(n as int)] + rev_digit_chars(ds1));
        assert(digits_of(m as int) =~= rev_digit_chars(ds@));
    }
    // write the digits out, most significant first
    let mut s = String::new();
    if x < 0 {
        s.append("-");
    }
    let ghost sign = if x < 0 {
        "-"@
    } else {
        Seq::<char>::empty()
    };
    proof {
        assert(s@ =~= sign + rev_digit_chars(ds@).take(0));
    }
    let count = ds.len();
    let mut j: usize = 0;
    while j < count
        invariant
            j <= count,
            count == ds@.len(),
            forall|k: int| 0 <= k < ds@.len() ==> 0 <= #[trigger] ds@[k] <= 9,
            sign == (if x < 0 {
                "-"@
            } else {
                Seq::<char>::empty()
            }),
            s@ =~= sign + rev_digit_chars(ds@).take(j as int),
        decreases count - j,
    {
        let ghost s0 = s@;
        let d = ds[count - 1 - j];
        if d == 0 {
            s.append("0");
            proof {
                reveal_strlit("0");
            }
        } else if d == 1 {
            s.append("1");
            proof {
                reveal_strlit("1");
            }
        } else if d == 2 {
            s.append("2");
            proof {
                reveal_strlit("2");
            }
        } else if d == 3 {
            s.append("3");
            proof {
                reveal_strlit("3");
            }
        } else if d == 4 {
            s.append("4");
            proof {
                reveal_strlit("4");
            }
        } else if d == 5 {
            s.append("5");
            proof {
                reveal_strlit("5");
            }
        } else if d == 6 {
            s.append("6");
            proof {
                reveal_strlit("6");
            }
        } else if d == 7 {
            s.append("7");
            proof {
                reveal_strlit("7");
            }
        } else if d == 8 {
            s.append("8");
            proof {
                reveal_strlit("8");
            }
        } else {
            s.append("9");
            proof {
                reveal_strlit("9");
            }
        }
        proof {
            assert(s@ =~= s0.push(digit_char(ds@[count - 1 - j as int] as int)));
            assert(rev_digit_chars(ds@)[j as int] == digit_char(ds@[count - 1 - j as int] as int));
            assert(rev_digit_chars(ds@).take(j as int + 1) =~= rev_digit_chars(ds@).take(
                j as int,
            ).push(rev_digit_chars(ds@)[j as int]));
            assert(s@ =~= sign + rev_digit_chars(ds@).take(j as int + 1));
        }
        j += 1;
    }
    proof {
        assert(rev_digit_chars(ds@).take(count as int) =~= rev_digit_chars(ds@));
        if x < 0 {
            reveal_strlit("-");
            assert(s@ =~= seq!['-'] + digits_of(-(x as int)));
        } else {
            assert(s@ =~= digits_of(x as int));
        }
    }
    s
}

/// A digit string is smaller than the power of ten of its length.
pub proof fn lemma_digits_value_max(t: Seq<char>)
    requires
        all_digits(t),
    ensures
        digits_value(t) < pow10(t.len() as int),
    decreases t.len(),
{
    if t.len() == 0 {
    } else {
        assert(all_digits(t.drop_last()));
        lemma_digits_value_max(t.drop_last());
        assert(digits_value(t.drop_last()) * 10 + 9 < pow10(t.len() as int)) by (nonlinear_arith)
            requires
                digits_value(t.drop_last()) < pow10(t.len() - 1),
                pow10(t.len() as int) == 10 * pow10(t.len() - 1),
        ;
    }
}

/// A digit string with a nonzero leading digit reaches the power of
/// ten of one less than its length.
pub proof fn lemma_digits_value_min(t: Seq<char>)
    requires
        all_digits(t),
        t.len() >= 1,
        t[0] != '0',
    ensures
        digits_value(t) >= pow10(t.len() - 1),
    decreases t.len(),
{
    if t.len() == 1 {
        assert(is_digit(t[0]));
        assert(digit_val(t[0]) >= 1);
    } else {
        assert(all_digits(t.drop_last()));
        assert(t.drop_last()[0] == t[0]);
        lemma_digits_value_min(t.drop_last());
        lemma_pow10_pos(t.len() - 2);
        assert(digits_value(t.drop_last()) * 10 >= pow10(t.len() - 2) * 10) by (nonlinear_arith)
            requires
                digits_value(t.drop_last()) >= pow10(t.len() - 2),
                pow10(t.len() - 2) >= 0,
        ;
        assert(is_digit(t.last()));
    }
}

/// Powers of ten are positive.
pub proof fn lemma_pow10_pos(n: int)
    ensures
        pow10(n) >= 1,
    decreases n,
{
    if n > 0 {
        lemma_pow10_pos(n - 1);
        assert(10 * pow10(n - 1) >= pow10(n - 1));
    }
}

/// A leading zero does not change a digit string's value.
pub proof fn lemma_digits_leading_zero(t: Seq<char>)
    requires
        all_digits(t),
        t.len() >= 1,
        t[0] == '0',
    ensures
        digits_value(t) == digits_value(t.drop_first()),
    decreases t.len(),
{
    if t.len() == 1 {
        assert(t.drop_first() =~= Seq::<char>::empty());
        assert(t.drop_last() =~= Seq::<char>::empty());
        assert(digits_value(Seq::<char>::empty()) == 0);
        assert(t.last() == t[0]);
        assert(digit_val(t[0]) == 0);
        assert(digits_value(t) == digits_value(t.drop_last()) * 10 + digit_val(t.last()));
    } else {
        assert(all_digits(t.drop_last()));
        assert(t.drop_last()[0] == t[0]);
        lemma_digits_leading_zero(t.drop_last());
        assert(t.drop_last().drop_first() =~= t.drop_first().drop_last());
        assert(t.drop_first().last() == t.last());
        assert(t.drop_first().len() == t.len() - 1 >= 1);
        assert(digits_value(t) == digits_value(t.drop_last()) * 10 + digit_val(t.last()));
        assert(digits_value(t.drop_first()) == digits_value(t.drop_first().drop_last()) * 10
            + digit_val(t.drop_first().last()));
    }
}

/// Any run of leading zeros can be dropped from a digit string.
pub proof fn lemma_digits_skip_zeros(t: Seq<char>, z: int)
    requires
        all_digits(t),
        0 <= z <= t.len(),
        forall|j: int| 0 <= j < z ==> t[j] == '0',
    ensures
        digits_value(t) == digits_value(t.skip(z)),
    decreases z,
{
    if z == 0 {
        assert(t.skip(0) =~= t);
    } else {
        lemma_digits_skip_zeros(t, z - 1);
        let u = t.skip(z - 1);
        assert(all_digits(u));
        assert(u[0] == t[z - 1]);
        lemma_digits_leading_zero(u);
        assert(u.drop_first() =~= t.skip(z));
    }
}

/// Whether the text denotes a 32-bit integer (commas allowed between
/// digits), checked without parsing it.
pub fn is_valid_int_text(x: &str) -> (r: bool)
    ensures
        r == valid_int_text(x@),
{
    let n = x.unicode_len();
    let mut t: Vec<char> = Vec::new();
    proof {
        reveal(Seq::filter);
        assert(t@ =~= comma_free(x@.take(0)));
    }
    let mut i: usize = 0;
    while i < n
        invariant
            i <= n,
            n == x@.len(),
            t@ =~= comma_free(x@.take(i as int)),
        decreases n - i,
    {
        let c = x.get_char(i);
        proof {
            assert(x@.take(i as int + 1).drop_last() =~= x@.take(i as int));
            assert(x@.take(i as int + 1).last() == x@[i as int]);
        }
        if c != ',' {
            t.push(c);
        }
        proof {
            reveal(Seq::filter);
            assert(t@ =~= comma_free(x@.take(i as int + 1)));
        }
        i += 1;
    }
    proof {
        assert(x@.take(n as int) =~= x@);
        assert(t@ =~= comma_free(x@));
    }
    if t.len() == 0 {
        return false;
    }
    let mut neg = false;
    let mut start: usize = 0;
    if t[0] == '-' {
        neg = true;
        start = 1;
    } else if t[0] == '+' {
        start = 1;
    }
    let ghost d = unsigned_part(comma_free(x@));
    proof {
        assert(d =~= t@.subrange(start as int, t@.len() as int));
    }
    if t.len() == start {
        return false;
    }
    // every remaining character must be a digit
    let mut j = start;
    while j < t.len()
        invariant
            start <= j <= t@.len(),
            t@ == comma_free(x@),
            d == unsigned_part(comma_free(x@)),
            d =~= t@.subrange(start as int, t@.len() as int),
            forall|j2: int| 0 <= j2 < j - start ==> is_digit(#[trigger] d[j2]),
        decreases t@.len() - j,
    {
        let c = t[j];
        if !('0' <= c && c <= '9') {
            proof {
                assert(d[j - start] == t@[j as int]);
                assert(!is_digit(d[j - start]));
            }
            return false;
        }
        j += 1;
    }
    proof {
        assert(all_digits(d));
    }
    // skip leading zeros
    let dl = t.len() - start;
    let mut z: usize = 0;
    while z < dl && t[start + z] == '0'
        invariant
            start + dl == t@.len(),
            t@.len() <= usize::MAX,
            z <= dl,
            d =~= t@.subrange(start as int, t@.len() as int),
            all_digits(d),
            forall|j2: int| 0 <= j2 < z ==> d[j2] == '0',
        decreases dl - z,
    {
        z += 1;
    }
    let ghost e = d.skip(z as int);
    proof {
        lemma_digits_skip_zeros(d, z as int);
    }
    let m = dl - z;
    if m > 10 {
        proof {
            assert(e[0] == d[z as int]);
            assert(e[0] != '0');
            assert(all_digits(e));
            lemma_digits_value_min(e);
            lemma_pow10_min_eleven(e.len() as int);
        }
        return false;
    }
    // at most ten digits: the value fits in sixty-four bits exactly
    proof {
        lemma_pow10_values();
        assert(e.take(0) =~= Seq::<char>::empty());
    }
    let mut acc: i64 = 0;
    let mut j2 = start + z;
    while j2 < t.len()
        invariant
            start + z <= j2 <= t@.len(),
            start + dl == t@.len(),
            z <= dl,
            m == dl - z,
            m <= 10,
            d =~= t@.subrange(start as int, t@.len() as int),
            all_digits(d),
            e == d.skip(z as int),
            acc == digits_value(e.take(j2 - start - z)),
            0 <= acc < pow10(10),
            pow10(10) == 10_000_000_000,
        decreases t@.len() - j2,
    {
        let c = t[j2];
        proof {
            assert(e[j2 - start - z] == d[j2 - start] && d[j2 - start] == t@[j2 as int]);
            assert(is_digit(c));
            assert(e.take(j2 - start - z + 1).drop_last() =~= e.take(j2 - start - z));
            assert(e.take(j2 - start - z + 1).last() == e[j2 - start - z]);
            assert(all_digits(e.take(j2 - start - z + 1)));
            lemma_digits_value_nonneg(e.take(j2 - start - z + 1));
            lemma_digits_value_max(e.take(j2 - start - z + 1));
            lemma_pow10_take_le(j2 - start - z + 1, 10);
        }
        acc = acc * 10 + ((c as u32) as i64 - 48);
        j2 += 1;
    }
    proof {
        assert(e.take(e.len() as int) =~= e);
        assert(acc == digits_value(e));
        lemma_digits_value_nonneg(d);
    }
    if neg {
        acc <= 2_147_483_648
    } else {
        acc <= 2_147_483_647
    }
}

/// Ten to the tenth, spelled out for the validity test above.
proof fn lemma_pow10_values()
    ensures
        pow10(10) == 10_000_000_000,
{
    assert(pow10(0) == 1);
    assert(pow10(1) == 10);
    assert(pow10(2) == 100);
    assert(pow10(3) == 1000);
    assert(pow10(4) == 10000);
    assert(pow10(5) == 100000);
    assert(pow10(6) == 1000000);
    assert(pow10(7) == 10000000);
    assert(pow10(8) == 100000000);
    assert(pow10(9) == 1000000000);
    assert(pow10(10) == 10000000000);
}

/// Eleven or more digits put the value beyond ten to the tenth.
proof fn lemma_pow10_min_eleven(n: int)
    requires
        n >= 11,
    ensures
        pow10(n - 1) >= 10_000_000_000,
    decreases n,
{
    lemma_pow10_values();
    if n == 11 {
    } else {
        lemma_pow10_min_eleven(n - 1);
        lemma_pow10_pos(n - 2);
        assert(pow10(n - 1) == 10 * pow10(n - 2));
        assert(10 * pow10(n - 2) >= pow10(n - 2));
    }
}

/// Powers of ten are monotone.
proof fn lemma_pow10_take_le(a: int, b: int)
    requires
        a <= b,
    ensures
        pow10(a) <= pow10(b),
    decreases b - a,
{
    if a < b {
        if b <= 0 {
            assert(pow10(a) == 1 && pow10(b) == 1);
        } else {
            lemma_pow10_take_le(a, b - 1);
            lemma_pow10_pos(b - 1);
            assert(pow10(b) == 10 * pow10(b - 1));
            assert(10 * pow10(b - 1) >= pow10(b - 1));
        }
    }
}

/// Character-for-character string equality.
pub fn str_eq(a: &str, b: &str) -> (r: bool)
    ensures
        r == (a@ == b@),
{
    let na = a.unicode_len();
    let nb = b.unicode_len();
    if na != nb {
        proof {
            if a@ == b@ {
                assert(a@.len() == b@.len());
            }
        }
        return false;
    }
    let mut i: usize = 0;
    while i < na
        invariant
            i <= na,
            na == a@.len(),
            nb == b@.len(),
            na == nb,
            forall|j: int| 0 <= j < i ==> a@[j] == b@[j],
        decreases na - i,
    {
        let ca = a.get_char(i);
        let cb = b.get_char(i);
        if ca != cb {
            proof {
                if a@ == b@ {
                    assert(a@[i as int] == b@[i as int]);
                }
            }
            return false;
        }
        i += 1;
    }
    proof {
        assert(a@ =~= b@);
    }
    true
}

/// Whether `s` starts with `p`.
pub fn starts_with_str(s: &str, p: &str) -> (r: bool)
    ensures
        r == prefix_of(p@, s@),
{
    let ns = s.unicode_len();
    let np = p.unicode_len();
    if np > ns {
        return false;
    }
    let mut j: usize = 0;
    while j < np
        invariant
            j <= np,
            ns == s@.len(),
            np == p@.len(),
            np <= ns,
            forall|j2: int| 0 <= j2 < j ==> s@[j2] == p@[j2],
        decreases np - j,
    {
        let cs = s.get_char(j);
        let cp = p.get_char(j);
        if cs != cp {
            return false;
        }
        j += 1;
    }
    true
}

/// Whether `p` occurs anywhere in `s`.
pub fn contains_str(s: &str, p: &str) -> (r: bool)
    ensures
        r == text_contains(s@, p@),
{
    let ns = s.unicode_len();
    let np = p.unicode_len();
    if np > ns {
        proof {
            assert forall|k: int| !match_at(s@, p@, k) by {}
        }
        return false;
    }
    let mut k: usize = 0;
    while k <= ns - np
        invariant
            ns == s@.len(),
            np == p@.len(),
            np <= ns,
            k <= ns - np + 1,
            forall|k2: int| 0 <= k2 < k ==> !match_at(s@, p@, k2),
        decreases ns - np + 1 - k,
    {
        let mut j: usize = 0;
        let mut hit = true;
        while j < np
            invariant
                j <= np,
                ns == s@.len(),
                np == p@.len(),
                np <= ns,
                k <= ns - np,
                hit ==> forall|j2: int| 0 <= j2 < j ==> s@[k + j2] == p@[j2],
                !hit ==> !match_at(s@, p@, k as int),
            decreases np - j,
        {
            let cs = s.get_char(k + j);
            let cp = p.get_char(j);
            if cs != cp {
                proof {
                    if match_at(s@, p@, k as int) {
                        assert(s@[k as int + j as int] == p@[j as int]);
                    }
                }
                hit = false;
                j = np;
            } else {
                j += 1;
            }
        }
        if hit {
            proof {
                assert(match_at(s@, p@, k as int));
            }
            return true;
        }
        k += 1;
    }
    proof {
        assert forall|k2: int| !match_at(s@, p@, k2) by {
            if 0 <= k2 <= ns - np {
                assert(!match_at(s@, p@, k2));
            }
        }
    }
    false
}

/// Parses a 32-bit integer whose text may group digits with commas.
/// The input must denote such an integer; the ingestion layer checks
/// this before calling.
pub fn parse_i32(x: &str) -> (r: i32)
    requires
        valid_int_text(x@),
    ensures
        r as int == int_text_value(x@),
{
    let n = x.unicode_len();
    let mut t: Vec<char> = Vec::new();
    proof {
        reveal(Seq::filter);
        assert(t@ =~= comma_free(x@.take(0)));
    }
    let mut i: usize = 0;
    while i < n
        invariant
            i <= n,
            n == x@.len(),
            t@ =~= comma_free(x@.take(i as int)),
        decreases n - i,
    {
        let c = x.get_char(i);
        proof {
            assert(x@.take(i as int + 1).drop_last() =~= x@.take(i as int));
            assert(x@.take(i as int + 1).last() == x@[i as int]);
        }
        if c != ',' {
            t.push(c);
        }
        proof {
            reveal(Seq::filter);
            assert(t@ =~= comma_free(x@.take(i as int + 1)));
        }
        i += 1;
    }
    proof {
        assert(x@.take(n as int) =~= x@);
        assert(t@ =~= comma_free(x@));
    }
    let ghost d = unsigned_part(comma_free(x@));
    let mut neg = false;
    let mut start: usize = 0;
    if t[0] == '-' {
        neg = true;
        start = 1;
    } else if t[0] == '+' {
        start = 1;
    }
    proof {
        assert(d =~= t@.subrange(start as int, t@.len() as int));
        lemma_digits_value_nonneg(d);
    }
    let mut acc: i64 = 0;
    let mut j = start;
    while j < t.len()
        invariant
            start <= j <= t@.len(),
            t@.len() <= usize::MAX,
            d =~= t@.subrange(start as int, t@.len() as int),
            all_digits(d),
            digits_value(d) <= 2_147_483_648,
            acc == digits_value(d.take(j - start)),
            0 <= acc <= 2_147_483_648,
        decreases t@.len() - j,
    {
        let c = t[j];
        proof {
            assert(d[j - start] == t@[j as int]);
            assert(is_digit(c));
            assert(d.take(j - start + 1).drop_last() =~= d.take(j - start));
            assert(d.take(j - start + 1).last() == d[j - start]);
            assert(all_digits(d.take(j - start + 1)));
            lemma_digits_value_take_le(d, j - start + 1);
            lemma_digits_value_nonneg(d.take(j - start + 1));
        }
        acc = acc * 10 + ((c as u32) as i64 - 48);
        j += 1;
    }
    proof {
        assert(d.take(t@.len() - start) =~= d);
    }
    if neg {
        (-acc) as i32
    } else {
        acc as i32
    }
}

} // verus!
