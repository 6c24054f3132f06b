//! Numeric comparison of cell text without floating point.
//!
//! A cell is numeric when it reads as an optional sign, a mantissa of digits
//! with at most one decimal point, and an optional exponent. Two numeric
//! cells compare by exact decimal value: by sign, then by the position of the
//! most significant digit, then digit by digit. Exponent values saturate at a
//! bound far beyond any magnitude two distinct grids would share. Cells that
//! are not both numeric compare ordinally.

use vstd::prelude::*;
use crate::text::{
    all_digits, digit_val, digits_val, flip, is_digit, lemma_digits_val_bounds, lex_cmp, str_cmp,
    Rel,
};

verus! {

/// Exponent magnitudes saturate here; every magnitude beyond it compares as
/// this one.
pub const EXP_CAP: i64 = 10_000_000_000;

/// A parsed numeric cell: its sign, its mantissa digits with the decimal
/// point removed, how many of those digits were fractional, and its
/// (saturated) exponent.
pub struct Num {
    pub neg: bool,
    pub digits: Seq<char>,
    pub frac: int,
    pub exp: int,
}

/// How many decimal points the text holds.
pub open spec fn dot_count(s: Seq<char>) -> int
    decreases s.len(),
{
    if s.len() == 0 {
        0
    } else {
        dot_count(s.drop_last()) + if s.last() == '.' {
            1int
        } else {
            0int
        }
    }
}

/// The text with every decimal point removed.
pub open spec fn remove_dots(s: Seq<char>) -> Seq<char>
    decreases s.len(),
{
    if s.len() == 0 {
        Seq::empty()
    } else if s.last() == '.' {
        remove_dots(s.drop_last())
    } else {
        remove_dots(s.drop_last()).push(s.last())
    }
}

/// The index of the first decimal point, or the length if there is none.
pub open spec fn first_dot(s: Seq<char>) -> int
    decreases s.len(),
{
    if s.len() == 0 {
        0
    } else if s[0] == '.' {
        0
    } else {
        1 + first_dot(s.skip(1))
    }
}

/// A well-formed mantissa: non-empty, only digits and decimal points, at
/// most one point, at least one digit.
pub open spec fn is_mant(s: Seq<char>) -> bool {
    &&& s.len() > 0
    &&& forall|i: int| 0 <= i < s.len() ==> is_digit(#[trigger] s[i]) || s[i] == '.'
    &&& dot_count(s) <= 1
    &&& s.len() - dot_count(s) >= 1
}

/// How many digits of the mantissa are fractional.
pub open spec fn mant_frac(s: Seq<char>) -> int {
    if first_dot(s) == s.len() {
        0
    } else {
        s.len() - first_dot(s) - 1
    }
}

/// The index of the first exponent marker, or the length if there is none.
pub open spec fn first_e(s: Seq<char>) -> int
    decreases s.len(),
{
    if s.len() == 0 {
        0
    } else if s[0] == 'e' || s[0] == 'E' {
        0
    } else {
        1 + first_e(s.skip(1))
    }
}

/// A well-formed exponent part: an optional sign, then at least one digit.
pub open spec fn is_exp(s: Seq<char>) -> bool {
    let b = if s.len() > 0 && (s[0] == '+' || s[0] == '-') {
        s.skip(1)
    } else {
        s
    };
    b.len() > 0 && all_digits(b)
}

/// The value of an exponent part, saturated at the cap.
pub open spec fn exp_val(s: Seq<char>) -> int {
    let neg = s.len() > 0 && s[0] == '-';
    let b = if s.len() > 0 && (s[0] == '+' || s[0] == '-') {
        s.skip(1)
    } else {
        s
    };
    let v = if digits_val(b) <= EXP_CAP as int {
        digits_val(b)
    } else {
        EXP_CAP as int
    };
    if neg {
        -v
    } else {
        v
    }
}

/// How a cell reads as a number, if it does: an optional sign, a mantissa of
/// digits with at most one decimal point, and an optional `e`/`E` exponent.
pub open spec fn parse_num(s: Seq<char>) -> Option<Num> {
    if s.len() == 0 {
        None
    } else {
        let neg = s[0] == '-';
        let body = if s[0] == '-' || s[0] == '+' {
            s.skip(1)
        } else {
            s
        };
        let e = first_e(body);
        let mant = body.take(e);
        if !is_mant(mant) {
            None
        } else if e == body.len() {
            Some(Num { neg, digits: remove_dots(mant), frac: mant_frac(mant), exp: 0 })
        } else {
            let ex = body.skip(e + 1);
            if is_exp(ex) {
                Some(
                    Num {
                        neg,
                        digits: remove_dots(mant),
                        frac: mant_frac(mant),
                        exp: exp_val(ex),
                    },
                )
            } else {
                None
            }
        }
    }
}

/// The digit string without its leading zeros.
pub open spec fn strip_zeros(d: Seq<char>) -> Seq<char>
    decreases d.len(),
{
    if d.len() > 0 && d[0] == '0' {
        strip_zeros(d.skip(1))
    } else {
        d
    }
}

/// Digit-by-digit comparison of two aligned digit strings, the shorter one
/// read as padded with zeros on the right.
pub open spec fn cmp_digits(a: Seq<char>, b: Seq<char>) -> Rel
    decreases a.len() + b.len(),
{
    if a.len() == 0 && b.len() == 0 {
        Rel::Eq
    } else {
        let ca = if a.len() > 0 {
            a[0]
        } else {
            '0'
        };
        let cb = if b.len() > 0 {
            b[0]
        } else {
            '0'
        };
        if ca < cb {
            Rel::Lt
        } else if cb < ca {
            Rel::Gt
        } else {
            cmp_digits(seq_tail(a), seq_tail(b))
        }
    }
}

/// The sequence without its first element, or empty if it has none.
pub open spec fn seq_tail(s: Seq<char>) -> Seq<char> {
    if s.len() > 0 {
        s.skip(1)
    } else {
        s
    }
}

/// A parsed number is zero when its mantissa has no nonzero digit.
pub open spec fn num_is_zero(n: Num) -> bool {
    strip_zeros(n.digits).len() == 0
}

/// The decimal position just left of the most significant digit: the value
/// lies in `[10^(pos-1), 10^pos)`.
pub open spec fn num_pos(n: Num) -> int {
    n.exp - n.frac + strip_zeros(n.digits).len()
}

/// Magnitude comparison of two nonzero parsed numbers: by most significant
/// position, then digit by digit.
pub open spec fn mag_cmp(a: Num, b: Num) -> Rel {
    if num_pos(a) < num_pos(b) {
        Rel::Lt
    } else if num_pos(b) < num_pos(a) {
        Rel::Gt
    } else {
        cmp_digits(strip_zeros(a.digits), strip_zeros(b.digits))
    }
}

/// Exact decimal comparison of two parsed numbers: zeros are equal whatever
/// their sign, negatives sort below positives, and like signs compare by
/// magnitude, reversed when both are negative.
pub open spec fn num_cmp(a: Num, b: Num) -> Rel {
    if num_is_zero(a) && num_is_zero(b) {
        Rel::Eq
    } else if num_is_zero(a) {
        if b.neg {
            Rel::Gt
        } else {
            Rel::Lt
        }
    } else if num_is_zero(b) {
        if a.neg {
            Rel::Lt
        } else {
            Rel::Gt
        }
    } else if a.neg != b.neg {
        if a.neg {
            Rel::Lt
        } else {
            Rel::Gt
        }
    } else {
        let m = mag_cmp(a, b);
        if a.neg {
            flip(m)
        } else {
            m
        }
    }
}

/// How two cells compare for sorting: by exact decimal value when both read
/// as numbers, ordinally otherwise.
#[verifier::opaque]
pub open spec fn cmp_cells(a: Seq<char>, b: Seq<char>) -> Rel {
    match (parse_num(a), parse_num(b)) {
        (Some(x), Some(y)) => num_cmp(x, y),
        _ => lex_cmp(a, b),
    }
}

pub proof fn lemma_cmp_digits_flip(a: Seq<char>, b: Seq<char>)
    ensures
        cmp_digits(b, a) == flip(cmp_digits(a, b)),
    decreases a.len() + b.len(),
{
    if a.len() == 0 && b.len() == 0 {
    } else {
        let ca = if a.len() > 0 {
            a[0]
        } else {
            '0'
        };
        let cb = if b.len() > 0 {
            b[0]
        } else {
            '0'
        };
        if ca < cb || cb < ca {
        } else {
            lemma_cmp_digits_flip(seq_tail(a), seq_tail(b));
        }
    }
}

pub proof fn lemma_num_cmp_flip(a: Num, b: Num)
    ensures
        num_cmp(b, a) == flip(num_cmp(a, b)),
{
    if !num_is_zero(a) && !num_is_zero(b) && a.neg == b.neg {
        lemma_cmp_digits_flip(strip_zeros(a.digits), strip_zeros(b.digits));
    }
}

/// Swapping the arguments of the cell comparison reverses its outcome.
pub proof fn lemma_cmp_cells_flip(a: Seq<char>, b: Seq<char>)
    ensures
        cmp_cells(b, a) == flip(cmp_cells(a, b)),
{
    reveal(cmp_cells);
    match (parse_num(a), parse_num(b)) {
        (Some(x), Some(y)) => lemma_num_cmp_flip(x, y),
        _ => crate::text::lemma_lex_cmp_flip(a, b),
    }
}

/// A parsed numeric cell held as executable data.
pub struct NumParts {
    pub neg: bool,
    pub digits: Vec<char>,
    pub frac: usize,
    pub exp: i64,
}

/// `first_e` is the first index holding an exponent marker.
proof fn lemma_first_e_at(s: Seq<char>, k: int)
    requires
        0 <= k <= s.len(),
        forall|j: int| 0 <= j < k ==> !(#[trigger] s[j] == 'e' || s[j] == 'E'),
        k < s.len() ==> (s[k] == 'e' || s[k] == 'E'),
    ensures
        first_e(s) == k,
    decreases k,
{
    if s.len() == 0 {
    } else if k == 0 {
    } else {
        assert(forall|j: int| 0 <= j < k - 1 ==> s.skip(1)[j] == s[j + 1]);
        if k - 1 < s.skip(1).len() {
            assert(s.skip(1)[k - 1] == s[k]);
        }
        lemma_first_e_at(s.skip(1), k - 1);
    }
}

/// `first_dot` is the first index holding a decimal point.
proof fn lemma_first_dot_at(s: Seq<char>, k: int)
    requires
        0 <= k <= s.len(),
        forall|j: int| 0 <= j < k ==> #[trigger] s[j] != '.',
        k < s.len() ==> s[k] == '.',
    ensures
        first_dot(s) == k,
    decreases k,
{
    if s.len() == 0 {
    } else if k == 0 {
    } else {
        assert(forall|j: int| 0 <= j < k - 1 ==> s.skip(1)[j] == s[j + 1]);
        if k - 1 < s.skip(1).len() {
            assert(s.skip(1)[k - 1] == s[k]);
        }
        lemma_first_dot_at(s.skip(1), k - 1);
    }
}

/// `strip_zeros` drops exactly the run of leading zeros.
proof fn lemma_strip_zeros_at(d: Seq<char>, k: int)
    requires
        0 <= k <= d.len(),
        forall|j: int| 0 <= j < k ==> #[trigger] d[j] == '0',
        k < d.len() ==> d[k] != '0',
    ensures
        strip_zeros(d) =~= d.skip(k),
    decreases k,
{
    if d.len() == 0 {
        assert(d.skip(0) =~= d);
    } else if k == 0 {
        assert(d.skip(0) =~= d);
    } else {
        assert(forall|j: int| 0 <= j < k - 1 ==> d.skip(1)[j] == d[j + 1]);
        if k - 1 < d.skip(1).len() {
            assert(d.skip(1)[k - 1] == d[k]);
        }
        lemma_strip_zeros_at(d.skip(1), k - 1);
        assert(d.skip(1).skip(k - 1) =~= d.skip(k));
    }
}

/// Reads a cell as a number, mirroring `parse_num`.
pub fn parse_num_exec(s: &str) -> (r: Option<NumParts>)
    ensures
        match parse_num(s@) {
            Some(n) => r matches Some(p) && p.neg == n.neg && p.digits@ == n.digits && p.frac
                == n.frac && p.exp == n.exp,
            None => r is None,
        },
{
    let len = s.unicode_len();
    if len == 0 {
        return None;
    }
    let c0 = s.get_char(0);
    let neg = c0 == '-';
    let off: usize = if c0 == '-' || c0 == '+' {
        1
    } else {
        0
    };
    let ghost body = if s@[0] == '-' || s@[0] == '+' {
        s@.skip(1)
    } else {
        s@
    };
    assert(body =~= s@.subrange(off as int, len as int));

    let e_abs = find_first_e(s, off, len);
    let ghost mant = body.take(e_abs - off);
    assert(mant =~= s@.subrange(off as int, e_abs as int));
    proof {
        assert(forall|j: int|
            0 <= j < e_abs - off ==> !(#[trigger] body[j] == 'e' || body[j] == 'E')) by {
            assert(forall|j: int| 0 <= j < e_abs - off ==> body[j] == s@[j + off]);
        }
        if e_abs < len {
            assert(body[e_abs - off] == s@[e_abs as int]);
        }
        lemma_first_e_at(body, e_abs - off);
    }

    let parsed_mant = scan_mantissa(s, off, e_abs);
    let (digits, frac) = match parsed_mant {
        Some(p) => p,
        None => {
            return None;
        },
    };

    let mut exp: i64 = 0;
    if e_abs < len {
        let ghost ex = body.skip(e_abs - off + 1);
        assert(ex =~= s@.subrange(e_abs as int + 1, len as int));
        match parse_exp(s, e_abs + 1, len) {
            Some(v) => {
                exp = v;
            },
            None => {
                return None;
            },
        }
    }
    Some(NumParts { neg, digits, frac, exp })
}

/// Finds the first exponent marker at or after the offset, or the length if
/// there is none.
fn find_first_e(s: &str, off: usize, len: usize) -> (r: usize)
    requires
        off <= len,
        len == s@.len(),
    ensures
        off <= r <= len,
        forall|j: int| off <= j < r ==> !(#[trigger] s@[j] == 'e' || s@[j] == 'E'),
        r < len ==> (s@[r as int] == 'e' || s@[r as int] == 'E'),
{
    let mut t: usize = off;
    while t < len
        invariant
            off <= t <= len,
            len == s@.len(),
            forall|j: int| off <= j < t ==> !(#[trigger] s@[j] == 'e' || s@[j] == 'E'),
        decreases len - t,
    {
        let c = s.get_char(t);
        if c == 'e' || c == 'E' {
            return t;
        }
        t += 1;
    }
    t
}

/// Scans the mantissa span: its digits with the decimal point removed and
/// its count of fractional digits, or nothing if the span is not a
/// well-formed mantissa.
fn scan_mantissa(s: &str, off: usize, e_abs: usize) -> (r: Option<(Vec<char>, usize)>)
    requires
        off <= e_abs <= s@.len(),
    ensures
        ({
            let mant = s@.subrange(off as int, e_abs as int);
            match r {
                Some(p) => is_mant(mant) && p.0@ == remove_dots(mant) && p.1 == mant_frac(mant),
                None => !is_mant(mant),
            }
        }),
{
    let ghost mant = s@.subrange(off as int, e_abs as int);
    let mut digits: Vec<char> = Vec::new();
    let mut dots: usize = 0;
    let mut dot_abs: usize = 0;
    let mut i: usize = off;
    while i < e_abs
        invariant
            off <= i <= e_abs <= s@.len(),
            mant =~= s@.subrange(off as int, e_abs as int),
            digits@ =~= remove_dots(mant.take(i - off)),
            dots as int == dot_count(mant.take(i - off)),
            forall|j: int| 0 <= j < i - off ==> is_digit(#[trigger] mant[j]) || mant[j] == '.',
            dots == 0 ==> forall|j: int| 0 <= j < i - off ==> #[trigger] mant[j] != '.',
            dots > 0 ==> off <= dot_abs < i && mant[dot_abs - off] == '.' && (forall|j: int|
                0 <= j < dot_abs - off ==> #[trigger] mant[j] != '.'),
        decreases e_abs - i,
    {
        let c = s.get_char(i);
        let ghost pre = mant.take(i - off);
        let ghost ext = mant.take(i - off + 1);
        assert(ext.drop_last() =~= pre);
        assert(ext.last() == mant[i - off] && mant[i - off] == s@[i as int]);
        if c == '.' {
            if dots == 0 {
                dot_abs = i;
            }
            proof {
                lemma_remove_dots_len(pre);
            }
            dots += 1;
        } else if c >= '0' && c <= '9' {
            digits.push(c);
        } else {
            assert(!(is_digit(mant[i - off]) || mant[i - off] == '.'));
            assert(!is_mant(mant));
            return None;
        }
        i += 1;
    }
    assert(mant.take(e_abs - off) =~= mant);
    if e_abs == off || dots > 1 || digits.len() == 0 {
        proof {
            lemma_remove_dots_len(mant);
            if e_abs == off {
                assert(mant.len() == 0);
            } else if dots <= 1 {
                assert(mant.len() - dot_count(mant) == 0);
            }
            assert(!is_mant(mant));
        }
        return None;
    }
    proof {
        lemma_remove_dots_len(mant);
        assert(is_mant(mant));
        if dots == 0 {
            lemma_first_dot_at(mant, mant.len() as int);
            assert(mant_frac(mant) == 0);
        } else {
            lemma_first_dot_at(mant, dot_abs - off);
            assert(mant_frac(mant) == e_abs - dot_abs - 1);
        }
    }
    let frac: usize = if dots == 0 {
        0
    } else {
        e_abs - dot_abs - 1
    };
    Some((digits, frac))
}

/// Reads the exponent span after the marker: its saturated value, or nothing
/// if the span is not a well-formed exponent.
fn parse_exp(s: &str, from: usize, len: usize) -> (r: Option<i64>)
    requires
        0 < from <= len,
        len == s@.len(),
    ensures
        ({
            let ex = s@.subrange(from as int, len as int);
            match r {
                Some(v) => is_exp(ex) && v == exp_val(ex),
                None => !is_exp(ex),
            }
        }),
{
    let ghost ex = s@.subrange(from as int, len as int);
    let mut j: usize = from;
    if j >= len {
        assert(ex.len() == 0);
        assert(!is_exp(ex));
        return None;
    }
    let cs = s.get_char(j);
    assert(ex[0] == s@[from as int]);
    let eneg = cs == '-';
    if cs == '-' || cs == '+' {
        j += 1;
    }
    let ghost eb = if ex[0] == '+' || ex[0] == '-' {
        ex.skip(1)
    } else {
        ex
    };
    assert(eb =~= s@.subrange(j as int, len as int));
    if j >= len {
        assert(eb.len() == 0);
        assert(!is_exp(ex));
        return None;
    }
    let ghost ebase = j as int;
    let mut acc: i64 = 0;
    while j < len
        invariant
            len == s@.len(),
            ebase <= j <= len,
            0 < ebase,
            ex =~= s@.subrange(from as int, len as int),
            eb == (if ex[0] == '+' || ex[0] == '-' {
                ex.skip(1)
            } else {
                ex
            }),
            from < ebase ==> (ex[0] == '+' || ex[0] == '-'),
            from == ebase ==> !(ex[0] == '+' || ex[0] == '-'),
            from as int == ebase || from as int + 1 == ebase,
            eneg == (ex[0] == '-'),
            eb =~= s@.subrange(ebase, len as int),
            all_digits(eb.take(j - ebase)),
            0 <= acc <= EXP_CAP,
            acc as int == (if digits_val(eb.take(j - ebase)) <= EXP_CAP as int {
                digits_val(eb.take(j - ebase))
            } else {
                EXP_CAP as int
            }),
        decreases len - j,
    {
        let c = s.get_char(j);
        let ghost pre = eb.take(j - ebase);
        let ghost extd = eb.take(j - ebase + 1);
        assert(extd.drop_last() =~= pre);
        assert(extd.last() == eb[j - ebase] && eb[j - ebase] == s@[j as int]);
        if !(c >= '0' && c <= '9') {
            assert(!all_digits(eb)) by {
                assert(eb[j - ebase] == s@[j as int]);
            }
            assert(!is_exp(ex));
            return None;
        }
        let d = (c as u32 - '0' as u32) as i64;
        assert(d == digit_val(c) && 0 <= d <= 9);
        proof {
            lemma_digits_val_bounds(pre);
            lemma_digits_val_bounds(extd);
            assert(digits_val(extd) == digits_val(pre) * 10 + d);
            if digits_val(pre) > EXP_CAP as int {
                assert(digits_val(extd) >= digits_val(pre)) by (nonlinear_arith)
                    requires
                        digits_val(extd) == digits_val(pre) * 10 + d,
                        digits_val(pre) >= 0,
                        d >= 0,
                ;
            }
            if digits_val(pre) <= EXP_CAP as int {
                assert(digits_val(pre) * 10 + d <= EXP_CAP as int * 10 + 9) by (nonlinear_arith)
                    requires
                        digits_val(pre) <= EXP_CAP as int,
                        digits_val(pre) >= 0,
                        0 <= d <= 9,
                ;
            }
        }
        if acc >= EXP_CAP {
            acc = EXP_CAP;
        } else {
            acc = acc * 10 + d;
            if acc > EXP_CAP {
                acc = EXP_CAP;
            }
        }
        j += 1;
    }
    assert(eb.take(len - ebase) =~= eb);
    assert(is_exp(ex));
    let v: i64 = if eneg {
        -acc
    } else {
        acc
    };
    assert(v as int == exp_val(ex));
    Some(v)
}

/// Removing dots keeps exactly the digit count.
proof fn lemma_remove_dots_len(s: Seq<char>)
    ensures
        remove_dots(s).len() == s.len() - dot_count(s),
        dot_count(s) >= 0,
    decreases s.len(),
{
    if s.len() > 0 {
        lemma_remove_dots_len(s.drop_last());
    }
}

/// Compares two digit vectors from the given offsets, the shorter read as
/// padded with zeros on the right.
fn cmp_digits_exec(a: &Vec<char>, ai: usize, b: &Vec<char>, bi: usize) -> (r: Rel)
    requires
        ai <= a@.len(),
        bi <= b@.len(),
    ensures
        r == cmp_digits(a@.skip(ai as int), b@.skip(bi as int)),
{
    let alen = a.len();
    let blen = b.len();
    let mut pa: usize = ai;
    let mut pb: usize = bi;
    while pa < alen || pb < blen
        invariant
            alen == a@.len(),
            blen == b@.len(),
            ai <= pa <= alen,
            bi <= pb <= blen,
            cmp_digits(a@.skip(ai as int), b@.skip(bi as int)) == cmp_digits(
                a@.skip(pa as int),
                b@.skip(pb as int),
            ),
        decreases (alen - pa) + (blen - pb),
    {
        let ghost sa = a@.skip(pa as int);
        let ghost sb = b@.skip(pb as int);
        let ca = if pa < alen {
            a[pa]
        } else {
            '0'
        };
        let cb = if pb < blen {
            b[pb]
        } else {
            '0'
        };
        proof {
            if pa < alen {
                assert(sa[0] == a@[pa as int]);
            }
            if pb < blen {
                assert(sb[0] == b@[pb as int]);
            }
            assert((if sa.len() > 0 { sa[0] } else { '0' }) == ca);
            assert((if sb.len() > 0 { sb[0] } else { '0' }) == cb);
        }
        if ca < cb {
            return Rel::Lt;
        }
        if cb < ca {
            return Rel::Gt;
        }
        proof {
            if sa.len() > 0 {
                assert(seq_tail(sa) =~= a@.skip(pa as int + 1));
            } else {
                assert(seq_tail(sa) =~= a@.skip(alen as int));
            }
            if sb.len() > 0 {
                assert(seq_tail(sb) =~= b@.skip(pb as int + 1));
            } else {
                assert(seq_tail(sb) =~= b@.skip(blen as int));
            }
        }
        if pa < alen {
            pa += 1;
        }
        if pb < blen {
            pb += 1;
        }
    }
    assert(a@.skip(alen as int).len() == 0 && b@.skip(blen as int).len() == 0);
    Rel::Eq
}

/// Finds where the leading zeros of the digit vector end.
fn first_nonzero(d: &Vec<char>) -> (r: usize)
    ensures
        r <= d@.len(),
        strip_zeros(d@) =~= d@.skip(r as int),
{
    let mut k: usize = 0;
    while k < d.len()
        invariant
            0 <= k <= d@.len(),
            forall|j: int| 0 <= j < k ==> #[trigger] d@[j] == '0',
        decreases d@.len() - k,
    {
        if d[k] != '0' {
            proof {
                lemma_strip_zeros_at(d@, k as int);
            }
            return k;
        }
        k += 1;
    }
    proof {
        lemma_strip_zeros_at(d@, d@.len() as int);
    }
    k
}

/// The parsed number a part vector stands for.
pub open spec fn num_of_parts(p: NumParts) -> Num {
    Num { neg: p.neg, digits: p.digits@, frac: p.frac as int, exp: p.exp as int }
}

/// Compares two parsed numbers by exact decimal value.
pub fn num_cmp_exec(x: &NumParts, y: &NumParts) -> (r: Rel)
    ensures
        r == num_cmp(num_of_parts(*x), num_of_parts(*y)),
{
    let xs = first_nonzero(&x.digits);
    let ys = first_nonzero(&y.digits);
    let xz = xs == x.digits.len();
    let yz = ys == y.digits.len();
    if xz && yz {
        return Rel::Eq;
    }
    if xz {
        return if y.neg {
            Rel::Gt
        } else {
            Rel::Lt
        };
    }
    if yz {
        return if x.neg {
            Rel::Lt
        } else {
            Rel::Gt
        };
    }
    if x.neg != y.neg {
        return if x.neg {
            Rel::Lt
        } else {
            Rel::Gt
        };
    }
    // most significant positions, in wide arithmetic
    let xp: i128 = x.exp as i128 - x.frac as i128 + (x.digits.len() - xs) as i128;
    let yp: i128 = y.exp as i128 - y.frac as i128 + (y.digits.len() - ys) as i128;
    assert(xp == num_pos(num_of_parts(*x)));
    assert(yp == num_pos(num_of_parts(*y)));
    let m = if xp < yp {
        Rel::Lt
    } else if yp < xp {
        Rel::Gt
    } else {
        cmp_digits_exec(&x.digits, xs, &y.digits, ys)
    };
    assert(m == mag_cmp(num_of_parts(*x), num_of_parts(*y)));
    if x.neg {
        match m {
            Rel::Lt => Rel::Gt,
            Rel::Eq => Rel::Eq,
            Rel::Gt => Rel::Lt,
        }
    } else {
        m
    }
}

/// Compares two cells for sorting: by exact decimal value when both read as
/// numbers, ordinally (by code point) otherwise.
pub fn cell_cmp(a: &str, b: &str) -> (r: Rel)
    ensures
        r == cmp_cells(a@, b@),
{
    proof {
        reveal(cmp_cells);
    }
    let pa = parse_num_exec(a);
    let pb = parse_num_exec(b);
    match (pa, pb) {
        (Some(x), Some(y)) => num_cmp_exec(&x, &y),
        _ => str_cmp(a, b),
    }
}

} // verus!
