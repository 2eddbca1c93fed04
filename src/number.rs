//! Reading integers and fixed-point amounts from decimal text.
use vstd::prelude::*;

verus! {

/// An ASCII decimal digit.
pub open spec fn is_digit(c: char) -> bool {
    '0' <= c <= '9'
}

/// Every character is a decimal digit.
pub open spec fn all_digits(s: Seq<char>) -> bool {
    forall|i: int| 0 <= i < s.len() ==> is_digit(#[trigger] s[i])
}

/// The value of a string of decimal digits (zero for the empty string).
pub open spec fn digits_value(s: Seq<char>) -> int
    decreases s.len(),
{
    if s.len() == 0 {
        0
    } else {
        digits_value(s.drop_last()) * 10 + (s.last() as int - '0' as int)
    }
}

/// Whether the text starts with a minus sign, and the text after an optional
/// leading `+` or `-`.
pub open spec fn sign_split(s: Seq<char>) -> (bool, Seq<char>) {
    if s.len() > 0 && s[0] == '-' {
        (true, s.skip(1))
    } else if s.len() > 0 && s[0] == '+' {
        (false, s.skip(1))
    } else {
        (false, s)
    }
}

/// The integer that the text spells as an optional sign followed by at least
/// one digit, if it fits in an `i32`.
pub open spec fn year_of(s: Seq<char>) -> Option<int> {
    let (neg, d) = sign_split(s);
    let v = if neg {
        -digits_value(d)
    } else {
        digits_value(d)
    };
    if d.len() > 0 && all_digits(d) && i32::MIN <= v <= i32::MAX {
        Some(v)
    } else {
        None
    }
}

/// The position of the first `.` in `s`, or its length if there is none.
pub open spec fn dot_pos(s: Seq<char>) -> int
    decreases s.len(),
{
    if s.len() == 0 || s[0] == '.' {
        0
    } else {
        1 + dot_pos(s.drop_first())
    }
}

/// What a fractional part of at most two digits is worth in hundredths.
pub open spec fn frac_hundredths(f: Seq<char>) -> int {
    if f.len() == 1 {
        digits_value(f) * 10
    } else {
        digits_value(f)
    }
}

/// The first two digits of a fractional part, or all of it if it is shorter.
pub open spec fn frac_kept(f: Seq<char>) -> Seq<char> {
    if f.len() < 2 {
        f
    } else {
        f.take(2)
    }
}

/// Whether the digits past the second of a fractional part make up at least
/// half a hundredth: the third digit is 5 or more.
pub open spec fn rounds_up(f: Seq<char>) -> bool {
    f.len() > 2 && f[2] >= '5'
}

/// The amount, in hundredths, that the text spells: an optional sign, digits,
/// and optionally a `.` followed by digits, with at least one digit in all.
/// Digits past the second after the point round the amount to the nearest
/// hundredth, halves away from zero. The magnitude must fit in an `i64`.
pub open spec fn amount_of(s: Seq<char>) -> Option<int> {
    let (neg, body) = sign_split(s);
    let p = dot_pos(body);
    let ip = body.take(p);
    let fp = if p < body.len() {
        body.skip(p + 1)
    } else {
        Seq::empty()
    };
    let mag = digits_value(ip) * 100 + frac_hundredths(frac_kept(fp)) + if rounds_up(fp) {
        1int
    } else {
        0int
    };
    if all_digits(ip) && all_digits(fp) && ip.len() + fp.len() > 0 && mag <= i64::MAX {
        Some(
            if neg {
                -mag
            } else {
                mag
            },
        )
    } else {
        None
    }
}

proof fn lemma_digits_nonneg(s: Seq<char>)
    requires
        all_digits(s),
    ensures
        digits_value(s) >= 0,
    decreases s.len(),
{
    if s.len() > 0 {
        lemma_digits_nonneg(s.drop_last());
    }
}

/// A prefix of a digit string is worth no more than the whole.
proof fn lemma_digits_prefix_le(s: Seq<char>, k: int)
    requires
        all_digits(s),
        0 <= k <= s.len(),
    ensures
        digits_value(s.take(k)) <= digits_value(s),
    decreases s.len(),
{
    if k < s.len() {
        let t = s.drop_last();
        assert(t.take(k) =~= s.take(k));
        lemma_digits_prefix_le(t, k);
        lemma_digits_nonneg(t);
    } else {
        assert(s.take(k) =~= s);
    }
}

/// The position of the first `.` is where the scan for it stops.
proof fn lemma_dot_pos(s: Seq<char>, k: int)
    requires
        0 <= k <= s.len(),
        forall|j: int| 0 <= j < k ==> s[j] != '.',
    ensures
        k <= dot_pos(s) <= s.len(),
        k < s.len() && s[k] == '.' ==> dot_pos(s) == k,
        dot_pos(s) < s.len() ==> s[dot_pos(s)] == '.',
    decreases s.len(),
{
    if s.len() > 0 && s[0] != '.' {
        lemma_dot_pos(s.drop_first(), if k > 0 {
            k - 1
        } else {
            0
        });
    }
}

/// The value of the digits `s[from..to]`, if they are all digits and the
/// value is at most `cap`.
fn read_digits(s: &[char], from: usize, to: usize, cap: u64) -> (r: Option<u64>)
    requires
        from <= to <= s@.len(),
        cap <= 0x1000_0000_0000_0000,
    ensures
        r matches Some(v) ==> all_digits(s@.subrange(from as int, to as int)) && v
            == digits_value(s@.subrange(from as int, to as int)) && v <= cap,
        r is None ==> !all_digits(s@.subrange(from as int, to as int)) || digits_value(
            s@.subrange(from as int, to as int),
        ) > cap,
{
    let ghost whole = s@.subrange(from as int, to as int);
    let mut acc: u64 = 0;
    let mut i: usize = from;
    while i < to
        invariant
            from <= i <= to <= s@.len(),
            whole == s@.subrange(from as int, to as int),
            all_digits(s@.subrange(from as int, i as int)),
            acc == digits_value(s@.subrange(from as int, i as int)),
            acc <= cap,
            cap <= 0x1000_0000_0000_0000,
        decreases to - i,
    {
        let c = s[i];
        assert(s@.subrange(from as int, i as int + 1).drop_last() =~= s@.subrange(
            from as int,
            i as int,
        ));
        if !('0' <= c && c <= '9') {
            assert(whole[i - from] == c);
            return None;
        }
        let d = (c as u32 - '0' as u32) as u64;
        acc = acc * 10 + d;
        i = i + 1;
        assert(all_digits(s@.subrange(from as int, i as int))) by {
            assert forall|j: int| 0 <= j < i - from implies is_digit(
                #[trigger] s@.subrange(from as int, i as int)[j],
            ) by {
                if j < i - 1 - from {
                    assert(s@.subrange(from as int, i as int)[j] == s@.subrange(
                        from as int,
                        i as int - 1,
                    )[j]);
                }
            }
        }
        if acc > cap {
            proof {
                if all_digits(whole) {
                    assert(whole.take(i - from) =~= s@.subrange(from as int, i as int));
                    lemma_digits_prefix_le(whole, i - from);
                }
            }
            return None;
        }
    }
    assert(s@.subrange(from as int, i as int) =~= whole);
    Some(acc)
}

/// Reads an `i32` written as an optional sign followed by digits.
pub fn parse_year(s: &[char]) -> (r: Option<i32>)
    ensures
        r matches Some(v) ==> year_of(s@) == Some(v as int),
        r is None ==> year_of(s@) is None,
{
    let n = s.len();
    let mut start: usize = 0;
    let mut neg = false;
    if n > 0 && s[0] == '-' {
        neg = true;
        start = 1;
    } else if n > 0 && s[0] == '+' {
        start = 1;
    }
    assert(s@.subrange(start as int, n as int) =~= sign_split(s@).1);
    if start == n {
        return None;
    }
    match read_digits(s, start, n, 0x8000_0000) {
        None => None,
        Some(v) => {
            if neg {
                Some((0 - (v as i64)) as i32)
            } else if v <= 0x7fff_ffff {
                Some(v as i32)
            } else {
                None
            }
        },
    }
}

/// At most two digits are worth at most 99.
proof fn lemma_two_digits(f: Seq<char>)
    requires
        all_digits(f),
        f.len() <= 2,
    ensures
        0 <= digits_value(f) <= 99,
{
    if f.len() > 0 {
        let f1 = f.drop_last();
        assert(is_digit(f[f.len() - 1]));
        if f.len() > 1 {
            assert(is_digit(f[0]));
            assert(f1.drop_last().len() == 0);
            assert(digits_value(f1.drop_last()) == 0);
            assert(f1.last() == f[0]);
            assert(digits_value(f1) <= 9);
            lemma_digits_nonneg(f1);
        } else {
            assert(f1.len() == 0);
            assert(digits_value(f1) == 0);
        }
    }
}

/// Whether `s[from..to]` holds only digits.
fn only_digits(s: &[char], from: usize, to: usize) -> (r: bool)
    requires
        from <= to <= s@.len(),
    ensures
        r == all_digits(s@.subrange(from as int, to as int)),
{
    let mut i: usize = from;
    while i < to
        invariant
            from <= i <= to <= s@.len(),
            forall|j: int| from <= j < i ==> is_digit(#[trigger] s@[j]),
        decreases to - i,
    {
        if !('0' <= s[i] && s[i] <= '9') {
            assert(s@.subrange(from as int, to as int)[i - from] == s@[i as int]);
            return false;
        }
        i = i + 1;
    }
    assert forall|j: int| 0 <= j < to - from implies is_digit(
        #[trigger] s@.subrange(from as int, to as int)[j],
    ) by {
        assert(s@.subrange(from as int, to as int)[j] == s@[from + j]);
    }
    true
}

/// Reads an amount in hundredths, as [`amount_of`] describes.
#[verifier::rlimit(50)]
pub fn parse_amount(s: &[char]) -> (r: Option<i64>)
    ensures
        r matches Some(v) ==> amount_of(s@) == Some(v as int),
        r is None ==> amount_of(s@) is None,
{
    let n = s.len();
    let mut start: usize = 0;
    let mut neg = false;
    if n > 0 && s[0] == '-' {
        neg = true;
        start = 1;
    } else if n > 0 && s[0] == '+' {
        start = 1;
    }
    let ghost body = sign_split(s@).1;
    assert(s@.subrange(start as int, n as int) =~= body);
    let mut k: usize = start;
    while k < n && s[k] != '.'
        invariant
            start <= k <= n == s@.len(),
            body == s@.subrange(start as int, n as int),
            forall|j: int| 0 <= j < k - start ==> body[j] != '.',
        decreases n - k,
    {
        k = k + 1;
    }
    proof {
        lemma_dot_pos(body, k - start);
    }
    let frac_start: usize = if k < n {
        k + 1
    } else {
        n
    };
    let ghost ips = s@.subrange(start as int, k as int);
    let ghost fps = s@.subrange(frac_start as int, n as int);
    assert(ips =~= body.take(dot_pos(body)));
    assert(fps =~= (if dot_pos(body) < body.len() {
        body.skip(dot_pos(body) + 1)
    } else {
        Seq::empty()
    }));
    if k == start && frac_start == n {
        return None;
    }
    if !only_digits(s, frac_start, n) {
        return None;
    }
    let kept_end: usize = if n - frac_start < 2 {
        n
    } else {
        frac_start + 2
    };
    assert(s@.subrange(frac_start as int, kept_end as int) =~= frac_kept(fps));
    proof {
        assert forall|j: int| 0 <= j < frac_kept(fps).len() implies is_digit(
            #[trigger] frac_kept(fps)[j],
        ) by {
            assert(frac_kept(fps)[j] == fps[j]);
        }
        lemma_two_digits(frac_kept(fps));
    }
    let fv: u64 = match read_digits(s, frac_start, kept_end, 99) {
        Some(v) => v,
        None => return None,
    };
    let scaled: u64 = if kept_end - frac_start == 1 {
        fv * 10
    } else {
        fv
    };
    let up: u64 = if n - frac_start > 2 && s[frac_start + 2] >= '5' {
        assert(fps[2] == s@[frac_start + 2]);
        1
    } else {
        0
    };
    let iv: u64 = match read_digits(s, start, k, 92_233_720_368_547_758) {
        Some(v) => v,
        None => {
            proof {
                if all_digits(ips) {
                    assert(digits_value(ips) > 92_233_720_368_547_758);
                }
            }
            return None;
        },
    };
    let mag: u64 = iv * 100 + scaled + up;
    if mag > 0x7fff_ffff_ffff_ffff {
        None
    } else if neg {
        Some(0 - mag as i64)
    } else {
        Some(mag as i64)
    }
}

} // verus!
