//! Whole numbers written in decimal: reading them as `str::parse::<i32>`
//! does, and writing them as `i32`'s `to_string` does.
use vstd::prelude::*;

verus! {

/// An ASCII decimal digit.
pub open spec fn is_digit(c: char) -> bool {
    '0' <= c && c <= '9'
}

/// The value of an ASCII digit.
pub open spec fn digit_value(c: char) -> int {
    (c as int) - ('0' as int)
}

/// Every character is an ASCII digit.
pub open spec fn all_digits(s: Seq<char>) -> bool {
    forall|i: int| 0 <= i < s.len() ==> is_digit(#[trigger] s[i])
}

/// The value of a string of digits.
pub open spec fn digits_value(s: Seq<char>) -> int
    decreases s.len(),
{
    if s.len() == 0 {
        0
    } else {
        digits_value(s.drop_last()) * 10 + digit_value(s.last())
    }
}

/// What `str::parse::<i32>` reads: an optional `+` or `-`, then one or more
/// ASCII digits, whose value must fit in an `i32`.
pub open spec fn parse_i32(s: Seq<char>) -> Option<i32> {
    let neg = s.len() > 0 && s[0] == '-';
    let ds = if s.len() > 0 && (s[0] == '-' || s[0] == '+') {
        s.drop_first()
    } else {
        s
    };
    if ds.len() == 0 || !all_digits(ds) {
        None
    } else {
        let v = if neg {
            -digits_value(ds)
        } else {
            digits_value(ds)
        };
        if i32::MIN <= v && v <= i32::MAX {
            Some(v as i32)
        } else {
            None
        }
    }
}

proof fn lemma_digits_value_grows(s: Seq<char>, k: int)
    requires
        0 <= k <= s.len(),
        all_digits(s),
    ensures
        digits_value(s) >= digits_value(s.take(k)),
        digits_value(s) >= 0,
    decreases s.len(),
{
    if s.len() > 0 {
        let d = s.drop_last();
        assert(all_digits(d)) by {
            assert forall|i: int| 0 <= i < d.len() implies is_digit(#[trigger] d[i]) by {
                assert(d[i] == s[i]);
            }
        }
        if k == s.len() {
            assert(s.take(k) =~= s);
            lemma_digits_value_grows(d, 0);
        } else {
            assert(s.take(k) =~= d.take(k));
            lemma_digits_value_grows(d, k);
        }
        assert(is_digit(s[s.len() - 1]));
    } else {
        assert(s.take(k) =~= s);
    }
}

/// Reads a decimal `i32` as `str::parse` does.
pub fn parse_i32_exec(s: &[char]) -> (r: Option<i32>)
    ensures
        r == parse_i32(s@),
{
    let neg = s.len() > 0 && s[0] == '-';
    let start: usize = if s.len() > 0 && (s[0] == '-' || s[0] == '+') {
        1
    } else {
        0
    };
    let ghost ds = if s@.len() > 0 && (s@[0] == '-' || s@[0] == '+') {
        s@.drop_first()
    } else {
        s@
    };
    assert(ds =~= s@.skip(start as int));
    if start >= s.len() {
        return None;
    }
    let bound: i64 = if neg {
        2147483648
    } else {
        2147483647
    };
    let mut acc: i64 = 0;
    let mut i = start;
    while i < s.len()
        invariant
            start <= i <= s@.len(),
            ds =~= s@.skip(start as int),
            ds == (if s@.len() > 0 && (s@[0] == '-' || s@[0] == '+') {
                s@.drop_first()
            } else {
                s@
            }),
            neg == (s@.len() > 0 && s@[0] == '-'),
            all_digits(ds.take(i - start)),
            acc as int == digits_value(ds.take(i - start)),
            0 <= acc <= bound,
            bound == (if neg {
                2147483648i64
            } else {
                2147483647i64
            }),
        decreases s@.len() - i,
    {
        let c = s[i];
        assert(ds.take(i - start + 1).drop_last() =~= ds.take(i - start));
        assert(ds[i - start] == c);
        if !('0' <= c && c <= '9') {
            assert(!all_digits(ds)) by {
                assert(!is_digit(ds[i - start]));
            }
            return None;
        }
        let d = (c as u32 - '0' as u32) as i64;
        assert(d as int == digit_value(c));
        assert(all_digits(ds.take(i - start + 1))) by {
            assert forall|j: int| 0 <= j < ds.take(i - start + 1).len() implies is_digit(
                #[trigger] ds.take(i - start + 1)[j],
            ) by {
                if j < i - start {
                    assert(ds.take(i - start + 1)[j] == ds.take(i - start)[j]);
                }
            }
        }
        if acc > (bound - d) / 10 {
            proof {
                assert(acc * 10 + d > bound) by (nonlinear_arith)
                    requires
                        acc > (bound - d) / 10,
                        0 <= d <= 9,
                        bound > 9,
                ;
                if all_digits(ds) {
                    lemma_digits_value_grows(ds, i - start + 1);
                }
            }
            return None;
        }
        assert(acc * 10 + d <= bound) by (nonlinear_arith)
            requires
                acc <= (bound - d) / 10,
                0 <= d <= 9,
                bound > 9,
        ;
        acc = acc * 10 + d;
        i = i + 1;
    }
    assert(ds.take(i - start) =~= ds);
    let v: i64 = if neg {
        -acc
    } else {
        acc
    };
    Some(v as i32)
}

/// The decimal digits of a natural number.
pub open spec fn nat_text(n: nat) -> Seq<char>
    decreases n,
{
    if n < 10 {
        seq![(n + ('0' as nat)) as char]
    } else {
        nat_text(n / 10) + seq![((n % 10) + ('0' as nat)) as char]
    }
}

/// An integer as `to_string` writes it: a `-` before a negative number.
pub open spec fn int_text(n: int) -> Seq<char> {
    if n < 0 {
        seq!['-'] + nat_text((-n) as nat)
    } else {
        nat_text(n as nat)
    }
}

fn digit_char(d: u64) -> (c: char)
    requires
        d < 10,
    ensures
        c as int == d + 48,
{
    match d {
        0 => '0',
        1 => '1',
        2 => '2',
        3 => '3',
        4 => '4',
        5 => '5',
        6 => '6',
        7 => '7',
        8 => '8',
        _ => '9',
    }
}

/// The decimal text of a natural number.
pub fn nat_to_text(m: u64) -> (r: Vec<char>)
    ensures
        r@ == nat_text(m as nat),
{
    let mut m = m;
    let ghost total = m as nat;
    let mut digits: Vec<char> = Vec::new();
    let mut started = false;
    while !started || m > 0
        invariant
            !started ==> m == total && digits@.len() == 0,
            started ==> nat_text(total) == (if m > 0 {
                nat_text(m as nat)
            } else {
                Seq::<char>::empty()
            }) + digits@,
        decreases m + (if started {
            0int
        } else {
            1int
        }),
    {
        let ghost old_m = m as nat;
        let ghost old_digits = digits@;
        let c = digit_char(m % 10);
        let mut nd: Vec<char> = Vec::new();
        nd.push(c);
        let mut k: usize = 0;
        while k < digits.len()
            invariant
                k <= digits@.len(),
                nd@ == seq![c] + digits@.take(k as int),
            decreases digits@.len() - k,
        {
            nd.push(digits[k]);
            assert(digits@.take(k + 1) =~= digits@.take(k as int).push(digits@[k as int]));
            k = k + 1;
        }
        assert(digits@.take(k as int) =~= digits@);
        digits = nd;
        m = m / 10;
        proof {
            assert(c == ((old_m % 10) + ('0' as nat)) as char);
            if old_m >= 10 {
                assert(nat_text(old_m) == nat_text(old_m / 10) + seq![((old_m % 10) + ('0' as nat)) as char]);
                assert(nat_text(total) =~= nat_text(m as nat) + digits@);
            } else {
                assert(nat_text(old_m) == seq![(old_m + ('0' as nat)) as char]);
                assert(nat_text(total) =~= digits@);
            }
        }
        started = true;
    }
    assert(nat_text(total) =~= digits@);
    digits
}

/// The decimal text of an `i32`.
pub fn int_to_text(n: i32) -> (r: Vec<char>)
    ensures
        r@ == int_text(n as int),
{
    let m: u64 = if n < 0 {
        (-(n as i64)) as u64
    } else {
        n as u64
    };
    assert((m as nat) == (if n < 0 { -(n as int) } else { n as int }));
    let digits = nat_to_text(m);
    if n < 0 {
        let mut r: Vec<char> = Vec::new();
        r.push('-');
        let mut k: usize = 0;
        while k < digits.len()
            invariant
                k <= digits@.len(),
                r@ == seq!['-'] + digits@.take(k as int),
            decreases digits@.len() - k,
        {
            r.push(digits[k]);
            assert(digits@.take(k + 1) =~= digits@.take(k as int).push(digits@[k as int]));
            k = k + 1;
        }
        assert(digits@.take(k as int) =~= digits@);
        r
    } else {
        digits
    }
}

pub proof fn lemma_nat_text(n: nat)
    ensures
        nat_text(n).len() > 0,
        all_digits(nat_text(n)),
        digits_value(nat_text(n)) == n,
    decreases n,
{
    let t = nat_text(n);
    if n < 10 {
        assert(t.drop_last() =~= Seq::<char>::empty());
        assert(t.last() as int == n + 48);
        assert(digit_value(t.last()) == n);
        assert(digits_value(t) == digits_value(t.drop_last()) * 10 + digit_value(t.last()));
        assert(digits_value(t.drop_last()) == 0);
    } else {
        lemma_nat_text(n / 10);
        let p = nat_text(n / 10);
        assert(t.drop_last() =~= p);
        assert(t.last() == ((n % 10) + ('0' as nat)) as char);
        assert(t.last() as int == n % 10 + 48);
        assert(forall|i: int| 0 <= i < p.len() ==> t[i] == p[i]);
        assert((n / 10) * 10 + n % 10 == n) by (nonlinear_arith);
        assert(digit_value(t.last()) == n % 10);
        assert(digits_value(t) == digits_value(p) * 10 + digit_value(t.last()));
        assert(digits_value(p) * 10 == (n / 10) * 10);
    }
}

/// The text of an integer is not empty, holds only digits and a leading
/// `-`, and ends in a digit.
pub proof fn lemma_int_text_chars(n: int)
    ensures
        int_text(n).len() > 0,
        forall|i: int| 0 <= i < int_text(n).len() ==> (#[trigger] int_text(n)[i] == '-' || is_digit(int_text(n)[i])),
        is_digit(int_text(n).last()),
{
    if n < 0 {
        let m = (-n) as nat;
        lemma_nat_text(m);
        let t = int_text(n);
        assert forall|i: int| 0 <= i < t.len() implies (#[trigger] t[i] == '-' || is_digit(t[i])) by {
            if i > 0 {
                assert(t[i] == nat_text(m)[i - 1]);
            }
        }
        assert(t.last() == nat_text(m).last());
    } else {
        lemma_nat_text(n as nat);
    }
}


/// A number written as text reads back as the same number.
pub proof fn lemma_int_text_round_trip(n: i32)
    ensures
        parse_i32(int_text(n as int)) == Some(n),
{
    if n < 0 {
        let m = (-(n as int)) as nat;
        lemma_nat_text(m);
        let s = int_text(n as int);
        assert(s.drop_first() =~= nat_text(m));
    } else {
        lemma_nat_text(n as nat);
        let t = nat_text(n as nat);
        assert(is_digit(t[0]));
    }
}

} // verus!
