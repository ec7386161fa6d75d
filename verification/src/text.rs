//! Decimal text: rendering numbers and literals into strings, and reading
//! numbers out of byte tokens.

use vstd::prelude::*;

use vstd::string::StringExecFns;

verus! {

/// The character of a decimal digit.
pub open spec fn digit_char(d: int) -> char {
    if d == 0 {
        '0'
    } else if d == 1 {
        '1'
    } else if d == 2 {
        '2'
    } else if d == 3 {
        '3'
    } else if d == 4 {
        '4'
    } else if d == 5 {
        '5'
    } else if d == 6 {
        '6'
    } else if d == 7 {
        '7'
    } else if d == 8 {
        '8'
    } else {
        '9'
    }
}

/// The decimal representation of a non-negative number.
pub open spec fn dec_chars(n: int) -> Seq<char>
    recommends
        n >= 0,
    decreases n,
{
    if n < 10 {
        seq![digit_char(n)]
    } else {
        dec_chars(n / 10).push(digit_char(n % 10))
    }
}

/// The decimal representation of a signed literal: a minus sign leads a
/// negative one.
pub open spec fn lit_chars(l: int) -> Seq<char> {
    if l < 0 {
        seq!['-'] + dec_chars(-l)
    } else {
        dec_chars(l)
    }
}

/// The reversed digit buffer as characters: last digit first.
pub open spec fn rev_digit_chars(ds: Seq<u8>) -> Seq<char>
    decreases ds.len(),
{
    if ds.len() == 0 {
        Seq::empty()
    } else {
        seq![digit_char(ds.last() as int)] + rev_digit_chars(ds.drop_last())
    }
}

/// Peeling the first digit of a reversed buffer appends its character.
proof fn lemma_rev_digit_first(ds: Seq<u8>)
    requires
        ds.len() > 0,
    ensures
        rev_digit_chars(ds) == rev_digit_chars(ds.drop_first()) + seq![digit_char(ds[0] as int)],
    decreases ds.len(),
{
    if ds.len() == 1 {
        assert(ds.drop_first() =~= Seq::empty());
        assert(ds.drop_last() =~= Seq::empty());
        assert(rev_digit_chars(ds) =~= rev_digit_chars(ds.drop_first()) + seq![
            digit_char(ds[0] as int),
        ]);
    } else {
        let dl = ds.drop_last();
        lemma_rev_digit_first(dl);
        assert(ds.drop_first().drop_last() =~= dl.drop_first());
        assert(ds.drop_first().last() == ds.last());
        assert(rev_digit_chars(ds.drop_first()) == seq![digit_char(ds.last() as int)]
            + rev_digit_chars(dl.drop_first()));
        assert(rev_digit_chars(ds) =~= rev_digit_chars(ds.drop_first()) + seq![
            digit_char(ds[0] as int),
        ]);
    }
}

/// The one-character string of a decimal digit.
fn digit_str(d: u8) -> (r: &'static str)
    requires
        d < 10,
    ensures
        r@.len() == 1,
        r@[0] == digit_char(d as int),
{
    proof {
        reveal_strlit("0");
        reveal_strlit("1");
        reveal_strlit("2");
        reveal_strlit("3");
        reveal_strlit("4");
        reveal_strlit("5");
        reveal_strlit("6");
        reveal_strlit("7");
        reveal_strlit("8");
        reveal_strlit("9");
    }
    match d {
        0 => "0",
        1 => "1",
        2 => "2",
        3 => "3",
        4 => "4",
        5 => "5",
        6 => "6",
        7 => "7",
        8 => "8",
        _ => "9",
    }
}

/// Appends the decimal representation of `n` to the output string.
pub fn append_dec(out: &mut String, n: u64)
    ensures
        final(out)@ == old(out)@ + dec_chars(n as int),
{
    let mut digits: Vec<u8> = Vec::new();
    let mut m: u64 = n;
    digits.push((m % 10) as u8);
    m = m / 10;
    proof {
        assert(digits@ =~= seq![(n % 10) as u8]);
        assert(digits@.drop_last() =~= Seq::<u8>::empty());
        assert(rev_digit_chars(Seq::<u8>::empty()) =~= Seq::<char>::empty());
        assert(rev_digit_chars(digits@) =~= seq![digit_char((n % 10) as int)]);
        if n < 10 {
            assert(dec_chars(n as int) =~= seq![digit_char(n as int)]);
            assert(Seq::<char>::empty() + rev_digit_chars(digits@) =~= dec_chars(n as int));
        } else {
            assert(dec_chars(n as int) == dec_chars(n as int / 10).push(digit_char(n as int % 10)));
            assert(dec_chars(m as int) + rev_digit_chars(digits@) =~= dec_chars(n as int));
        }
    }
    while m > 0
        invariant
            digits@.len() >= 1,
            forall|k: int| 0 <= k < digits@.len() ==> #[trigger] digits@[k] < 10,
            dec_chars(n as int) == (if m > 0 {
                dec_chars(m as int)
            } else {
                Seq::<char>::empty()
            }) + rev_digit_chars(digits@),
        decreases m,
    {
        let d = (m % 10) as u8;
        let ghost pre = digits@;
        digits.push(d);
        proof {
            assert(digits@.last() == d);
            assert(digits@.drop_last() =~= pre);
            if m >= 10 {
                assert(dec_chars(m as int) == dec_chars(m as int / 10).push(
                    digit_char(m as int % 10),
                ));
                assert(dec_chars(m as int / 10) + (seq![digit_char(m as int % 10)]
                    + rev_digit_chars(pre)) =~= dec_chars(m as int) + rev_digit_chars(pre));
            } else {
                assert(dec_chars(m as int) =~= seq![digit_char(m as int)]);
                assert(seq![digit_char(m as int)] + rev_digit_chars(pre) =~= dec_chars(m as int)
                    + rev_digit_chars(pre));
            }
        }
        m = m / 10;
    }
    let ghost start = out@;
    let mut i: usize = digits.len();
    proof {
        assert(digits@.skip(digits@.len() as int) =~= Seq::<u8>::empty());
        assert(out@ =~= start + rev_digit_chars(digits@.skip(i as int)));
        assert(Seq::<char>::empty() + rev_digit_chars(digits@) =~= rev_digit_chars(digits@));
    }
    while i > 0
        invariant
            0 <= i <= digits@.len(),
            forall|k: int| 0 <= k < digits@.len() ==> #[trigger] digits@[k] < 10,
            dec_chars(n as int) == rev_digit_chars(digits@),
            out@ == start + rev_digit_chars(digits@.skip(i as int)),
        decreases i,
    {
        i -= 1;
        let s = digit_str(digits[i]);
        let ghost pre_out = out@;
        out.append(s);
        proof {
            let tail = digits@.skip(i as int);
            lemma_rev_digit_first(tail);
            assert(tail.drop_first() =~= digits@.skip(i + 1));
            assert(tail[0] == digits@[i as int]);
            assert(s@ =~= seq![digit_char(digits@[i as int] as int)]);
            assert(out@ =~= pre_out + seq![digit_char(digits@[i as int] as int)]);
            assert(out@ =~= start + rev_digit_chars(digits@.skip(i as int))) by {
                assert(rev_digit_chars(tail) == rev_digit_chars(digits@.skip(i + 1)) + seq![
                    digit_char(digits@[i as int] as int),
                ]);
                assert(start + (rev_digit_chars(digits@.skip(i + 1)) + seq![
                    digit_char(digits@[i as int] as int),
                ]) =~= (start + rev_digit_chars(digits@.skip(i + 1))) + seq![
                    digit_char(digits@[i as int] as int),
                ]);
            }
        }
    }
    proof {
        assert(digits@.skip(0) =~= digits@);
        assert(Seq::<char>::empty() + rev_digit_chars(digits@) =~= rev_digit_chars(digits@));
    }
}

/// Appends the decimal representation of a signed literal.
pub fn append_lit(out: &mut String, l: i64)
    ensures
        final(out)@ == old(out)@ + lit_chars(l as int),
{
    let ghost start = out@;
    if l < 0 {
        proof {
            reveal_strlit("-");
        }
        out.append("-");
        proof {
            assert(out@ =~= start + seq!['-']);
        }
        let m: u64 = (-(l as i128)) as u64;
        append_dec(out, m);
        proof {
            assert(start + seq!['-'] + dec_chars(m as int) =~= start + (seq!['-'] + dec_chars(
                -(l as int),
            )));
        }
    } else {
        append_dec(out, l as u64);
    }
}

/// Whether a byte is an ASCII decimal digit.
pub open spec fn is_digit(b: u8) -> bool {
    48 <= b <= 57
}

/// Whether every byte of a token is a decimal digit.
pub open spec fn all_digits(s: Seq<u8>) -> bool {
    forall|k: int| 0 <= k < s.len() ==> is_digit(#[trigger] s[k])
}

/// The value of a token of decimal digits.
pub open spec fn digits_val(s: Seq<u8>) -> int
    decreases s.len(),
{
    if s.len() == 0 {
        0
    } else {
        digits_val(s.drop_last()) * 10 + (s.last() - 48)
    }
}

/// A digit token's value is never negative.
pub proof fn lemma_digits_val_nonneg(s: Seq<u8>)
    requires
        all_digits(s),
    ensures
        digits_val(s) >= 0,
    decreases s.len(),
{
    if s.len() > 0 {
        assert(all_digits(s.drop_last())) by {
            assert(forall|k: int| 0 <= k < s.len() - 1 ==> s.drop_last()[k] == s[k]);
        }
        lemma_digits_val_nonneg(s.drop_last());
    }
}

/// A longer digit token never has a smaller value.
pub proof fn lemma_digits_val_prefix(s: Seq<u8>, i: int)
    requires
        all_digits(s),
        0 <= i <= s.len(),
    ensures
        digits_val(s.take(i)) <= digits_val(s),
    decreases s.len() - i,
{
    assert(all_digits(s.take(i))) by {
        assert(forall|k: int| 0 <= k < i ==> s.take(i)[k] == s[k]);
    }
    if i < s.len() {
        lemma_digits_val_prefix(s, i + 1);
        assert(s.take(i + 1).drop_last() =~= s.take(i));
        assert(digits_val(s.take(i + 1)) == digits_val(s.take(i)) * 10 + (s[i] - 48));
        lemma_digits_val_nonneg(s.take(i));
        assert(digits_val(s.take(i)) * 10 >= digits_val(s.take(i))) by (nonlinear_arith)
            requires
                digits_val(s.take(i)) >= 0,
        ;
    } else {
        assert(s.take(i) =~= s);
    }
}

/// A token that denotes one representable number.
pub open spec fn digits_token_ok(t: Seq<u8>) -> bool {
    t.len() > 0 && all_digits(t) && digits_val(t) <= usize::MAX
}

/// Reads a non-negative number out of a token of bytes.  Succeeds if, and
/// only if, the token is non-empty, all digits, and its value is
/// representable.
pub fn parse_usize_token(t: &Vec<u8>) -> (r: Option<usize>)
    ensures
        match r {
            Some(v) => {
                &&& t@.len() > 0
                &&& all_digits(t@)
                &&& digits_val(t@) <= usize::MAX
                &&& v == digits_val(t@)
            },
            None => !(t@.len() > 0 && all_digits(t@) && digits_val(t@) <= usize::MAX),
        },
{
    if t.len() == 0 {
        return None;
    }
    let mut v: u128 = 0;
    let mut i: usize = 0;
    while i < t.len()
        invariant
            0 <= i <= t@.len(),
            forall|k: int| 0 <= k < i ==> is_digit(#[trigger] t@[k]),
            v == digits_val(t@.take(i as int)),
            v <= usize::MAX,
        decreases t@.len() - i,
    {
        let b = t[i];
        if b < 48 || b > 57 {
            return None;
        }
        proof {
            assert(t@.take(i + 1int).drop_last() =~= t@.take(i as int));
            assert(t@.take(i + 1int).last() == t@[i as int]);
        }
        let next: u128 = v * 10 + ((b - 48) as u128);
        if next > usize::MAX as u128 {
            proof {
                assert(all_digits(t@.take(i + 1int))) by {
                    assert(forall|k: int| 0 <= k < i + 1 ==> t@.take(i + 1int)[k] == t@[k]);
                }
                if all_digits(t@) {
                    lemma_digits_val_prefix(t@, i + 1int);
                }
            }
            return None;
        }
        v = next;
        i += 1;
    }
    proof {
        assert(t@.take(t@.len() as int) =~= t@);
    }
    Some(v as usize)
}

} // verus!
