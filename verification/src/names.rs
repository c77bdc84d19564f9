//! Segment file names.
//!
//! A segment file is named `<generation>.log`, the generation in decimal
//! with no leading zeros.  The segment store enumerates a directory with
//! [`parse_segment_file_name`], ignoring every file that does not carry a
//! canonical name, and names fresh segments with [`segment_file_name`].

use vstd::prelude::*;

verus! {

/// The decimal digits of `n`, most significant first, no leading zeros.
pub open spec fn dec_digits(n: nat) -> Seq<u8>
    decreases n,
{
    if n < 10 {
        seq![(48 + n) as u8]
    } else {
        dec_digits(n / 10).push((48 + n % 10) as u8)
    }
}

/// The `.log` suffix every segment file name carries.
pub open spec fn log_suffix() -> Seq<u8> {
    seq![46u8, 108u8, 111u8, 103u8]
}

/// The canonical file name of the segment of generation `g`.
pub open spec fn segment_name(g: u64) -> Seq<u8> {
    dec_digits(g as nat) + log_suffix()
}

/// The number a digit string stands for, most significant digit first.
pub open spec fn dec_val(s: Seq<u8>) -> int
    decreases s.len(),
{
    if s.len() == 0 {
        0
    } else {
        10 * dec_val(s.drop_last()) + (s.last() - 48)
    }
}

/// Every byte of `s` is an ASCII digit.
pub open spec fn all_digits(s: Seq<u8>) -> bool {
    forall|i: int| 0 <= i < s.len() ==> 48 <= #[trigger] s[i] <= 57
}

proof fn lemma_dec_digits_shape(n: nat)
    ensures
        dec_digits(n).len() >= 1,
        all_digits(dec_digits(n)),
        n >= 1 ==> dec_digits(n)[0] != 48,
        n < 10 ==> dec_digits(n).len() == 1,
    decreases n,
{
    if n >= 10 {
        lemma_dec_digits_shape(n / 10);
        assert forall|i: int| 0 <= i < dec_digits(n).len() implies 48 <= #[trigger] dec_digits(
            n,
        )[i] <= 57 by {
            if i < dec_digits(n).len() - 1 {
                assert(dec_digits(n)[i] == dec_digits(n / 10)[i]);
            }
        }
        assert(dec_digits(n)[0] == dec_digits(n / 10)[0]);
    }
}

/// Reading the digits of `n` back gives `n`.
proof fn lemma_dec_val_of_digits(n: nat)
    ensures
        dec_val(dec_digits(n)) == n,
    decreases n,
{
    if n < 10 {
        assert(dec_digits(n).drop_last() =~= Seq::<u8>::empty());
        assert(dec_val(Seq::<u8>::empty()) == 0);
        assert(dec_val(dec_digits(n)) == 10 * dec_val(dec_digits(n).drop_last()) + (dec_digits(
            n,
        ).last() - 48));
    } else {
        lemma_dec_val_of_digits(n / 10);
        assert(dec_digits(n).drop_last() =~= dec_digits(n / 10));
        assert(dec_val(dec_digits(n)) == 10 * dec_val(dec_digits(n).drop_last()) + (dec_digits(
            n,
        ).last() - 48));
    }
}

/// A digit string's value is nonnegative; with a nonzero leading digit it is
/// at least 1.
proof fn lemma_dec_val_bounds(s: Seq<u8>)
    requires
        all_digits(s),
    ensures
        dec_val(s) >= 0,
        s.len() >= 1 && s[0] != 48 ==> dec_val(s) >= 1,
    decreases s.len(),
{
    if s.len() >= 1 {
        assert(all_digits(s.drop_last()));
        lemma_dec_val_bounds(s.drop_last());
        if s.len() >= 2 {
            assert(s.drop_last()[0] == s[0]);
        }
    }
}

/// A digit string is never worth less than any of its prefixes.
proof fn lemma_dec_val_prefix(s: Seq<u8>, i: int)
    requires
        all_digits(s),
        0 <= i <= s.len(),
    ensures
        dec_val(s.take(i)) <= dec_val(s),
    decreases s.len() - i,
{
    if i < s.len() {
        lemma_dec_val_prefix(s, i + 1);
        let t = s.take(i + 1);
        assert(t.drop_last() =~= s.take(i));
        assert(all_digits(s.take(i)));
        lemma_dec_val_bounds(s.take(i));
        assert(dec_val(t) == 10 * dec_val(s.take(i)) + (s[i] - 48));
    } else {
        assert(s.take(i) =~= s);
    }
}

/// A nonempty digit string without a leading zero is the canonical digit
/// string of its own value.
proof fn lemma_digits_of_val(s: Seq<u8>)
    requires
        all_digits(s),
        s.len() >= 1,
        s.len() == 1 || s[0] != 48,
    ensures
        dec_digits(dec_val(s) as nat) == s,
    decreases s.len(),
{
    lemma_dec_val_bounds(s);
    let d: int = s.last() - 48;
    if s.len() == 1 {
        assert(s.drop_last() =~= Seq::<u8>::empty());
        assert(dec_val(Seq::<u8>::empty()) == 0);
        assert(dec_val(s) == d);
        assert(dec_digits(d as nat) =~= s);
    } else {
        let s0 = s.drop_last();
        assert(all_digits(s0));
        assert(s0[0] == s[0]);
        lemma_dec_val_bounds(s0);
        lemma_digits_of_val(s0);
        let v = dec_val(s);
        assert(v == 10 * dec_val(s0) + d);
        vstd::arithmetic::div_mod::lemma_fundamental_div_mod_converse(v, 10, dec_val(s0), d);
        assert(v >= 10);
        assert(dec_digits(v as nat) =~= s);
    }
}

/// Appends the decimal digits of `g`.
fn push_dec(g: u64, out: &mut Vec<u8>)
    ensures
        final(out)@ == old(out)@ + dec_digits(g as nat),
    decreases g,
{
    if g < 10 {
        out.push(48 + g as u8);
        proof {
            assert(out@ =~= old(out)@ + dec_digits(g as nat));
        }
    } else {
        push_dec(g / 10, out);
        out.push(48 + (g % 10) as u8);
        proof {
            assert(out@ =~= old(out)@ + dec_digits(g as nat));
        }
    }
}

/// The canonical file name of the segment of generation `g`, as bytes.
pub fn segment_file_name(generation: u64) -> (r: Vec<u8>)
    ensures
        r@ == segment_name(generation),
{
    let mut out: Vec<u8> = Vec::new();
    push_dec(generation, &mut out);
    out.push(46);
    out.push(108);
    out.push(111);
    out.push(103);
    proof {
        assert(out@ =~= segment_name(generation));
    }
    out
}

/// Reads a generation number back from a file name: `Some(g)` exactly when
/// the name is the canonical `<g>.log`, and `None` for every other name,
/// which the segment store ignores.
pub fn parse_segment_file_name(name: &Vec<u8>) -> (r: Option<u64>)
    ensures
        (r matches Some(g) ==> name@ == segment_name(g)),
        forall|g: u64| name@ == segment_name(g) ==> r == Some(g),
{
    let n: usize = name.len();
    if n < 5 {
        proof {
            assert forall|g: u64| name@ != segment_name(g) by {
                lemma_dec_digits_shape(g as nat);
            }
        }
        return None;
    }
    if name[n - 4] != 46 || name[n - 3] != 108 || name[n - 2] != 111 || name[n - 1] != 103 {
        proof {
            assert forall|g: u64| name@ != segment_name(g) by {
                lemma_dec_digits_shape(g as nat);
                if name@ == segment_name(g) {
                    let dl = dec_digits(g as nat).len() as int;
                    assert(dl == n - 4);
                    assert(name@[n - 4] == 46 && name@[n - 3] == 108 && name@[n - 2] == 111
                        && name@[n - 1] == 103);
                }
            }
        }
        return None;
    }
    let dlen: usize = n - 4;
    if name[0] == 48 && dlen > 1 {
        proof {
            assert forall|g: u64| name@ != segment_name(g) by {
                lemma_dec_digits_shape(g as nat);
                if name@ == segment_name(g) {
                    assert(dec_digits(g as nat).len() == dlen);
                    assert(name@[0] == dec_digits(g as nat)[0]);
                    assert(g as nat >= 1 ==> dec_digits(g as nat)[0] != 48);
                    assert((g as nat) < 10 ==> dec_digits(g as nat).len() == 1);
                }
            }
        }
        return None;
    }
    let ghost digits = name@.take(dlen as int);
    proof {
        assert forall|g: u64| name@ == segment_name(g) implies dec_digits(g as nat) == digits by {
            lemma_dec_digits_shape(g as nat);
            assert(dec_digits(g as nat).len() == dlen);
            assert(dec_digits(g as nat) =~= name@.take(dlen as int));
        }
    }
    let mut acc: u64 = 0;
    let mut i: usize = 0;
    while i < dlen
        invariant
            i <= dlen,
            dlen == n - 4,
            5 <= n,
            n == name@.len(),
            digits == name@.take(dlen as int),
            name@[n - 4] == 46 && name@[n - 3] == 108 && name@[n - 2] == 111 && name@[n - 1]
                == 103,
            name@[0] == 48 ==> dlen == 1,
            forall|j: int| 0 <= j < i ==> 48 <= #[trigger] name@[j] <= 57,
            acc == dec_val(name@.take(i as int)),
            forall|g: u64| name@ == segment_name(g) ==> dec_digits(g as nat) == digits,
        decreases dlen - i,
    {
        let b: u8 = name[i];
        if b < 48 || b > 57 {
            proof {
                assert forall|g: u64| name@ != segment_name(g) by {
                    if name@ == segment_name(g) {
                        lemma_dec_digits_shape(g as nat);
                        assert(digits[i as int] == name@[i as int]);
                    }
                }
            }
            return None;
        }
        let step = match acc.checked_mul(10) {
            Some(x) => x.checked_add((b - 48) as u64),
            None => None,
        };
        match step {
            Some(next) => {
                proof {
                    let t = name@.take(i as int + 1);
                    assert(t.drop_last() =~= name@.take(i as int));
                    assert(t.last() == name@[i as int]);
                }
                acc = next;
                i = i + 1;
            },
            None => {
                proof {
                    let t = name@.take(i as int + 1);
                    assert(t.drop_last() =~= name@.take(i as int));
                    assert(t.last() == name@[i as int]);
                    assert(dec_val(t) > u64::MAX);
                    assert forall|g: u64| name@ != segment_name(g) by {
                        if name@ == segment_name(g) {
                            assert(dec_digits(g as nat) == digits);
                            lemma_dec_digits_shape(g as nat);
                            assert(all_digits(digits));
                            lemma_dec_val_of_digits(g as nat);
                            assert(digits.take(i as int + 1) =~= t);
                            lemma_dec_val_prefix(digits, i as int + 1);
                        }
                    }
                }
                return None;
            },
        }
    }
    proof {
        assert(name@.take(dlen as int) == digits);
        assert(all_digits(digits)) by {
            assert forall|j: int| 0 <= j < digits.len() implies 48 <= #[trigger] digits[j]
                <= 57 by {
                assert(digits[j] == name@[j]);
            }
        }
        assert(digits.len() == 1 || digits[0] != 48) by {
            assert(digits[0] == name@[0]);
        }
        lemma_digits_of_val(digits);
        assert(acc == dec_val(digits));
        assert(name@ =~= dec_digits(acc as nat) + log_suffix());
        assert forall|g: u64| name@ == segment_name(g) implies g == acc by {
            assert(dec_digits(g as nat) == digits);
            lemma_dec_val_of_digits(g as nat);
        }
    }
    Some(acc)
}

} // verus!
