//! Verified text helpers: decimal rendering of numbers and character-wise
//! string equality, both specified over `Seq<char>` views.

use vstd::prelude::*;

verus! {

/// The decimal digit character for a value below ten.
pub open spec fn digit_char(d: nat) -> char {
    if d == 0 {
        '0'
    } else if d == 1 {
        '1'
    } else if d == 2 {
        '2'
    } else if d == 3 {
        '3'
    } else if d == 4 {
        '4'
    } else if d == 5 {
        '5'
    } else if d == 6 {
        '6'
    } else if d == 7 {
        '7'
    } else if d == 8 {
        '8'
    } else {
        '9'
    }
}

/// The decimal rendering of a natural number, without leading zeros
/// (except for the single digit of zero itself).
pub open spec fn dec_of(n: nat) -> Seq<char>
    decreases n,
{
    if n < 10 {
        seq![digit_char(n)]
    } else {
        dec_of(n / 10) + seq![digit_char(n % 10)]
    }
}

/// The characters of a digit stack whose first element is the lowest
/// digit: the digits come out reversed.
pub open spec fn rev_digit_chars(ds: Seq<u8>) -> Seq<char>
    decreases ds.len(),
{
    if ds.len() == 0 {
        Seq::empty()
    } else {
        rev_digit_chars(ds.drop_first()) + seq![digit_char(ds[0] as nat)]
    }
}

proof fn lemma_rev_digit_chars_push(ds: Seq<u8>, d: u8)
    ensures
        rev_digit_chars(ds.push(d)) == seq![digit_char(d as nat)] + rev_digit_chars(ds),
    decreases ds.len(),
{
    if ds.len() == 0 {
        assert(ds.push(d).drop_first() =~= Seq::<u8>::empty());
        assert(ds.push(d)[0] == d);
        assert(rev_digit_chars(Seq::<u8>::empty()) == Seq::<char>::empty());
        assert(rev_digit_chars(ds.push(d)) == Seq::<char>::empty() + seq![digit_char(
            d as nat)]);
        assert(Seq::<char>::empty() + seq![digit_char(d as nat)] =~= seq![digit_char(d as nat)]
            + rev_digit_chars(ds));
    } else {
        assert(ds.push(d).drop_first() =~= ds.drop_first().push(d));
        lemma_rev_digit_chars_push(ds.drop_first(), d);
        assert(rev_digit_chars(ds.push(d)) == rev_digit_chars(ds.drop_first().push(d)) + seq![
            digit_char(ds[0] as nat)]);
        assert((seq![digit_char(d as nat)] + rev_digit_chars(ds.drop_first())) + seq![
            digit_char(ds[0] as nat)] =~= seq![digit_char(d as nat)] + rev_digit_chars(ds));
    }
}

/// The one-character string for a decimal digit.
pub fn digit_str(d: u8) -> (r: &'static str)
    requires
        d < 10,
    ensures
        r@ == seq![digit_char(d as nat)],
{
    proof {
        reveal_strlit("0");
        reveal_strlit("1");
        reveal_strlit("2");
        reveal_strlit("3");
        reveal_strlit("4");
        reveal_strlit("5");
        reveal_strlit("6");
        reveal_strlit("7");
        reveal_strlit("8");
        reveal_strlit("9");
    }
    let r = match d {
        0 => "0",
        1 => "1",
        2 => "2",
        3 => "3",
        4 => "4",
        5 => "5",
        6 => "6",
        7 => "7",
        8 => "8",
        _ => "9",
    };
    proof {
        assert(r@ =~= seq![digit_char(d as nat)]);
    }
    r
}

/// Renders a number in decimal.
pub fn u64_to_string(n: u64) -> (r: String)
    ensures
        r@ == dec_of(n as nat),
{
    let mut ds: Vec<u8> = Vec::new();
    ds.push((n % 10) as u8);
    let mut m: u64 = n / 10;
    proof {
        let d0 = (n % 10) as u8;
        assert(Seq::<u8>::empty().push(d0).drop_first() =~= Seq::<u8>::empty());
        assert(rev_digit_chars(Seq::<u8>::empty()) == Seq::<char>::empty());
        assert(rev_digit_chars(Seq::<u8>::empty().push(d0)) == Seq::<char>::empty() + seq![
            digit_char(d0 as nat)]);
        assert(Seq::<char>::empty() + seq![digit_char(d0 as nat)] =~= seq![digit_char(
            d0 as nat)]);
        assert(d0 as nat == (n as nat) % 10);
        if n >= 10 {
            assert(dec_of(n as nat) == dec_of((n as nat) / 10) + seq![digit_char(
                (n as nat) % 10)]);
            assert(m as nat == (n as nat) / 10);
        } else {
            assert(dec_of(n as nat) == seq![digit_char(n as nat)]);
        }
    }
    while m > 0
        invariant
            ds@.len() >= 1,
            forall|k: int| 0 <= k < ds@.len() ==> #[trigger] ds@[k] < 10,
            m > 0 ==> dec_of(n as nat) == dec_of(m as nat) + rev_digit_chars(ds@),
            m == 0 ==> dec_of(n as nat) == rev_digit_chars(ds@),
        decreases m,
    {
        let d = (m % 10) as u8;
        proof {
            lemma_rev_digit_chars_push(ds@, d);
            if m >= 10 {
                assert(dec_of(m as nat) == dec_of((m / 10) as nat) + seq![digit_char(
                    (m % 10) as nat)]);
                assert(dec_of((m / 10) as nat) + (seq![digit_char(d as nat)] + rev_digit_chars(
                    ds@)) =~= dec_of(m as nat) + rev_digit_chars(ds@));
            } else {
                assert(dec_of(m as nat) == seq![digit_char(m as nat)]);
                assert(seq![digit_char(d as nat)] + rev_digit_chars(ds@) =~= dec_of(m as nat)
                    + rev_digit_chars(ds@));
            }
        }
        ds.push(d);
        m = m / 10;
    }
    let mut out = String::new();
    let mut i: usize = ds.len();
    while i > 0
        invariant
            0 <= i <= ds@.len(),
            forall|k: int| 0 <= k < ds@.len() ==> #[trigger] ds@[k] < 10,
            dec_of(n as nat) == rev_digit_chars(ds@),
            out@ == rev_digit_chars(ds@.skip(i as int)),
        decreases i,
    {
        i = i - 1;
        let s = digit_str(ds[i]);
        out.append(s);
        proof {
            assert(ds@.skip(i as int).drop_first() =~= ds@.skip(i + 1));
            assert(rev_digit_chars(ds@.skip(i as int)) == rev_digit_chars(ds@.skip(i + 1))
                + seq![digit_char(ds@[i as int] as nat)]);
        }
    }
    proof {
        assert(ds@.skip(0) =~= ds@);
    }
    out
}

/// Renders a chunk position in decimal.
pub fn usize_to_string(n: usize) -> (r: String)
    ensures
        r@ == dec_of(n as nat),
{
    u64_to_string(n as u64)
}

/// Character-wise string equality, decided against the views.
pub fn str_eq(a: &str, b: &str) -> (r: bool)
    ensures
        r == (a@ == b@),
{
    let la = a.unicode_len();
    let lb = b.unicode_len();
    if la != lb {
        return false;
    }
    let mut i: usize = 0;
    while i < la
        invariant
            0 <= i <= la,
            la == a@.len(),
            la == b@.len(),
            forall|j: int| 0 <= j < i ==> a@[j] == b@[j],
        decreases la - i,
    {
        if a.get_char(i) != b.get_char(i) {
            return false;
        }
        i = i + 1;
    }
    proof {
        assert(a@ =~= b@);
    }
    true
}

} // verus!
