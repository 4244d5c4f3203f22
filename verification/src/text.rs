//! Character-level helpers: the characters of a string, decimal text and
//! UTF-8 text.

use vstd::prelude::*;
use vstd::utf8::{encode_utf8, valid_utf8};

verus! {

broadcast use vstd::string::group_string_axioms;

/// The characters of a string, in order.
pub fn chars_of(s: &str) -> (v: Vec<char>)
    ensures
        v@ == s@,
{
    let n = s.unicode_len();
    let mut v: Vec<char> = Vec::new();
    let mut i: usize = 0;
    while i < n
        invariant
            n == s@.len(),
            i <= n,
            v@ == s@.take(i as int),
        decreases n - i,
    {
        let c = s.get_char(i);
        v.push(c);
        i = i + 1;
        assert(v@ =~= s@.take(i as int));
    }
    assert(v@ =~= s@);
    v
}

/// The decimal digit character for `d` (0 to 9).
pub open spec fn digit_char(d: nat) -> char {
    if d == 0 { '0' } else if d == 1 { '1' } else if d == 2 { '2' } else if d == 3 { '3' } else if d == 4 { '4' }
    else if d == 5 { '5' } else if d == 6 { '6' } else if d == 7 { '7' } else if d == 8 { '8' } else { '9' }
}

/// The decimal representation of `n`, without leading zeros.
pub open spec fn decimal(n: nat) -> Seq<char>
    decreases n,
{
    if n < 10 {
        seq![digit_char(n)]
    } else {
        decimal(n / 10).push(digit_char(n % 10))
    }
}

/// The one-character text of digit `d`.
fn digit_text(d: u64) -> (s: &'static str)
    requires
        d < 10,
    ensures
        s@ == seq![digit_char(d as nat)],
{
    proof {
        reveal_strlit("0");
        reveal_strlit("1");
        reveal_strlit("2");
        reveal_strlit("3");
        reveal_strlit("4");
        reveal_strlit("5");
        reveal_strlit("6");
        reveal_strlit("7");
        reveal_strlit("8");
        reveal_strlit("9");
    }
    if d == 0 { "0" } else if d == 1 { "1" } else if d == 2 { "2" } else if d == 3 { "3" } else if d == 4 { "4" }
    else if d == 5 { "5" } else if d == 6 { "6" } else if d == 7 { "7" } else if d == 8 { "8" } else { "9" }
}

/// The decimal digits of `n`, least significant first.
pub open spec fn digits_rev(n: nat) -> Seq<nat>
    decreases n,
{
    if n < 10 {
        seq![n]
    } else {
        seq![n % 10] + digits_rev(n / 10)
    }
}

proof fn lemma_decimal_digits(n: nat)
    ensures
        decimal(n).len() == digits_rev(n).len(),
        forall|i: int| 0 <= i < decimal(n).len() ==> #[trigger] decimal(n)[i] == digit_char(digits_rev(n)[digits_rev(n).len() - 1 - i]),
        forall|i: int| 0 <= i < digits_rev(n).len() ==> #[trigger] digits_rev(n)[i] < 10,
    decreases n,
{
    if n >= 10 {
        lemma_decimal_digits(n / 10);
        let d = decimal(n);
        let r = digits_rev(n);
        assert forall|i: int| 0 <= i < d.len() implies #[trigger] d[i] == digit_char(r[r.len() - 1 - i]) by {
            if i < d.len() - 1 {
                assert(d[i] == decimal(n / 10)[i]);
                assert(r[r.len() - 1 - i] == digits_rev(n / 10)[digits_rev(n / 10).len() - 1 - i]);
            }
        }
        assert forall|i: int| 0 <= i < r.len() implies #[trigger] r[i] < 10 by {
            if i > 0 {
                assert(r[i] == digits_rev(n / 10)[i - 1]);
            }
        }
    }
}

/// The digits as natural numbers.
pub open spec fn as_nats(s: Seq<u64>) -> Seq<nat> {
    s.map_values(|d: u64| d as nat)
}

/// The decimal representation of `n`.
pub fn decimal_text(n: u64) -> (s: String)
    ensures
        s@ == decimal(n as nat),
{
    proof {
        lemma_decimal_digits(n as nat);
    }
    let ghost rd = digits_rev(n as nat);
    let mut digits: Vec<u64> = Vec::new();
    let mut m: u64 = n;
    assert(rd =~= as_nats(digits@) + digits_rev(m as nat));
    while m >= 10
        invariant
            rd == digits_rev(n as nat),
            rd == as_nats(digits@) + digits_rev(m as nat),
        decreases m,
    {
        digits.push(m % 10);
        assert(digits_rev(m as nat) == seq![(m % 10) as nat] + digits_rev((m / 10) as nat));
        m = m / 10;
        assert(rd =~= as_nats(digits@) + digits_rev(m as nat));
    }
    digits.push(m);
    assert(rd =~= as_nats(digits@)) by {
        assert(digits_rev(m as nat) == seq![m as nat]);
    }
    let mut s = String::new();
    let mut k: usize = digits.len();
    let ghost dec = decimal(n as nat);
    while k > 0
        invariant
            k <= digits@.len(),
            digits@.len() == rd.len(),
            dec.len() == rd.len(),
            rd == as_nats(digits@),
            forall|i: int| 0 <= i < dec.len() ==> #[trigger] dec[i] == digit_char(rd[rd.len() - 1 - i]),
            forall|i: int| 0 <= i < rd.len() ==> #[trigger] rd[i] < 10,
            s@ == dec.take(digits@.len() - k),
        decreases k,
    {
        k = k - 1;
        assert(rd[k as int] < 10);
        assert(rd[k as int] == digits@[k as int] as nat);
        let d = digit_text(digits[k]);
        s.append(d);
        proof {
            let j = digits@.len() - 1 - k;
            assert(dec[j] == digit_char(rd[k as int]));
            assert(dec.take(j + 1) =~= dec.take(j).push(dec[j]));
        }
    }
    assert(dec.take(dec.len() as int) =~= dec);
    s
}

/// The UTF-8 bytes of `String::from_utf8_lossy(bytes)`: `bytes` with each
/// invalid sequence replaced by U+FFFD.
pub uninterp spec fn utf8_lossy(bytes: Seq<u8>) -> Seq<u8>;

/// `String::from_utf8_lossy`: the text of `bytes`, whose UTF-8 encoding is
/// a function of `bytes` alone and is `bytes` itself when they are valid
/// UTF-8 (its documentation says that valid input comes back unchanged).
/// Invalid sequences are replaced only from the first byte at which the
/// input stops being valid (`Utf8Error::valid_up_to`, the longest valid
/// prefix), so every valid prefix of `bytes` begins the result.
#[verifier::external_body]
pub(crate) fn lossy_text(bytes: &[u8]) -> (r: String)
    ensures
        encode_utf8(r@) == utf8_lossy(bytes@),
        valid_utf8(bytes@) ==> encode_utf8(r@) == bytes@,
        forall|k: int| 0 <= k <= bytes@.len() && #[trigger] valid_utf8(bytes@.take(k))
            ==> encode_utf8(r@).len() >= k && encode_utf8(r@).take(k) == bytes@.take(k),
{
    String::from_utf8_lossy(bytes).into_owned()
}

} // verus!
