//! Canonical decimal text: printing an unsigned integer and parsing it back.
//!
//! Table keys are convertible to and from text, and the self-describing wire
//! format writes every number in this canonical form (no sign, no leading
//! zero). Printing and parsing are proved inverse to each other.
use vstd::prelude::*;

verus! {

/// Whether `c` is an ASCII decimal digit.
pub open spec fn is_digit(c: char) -> bool {
    48 <= c as u32 <= 57
}

/// The digit character for a value in `0..10`.
pub open spec fn digit_char(d: int) -> char {
    ((48 + d) as u8) as char
}

/// The canonical decimal text of a non-negative integer.
pub open spec fn dec_digits(n: int) -> Seq<char>
    recommends
        n >= 0,
    decreases n,
{
    if n < 10 {
        seq![digit_char(if n < 0 { 0 } else { n })]
    } else {
        dec_digits(n / 10).push(digit_char(n % 10))
    }
}

/// The value of a run of digit characters, most significant first.
pub open spec fn digits_val(t: Seq<char>) -> int
    decreases t.len(),
{
    if t.len() == 0 {
        0
    } else {
        digits_val(t.drop_last()) * 10 + (t.last() as u32 - 48)
    }
}

/// Whether `t` is canonical decimal text: non-empty, all digits, and without
/// a superfluous leading zero.
pub open spec fn is_canon_dec(t: Seq<char>) -> bool {
    &&& t.len() > 0
    &&& forall|i: int| 0 <= i < t.len() ==> is_digit(#[trigger] t[i])
    &&& (t.len() == 1 || t[0] != '0')
}

/// The number a piece of text denotes, if it is canonical decimal.
pub open spec fn dec_value(t: Seq<char>) -> Option<int> {
    if is_canon_dec(t) {
        Some(digits_val(t))
    } else {
        None
    }
}

/// Printing yields canonical text whose value is the printed number.
pub proof fn lemma_dec_round_trip(n: int)
    requires
        n >= 0,
    ensures
        dec_value(dec_digits(n)) == Some(n),
        dec_digits(n).len() >= 1,
    decreases n,
{
    if n < 10 {
        let t = seq![digit_char(n)];
        assert(dec_digits(n) =~= t);
        assert(t.drop_last() =~= Seq::<char>::empty());
        assert(digits_val(t.drop_last()) == 0);
        assert(t.last() == digit_char(n));
        assert(t.last() as u32 == 48 + n);
        assert(digits_val(t) == n);
        assert(is_digit(t[0]));
    } else {
        lemma_dec_round_trip(n / 10);
        let pre = dec_digits(n / 10);
        let t = pre.push(digit_char(n % 10));
        assert(t.drop_last() =~= pre);
        assert(t.last() == digit_char(n % 10));
        assert(t.last() as u32 == 48 + n % 10);
        assert(digits_val(t) == digits_val(pre) * 10 + n % 10);
        assert(digits_val(pre) == n / 10);
        assert(digits_val(t) == n);
        assert(t[0] == pre[0]);
        if n / 10 < 10 {
            assert(pre =~= seq![digit_char(n / 10)]);
            assert(pre[0] as u32 == 48 + n / 10);
            assert(n / 10 >= 1);
            assert(pre[0] as u32 != 48);
            assert('0' as u32 == 48);
        } else {
            lemma_dec_round_trip(n / 100);
            assert(pre == dec_digits(n / 100).push(digit_char((n / 10) % 10)));
            assert(pre.len() >= 2);
        }
        assert(t[0] != '0');
        assert(forall|i: int| 0 <= i < t.len() ==> is_digit(#[trigger] t[i]));
    }
}

/// Two different numbers never print to the same text.
pub proof fn lemma_dec_injective(a: int, b: int)
    requires
        a >= 0,
        b >= 0,
        dec_digits(a) == dec_digits(b),
    ensures
        a == b,
{
    lemma_dec_round_trip(a);
    lemma_dec_round_trip(b);
}

/// A prefix of a digit run never denotes more than the whole run.
pub proof fn lemma_digits_val_prefix(t: Seq<char>, j: int)
    requires
        0 <= j <= t.len(),
        forall|i: int| 0 <= i < t.len() ==> is_digit(#[trigger] t[i]),
    ensures
        digits_val(t.take(j)) <= digits_val(t),
        digits_val(t) >= 0,
    decreases t.len() - j,
{
    if j == t.len() {
        assert(t.take(j) =~= t);
        lemma_digits_val_nonneg(t);
    } else {
        lemma_digits_val_prefix(t, j + 1);
        let tj = t.take(j);
        let tj1 = t.take(j + 1);
        assert(tj1.drop_last() =~= tj);
        assert(tj1.last() == t[j]);
        lemma_digits_val_nonneg(tj);
        assert(digits_val(tj1) == digits_val(tj) * 10 + (t[j] as u32 - 48));
    }
}

/// A run of digits denotes a non-negative number.
pub proof fn lemma_digits_val_nonneg(t: Seq<char>)
    requires
        forall|i: int| 0 <= i < t.len() ==> is_digit(#[trigger] t[i]),
    ensures
        digits_val(t) >= 0,
    decreases t.len(),
{
    if t.len() > 0 {
        assert(forall|i: int| 0 <= i < t.drop_last().len() ==> is_digit(
            #[trigger] t.drop_last()[i],
        ));
        lemma_digits_val_nonneg(t.drop_last());
    }
}

/// Append the canonical decimal digits of `n` to `out`.
pub fn push_dec(n: u64, out: &mut Vec<char>)
    ensures
        final(out)@ == old(out)@ + dec_digits(n as int),
    decreases n,
{
    if n < 10 {
        let c: char = ((48 + n) as u8) as char;
        out.push(c);
        assert(out@ =~= old(out)@ + dec_digits(n as int));
    } else {
        push_dec(n / 10, out);
        let c: char = ((48 + (n % 10)) as u8) as char;
        out.push(c);
        assert(out@ =~= old(out)@ + dec_digits(n as int));
    }
}

/// Parse a whole character slice as a canonical decimal `u64`.
///
/// Returns `None` exactly when the text is not canonical decimal or its
/// value does not fit in a `u64`.
pub fn parse_dec(cs: &[char]) -> (r: Option<u64>)
    ensures
        match r {
            Some(v) => dec_value(cs@) == Some(v as int),
            None => dec_value(cs@) is None || (dec_value(cs@) matches Some(v) && v
                > u64::MAX as int),
        },
{
    let n = cs.len();
    if n == 0 {
        return None;
    }
    let first = cs[0];
    if n > 1 && first == '0' {
        assert(!is_canon_dec(cs@));
        return None;
    }
    let mut acc: u64 = 0;
    let mut i: usize = 0;
    while i < n
        invariant
            0 <= i <= n,
            n == cs@.len(),
            forall|j: int| 0 <= j < i ==> is_digit(#[trigger] cs@[j]),
            acc as int == digits_val(cs@.take(i as int)),
        decreases n - i,
    {
        let c = cs[i];
        let code = c as u32;
        if code < 48 || code > 57 {
            assert(!is_digit(cs@[i as int]));
            return None;
        }
        let d: u64 = (code - 48) as u64;
        proof {
            let tj1 = cs@.take(i + 1);
            assert(tj1.drop_last() =~= cs@.take(i as int));
            assert(tj1.last() == cs@[i as int]);
        }
        if acc > (u64::MAX - d) / 10 {
            proof {
                assert(digits_val(cs@.take(i + 1)) > u64::MAX as int) by {
                    assert(digits_val(cs@.take(i + 1)) == acc * 10 + d);
                };
                if forall|j: int| 0 <= j < n ==> is_digit(#[trigger] cs@[j]) {
                    lemma_digits_val_prefix(cs@, i + 1);
                    assert(digits_val(cs@) >= digits_val(cs@.take(i + 1)));
                }
            }
            return None;
        }
        acc = acc * 10 + d;
        i = i + 1;
    }
    proof {
        assert(cs@.take(n as int) =~= cs@);
        assert(is_canon_dec(cs@));
    }
    Some(acc)
}

/// Relies on `String`'s `FromIterator<char>` impl of std: collecting
/// characters yields the string of exactly those characters, in order.
#[verifier::external_body]
pub(crate) fn string_from_chars(cs: &Vec<char>) -> (s: String)
    ensures
        s@ == cs@,
{
    cs.iter().collect()
}

/// Relies on `String::from_utf8` of std: it accepts exactly valid UTF-8
/// and yields the characters those bytes encode.
#[verifier::external_body]
pub(crate) fn string_from_utf8(b: Vec<u8>) -> (r: Option<String>)
    ensures
        match r {
            Some(s) => vstd::utf8::valid_utf8(b@) && s@ == vstd::utf8::decode_utf8(b@),
            None => !vstd::utf8::valid_utf8(b@),
        },
{
    match String::from_utf8(b) {
        Ok(s) => Some(s),
        Err(_) => None,
    }
}

/// The characters of a string slice, as an indexable vector.
pub(crate) fn chars_vec(s: &str) -> (v: Vec<char>)
    ensures
        v@ == s@,
{
    broadcast use vstd::string::axiom_spec_iter;
    broadcast use vstd::string::next_postcondition;

    let mut it = s.chars();
    let mut v: Vec<char> = Vec::new();
    loop
        invariant
            vstd::std_specs::iter::IteratorSpec::obeys_prophetic_iter_laws(&it),
            vstd::std_specs::iter::IteratorSpec::decrease(&it) is Some,
            v@ + vstd::std_specs::iter::IteratorSpec::remaining(&it) == s@,
        decreases vstd::std_specs::iter::IteratorSpec::decrease(&it)->0,
    {
        match it.next() {
            Some(c) => {
                v.push(c);
                assert(v@ + vstd::std_specs::iter::IteratorSpec::remaining(&it) =~= s@);
            },
            None => {
                assert(v@ =~= s@);
                return v;
            },
        }
    }
}

} // verus!
