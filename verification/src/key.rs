//! Primary-key types: totally ordered, convertible to and from text.
//!
//! A table identifies a record by the canonical text of its key, so two keys
//! are the same entry exactly when their texts agree. The order decides the
//! iteration order of a table. Integer keys order numerically and print as
//! canonical decimals; string keys order lexicographically by code point and
//! are their own text.
use vstd::prelude::*;

use crate::text::{
    chars_vec, dec_digits, dec_value, is_canon_dec, lemma_dec_injective, lemma_dec_round_trip,
    parse_dec, push_dec, string_from_chars,
};

verus! {

/// A type usable as a table's primary key.
///
/// `text` is the canonical text form and the identity of a key: the engine
/// treats two keys as the same exactly when their texts agree. `le` is a
/// total preorder compatible with that identity; it fixes the iteration
/// order of a table.
pub trait TableKey: Sized {
    /// The ordering relation of this key type.
    spec fn le(&self, other: &Self) -> bool;

    /// The canonical text form; the identity of the key.
    spec fn text(&self) -> Seq<char>;

    /// The order is total.
    proof fn lemma_le_total(a: &Self, b: &Self)
        ensures
            a.le(b) || b.le(a),
    ;

    /// The order is transitive.
    proof fn lemma_le_trans(a: &Self, b: &Self, c: &Self)
        requires
            a.le(b),
            b.le(c),
        ensures
            a.le(c),
    ;

    /// Two keys below each other share one identity.
    proof fn lemma_le_antisym(a: &Self, b: &Self)
        requires
            a.le(b),
            b.le(a),
        ensures
            a.text() == b.text(),
    ;

    /// Keys of one identity sit at one place in the order.
    proof fn lemma_text_le(a: &Self, b: &Self)
        requires
            a.text() == b.text(),
        ensures
            a.le(b),
    ;

    /// Decide the ordering relation.
    fn key_le(&self, other: &Self) -> (r: bool)
        ensures
            r == self.le(other),
    ;

    /// An owned key of the same identity.
    fn key_dup(&self) -> (r: Self)
        ensures
            r.text() == self.text(),
    ;

    /// Render the canonical text form.
    fn key_to_text(&self) -> (r: String)
        ensures
            r@ == self.text(),
    ;

    /// Recover a key from its text form. `None` exactly when no key of this
    /// type has that text.
    fn key_from_text(t: &str) -> (r: Option<Self>)
        ensures
            match r {
                Some(k) => k.text() == t@,
                None => forall|k: Self| k.text() != t@,
            },
    ;
}

/// Whether two keys are the same entry: their texts agree.
pub open spec fn key_eqv<K: TableKey>(a: &K, b: &K) -> bool {
    a.text() == b.text()
}

/// Decide whether two keys are the same entry, through the order.
pub fn key_same<K: TableKey>(a: &K, b: &K) -> (r: bool)
    ensures
        r == key_eqv(a, b),
{
    let le1 = a.key_le(b);
    let le2 = b.key_le(a);
    proof {
        if le1 && le2 {
            K::lemma_le_antisym(a, b);
        }
        if a.text() == b.text() {
            K::lemma_text_le(a, b);
            K::lemma_text_le(b, a);
        }
    }
    le1 && le2
}

impl TableKey for u64 {
    open spec fn le(&self, other: &Self) -> bool {
        *self <= *other
    }

    open spec fn text(&self) -> Seq<char> {
        dec_digits(*self as int)
    }

    proof fn lemma_le_total(a: &Self, b: &Self) {
    }

    proof fn lemma_le_trans(a: &Self, b: &Self, c: &Self) {
    }

    proof fn lemma_le_antisym(a: &Self, b: &Self) {
    }

    proof fn lemma_text_le(a: &Self, b: &Self) {
        lemma_dec_injective(*a as int, *b as int);
    }

    fn key_le(&self, other: &Self) -> (r: bool) {
        *self <= *other
    }

    fn key_dup(&self) -> (r: Self) {
        *self
    }

    fn key_to_text(&self) -> (r: String) {
        let mut cs: Vec<char> = Vec::new();
        push_dec(*self, &mut cs);
        string_from_chars(&cs)
    }

    fn key_from_text(t: &str) -> (r: Option<Self>) {
        let cs = chars_vec(t);
        let r = parse_dec(cs.as_slice());
        proof {
            match r {
                Some(v) => {
                    lemma_dec_round_trip(v as int);
                    assert(is_canon_dec(t@));
                    lemma_dec_digits_of_value(t@, v as int);
                },
                None => {
                    assert forall|k: u64| k.text() != t@ by {
                        lemma_dec_round_trip(k as int);
                        if k.text() == t@ {
                            assert(dec_value(t@) == Some(k as int));
                        }
                    }
                },
            }
        }
        r
    }
}

impl TableKey for usize {
    open spec fn le(&self, other: &Self) -> bool {
        *self <= *other
    }

    open spec fn text(&self) -> Seq<char> {
        dec_digits(*self as int)
    }

    proof fn lemma_le_total(a: &Self, b: &Self) {
    }

    proof fn lemma_le_trans(a: &Self, b: &Self, c: &Self) {
    }

    proof fn lemma_le_antisym(a: &Self, b: &Self) {
    }

    proof fn lemma_text_le(a: &Self, b: &Self) {
        lemma_dec_injective(*a as int, *b as int);
    }

    fn key_le(&self, other: &Self) -> (r: bool) {
        *self <= *other
    }

    fn key_dup(&self) -> (r: Self) {
        *self
    }

    fn key_to_text(&self) -> (r: String) {
        let mut cs: Vec<char> = Vec::new();
        push_dec(*self as u64, &mut cs);
        string_from_chars(&cs)
    }

    fn key_from_text(t: &str) -> (r: Option<Self>) {
        let cs = chars_vec(t);
        let r = parse_dec(cs.as_slice());
        match r {
            Some(v) => {
                if v <= usize::MAX as u64 {
                    proof {
                        lemma_dec_round_trip(v as int);
                        lemma_dec_digits_of_value(t@, v as int);
                    }
                    Some(v as usize)
                } else {
                    proof {
                        assert forall|k: usize| k.text() != t@ by {
                            lemma_dec_round_trip(k as int);
                            if k.text() == t@ {
                                assert(dec_value(t@) == Some(k as int));
                            }
                        }
                    }
                    None
                }
            },
            None => {
                proof {
                    assert forall|k: usize| k.text() != t@ by {
                        lemma_dec_round_trip(k as int);
                        if k.text() == t@ {
                            assert(dec_value(t@) == Some(k as int));
                        }
                    }
                }
                None
            },
        }
    }
}

/// Lexicographic order on text, by code point.
pub open spec fn lex_le(a: Seq<char>, b: Seq<char>) -> bool
    decreases a.len(),
{
    if a.len() == 0 {
        true
    } else if b.len() == 0 {
        false
    } else if (a[0] as u32) < (b[0] as u32) {
        true
    } else if (b[0] as u32) < (a[0] as u32) {
        false
    } else {
        lex_le(a.drop_first(), b.drop_first())
    }
}

/// The lexicographic order is total.
pub proof fn lemma_lex_total(a: Seq<char>, b: Seq<char>)
    ensures
        lex_le(a, b) || lex_le(b, a),
    decreases a.len(),
{
    if a.len() > 0 && b.len() > 0 && a[0] as u32 == b[0] as u32 {
        lemma_lex_total(a.drop_first(), b.drop_first());
    }
}

/// The lexicographic order is transitive.
pub proof fn lemma_lex_trans(a: Seq<char>, b: Seq<char>, c: Seq<char>)
    requires
        lex_le(a, b),
        lex_le(b, c),
    ensures
        lex_le(a, c),
    decreases a.len(),
{
    if a.len() > 0 && b.len() > 0 && c.len() > 0 {
        if a[0] as u32 == b[0] as u32 && b[0] as u32 == c[0] as u32 {
            lemma_lex_trans(a.drop_first(), b.drop_first(), c.drop_first());
        }
    }
}

/// Mutual lexicographic order is equality.
pub proof fn lemma_lex_antisym(a: Seq<char>, b: Seq<char>)
    requires
        lex_le(a, b),
        lex_le(b, a),
    ensures
        a == b,
    decreases a.len(),
{
    if a.len() == 0 {
        assert(b.len() == 0);
        assert(a =~= b);
    } else {
        assert(a[0] as u32 == b[0] as u32);
        lemma_char_code(a[0], b[0]);
        lemma_lex_antisym(a.drop_first(), b.drop_first());
        assert(a =~= seq![a[0]] + a.drop_first());
        assert(b =~= seq![b[0]] + b.drop_first());
        assert(a =~= b);
    }
}

/// Decide the lexicographic order on two character vectors.
fn lex_le_chars(a: &Vec<char>, b: &Vec<char>) -> (r: bool)
    ensures
        r == lex_le(a@, b@),
{
    let mut i: usize = 0;
    let na = a.len();
    let nb = b.len();
    proof {
        assert(a@.skip(0) =~= a@);
        assert(b@.skip(0) =~= b@);
    }
    loop
        invariant
            0 <= i <= na,
            i <= nb,
            na == a@.len(),
            nb == b@.len(),
            lex_le(a@, b@) == lex_le(a@.skip(i as int), b@.skip(i as int)),
        decreases na - i,
    {
        if i == na {
            assert(a@.skip(i as int).len() == 0);
            return true;
        }
        if i == nb {
            assert(b@.skip(i as int).len() == 0);
            assert(a@.skip(i as int).len() > 0);
            return false;
        }
        let ca = a[i] as u32;
        let cb = b[i] as u32;
        proof {
            assert(a@.skip(i as int)[0] == a@[i as int]);
            assert(b@.skip(i as int)[0] == b@[i as int]);
        }
        if ca < cb {
            return true;
        }
        if cb < ca {
            return false;
        }
        proof {
            assert(a@.skip(i as int).drop_first() =~= a@.skip(i + 1));
            assert(b@.skip(i as int).drop_first() =~= b@.skip(i + 1));
        }
        i = i + 1;
    }
}

impl TableKey for String {
    open spec fn le(&self, other: &Self) -> bool {
        lex_le(self@, other@)
    }

    open spec fn text(&self) -> Seq<char> {
        self@
    }

    proof fn lemma_le_total(a: &Self, b: &Self) {
        lemma_lex_total(a@, b@);
    }

    proof fn lemma_le_trans(a: &Self, b: &Self, c: &Self) {
        lemma_lex_trans(a@, b@, c@);
    }

    proof fn lemma_le_antisym(a: &Self, b: &Self) {
        lemma_lex_antisym(a@, b@);
    }

    proof fn lemma_text_le(a: &Self, b: &Self) {
        lemma_lex_total(a@, b@);
        if !lex_le(a@, b@) {
            lemma_lex_antisym(b@, a@);
        }
    }

    fn key_le(&self, other: &Self) -> (r: bool) {
        let ca = chars_vec(self.as_str());
        let cb = chars_vec(other.as_str());
        lex_le_chars(&ca, &cb)
    }

    fn key_dup(&self) -> (r: Self) {
        self.clone()
    }

    fn key_to_text(&self) -> (r: String) {
        self.clone()
    }

    fn key_from_text(t: &str) -> (r: Option<Self>) {
        Some(t.to_owned())
    }
}

/// Equal code points are one character.
proof fn lemma_char_code(c1: char, c2: char)
    requires
        c1 as u32 == c2 as u32,
    ensures
        c1 == c2,
{
}

/// Canonical text with a given value is the canonical print of that value.
proof fn lemma_dec_digits_of_value(t: Seq<char>, v: int)
    requires
        v >= 0,
        dec_value(t) == Some(v),
    ensures
        dec_digits(v) == t,
    decreases t.len(),
{
    lemma_dec_round_trip(v);
    if t.len() == 1 {
        assert(t.drop_last() =~= Seq::<char>::empty());
        assert(crate::text::is_digit(t[0]));
        assert(crate::text::digits_val(Seq::<char>::empty()) == 0);
        assert(crate::text::digits_val(t) == crate::text::digits_val(t.drop_last()) * 10 + (
        t.last() as u32 - 48));
        assert(t.last() == t[0]);
        assert(v == t[0] as u32 - 48);
        assert(dec_digits(v) =~= seq![crate::text::digit_char(v)]);
        assert(crate::text::digit_char(v) as u32 == 48 + v);
        lemma_char_code(crate::text::digit_char(v), t[0]);
        assert(dec_digits(v) =~= t);
    } else {
        let pre = t.drop_last();
        let d = (t.last() as u32 - 48) as int;
        assert(crate::text::digits_val(t) == crate::text::digits_val(pre) * 10 + d);
        assert(is_canon_dec(pre)) by {
            assert(forall|i: int| 0 <= i < pre.len() ==> pre[i] == t[i]);
            assert(forall|i: int|
                0 <= i < pre.len() ==> crate::text::is_digit(#[trigger] pre[i]));
            if pre.len() > 1 {
                assert(pre[0] == t[0]);
            }
        }
        let pv = crate::text::digits_val(pre);
        crate::text::lemma_digits_val_nonneg(pre);
        lemma_dec_digits_of_value(pre, pv);
        assert(v == pv * 10 + d);
        assert(v >= 10) by {
            assert(pre.len() >= 1);
            lemma_dec_value_lower(pre);
        }
        assert(v / 10 == pv && v % 10 == d) by (nonlinear_arith)
            requires
                v == pv * 10 + d,
                0 <= d < 10,
                pv >= 0,
        ;
        assert(dec_digits(v) == dec_digits(pv).push(crate::text::digit_char(d)));
        assert(crate::text::is_digit(t.last())) by {
            assert(t.last() == t[t.len() - 1]);
        }
        assert(0 <= d < 10);
        assert(crate::text::digit_char(d) as u32 == 48 + d);
        lemma_char_code(crate::text::digit_char(d), t.last());
        assert(dec_digits(v) =~= t);
    }
}

/// Canonical decimal text of more than one digit denotes at least ten.
proof fn lemma_dec_value_lower(pre: Seq<char>)
    requires
        is_canon_dec(pre),
    ensures
        pre.len() > 1 ==> crate::text::digits_val(pre) >= 10,
        crate::text::digits_val(pre) >= 1 || pre =~= seq!['0'],
    decreases pre.len(),
{
    if pre.len() == 1 {
        if pre[0] != '0' {
            assert(pre.drop_last() =~= Seq::<char>::empty());
            assert(crate::text::digits_val(Seq::<char>::empty()) == 0);
            assert(crate::text::digits_val(pre) == crate::text::digits_val(pre.drop_last()) * 10
                + (pre.last() as u32 - 48));
            assert(pre.last() == pre[0]);
            assert(crate::text::digits_val(pre) == pre[0] as u32 - 48);
            assert(crate::text::is_digit(pre[0]));
            assert('0' as u32 == 48);
            assert(pre[0] as u32 != 48) by {
                if pre[0] as u32 == 48 {
                    lemma_char_code(pre[0], '0');
                }
            }
        } else {
            assert(pre =~= seq!['0']);
        }
    } else {
        let q = pre.drop_last();
        assert(forall|i: int| 0 <= i < q.len() ==> q[i] == pre[i]);
        assert(is_canon_dec(q));
        lemma_dec_value_lower(q);
        crate::text::lemma_digits_val_nonneg(q);
        let qv = crate::text::digits_val(q);
        assert(crate::text::digits_val(pre) == qv * 10 + (pre.last() as u32 - 48));
        if q =~= seq!['0'] {
            assert(pre[0] == '0');
            assert(false);
        }
        assert(qv >= 1);
    }
}

} // verus!
