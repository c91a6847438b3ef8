//! The self-describing text encoding of documents.
//!
//! This is the human-auditable wire form: objects in braces with quoted
//! keys, lists in brackets, quoted text with escapes, and canonical decimal
//! numbers (no sign, no superfluous leading zero — the parser rejects any
//! other number), all without surrounding whitespace. Printing and parsing
//! are proved inverse to each other ([`lemma_json_round_trip`]).
use vstd::prelude::*;

use crate::doc::{Doc, DocModel};
use crate::text::{
    dec_digits, digits_val, is_canon_dec, is_digit, push_dec, lemma_dec_round_trip,
};

verus! {

/// The hex digit character for a value in `0..16` (lower case).
pub open spec fn hex_digit(d: int) -> char {
    if d < 10 {
        ((48 + d) as u8) as char
    } else {
        ((87 + d) as u8) as char
    }
}

/// The value of a hex digit character, if it is one.
pub open spec fn hex_val(c: char) -> Option<int> {
    if 48 <= c as u32 <= 57 {
        Some(c as u32 - 48)
    } else if 97 <= c as u32 <= 102 {
        Some(c as u32 - 87)
    } else if 65 <= c as u32 <= 70 {
        Some(c as u32 - 55)
    } else {
        None
    }
}

/// How one character is written inside a quoted string.
pub open spec fn esc_char(c: char) -> Seq<char> {
    if c == '"' {
        seq!['\\', '"']
    } else if c == '\\' {
        seq!['\\', '\\']
    } else if (c as u32) < 32 {
        seq!['\\', 'u', '0', '0', hex_digit(c as u32 as int / 16), hex_digit(c as u32 as int % 16)]
    } else {
        seq![c]
    }
}

/// How a whole text is written inside a quoted string.
pub open spec fn esc_text(t: Seq<char>) -> Seq<char>
    decreases t.len(),
{
    if t.len() == 0 {
        Seq::empty()
    } else {
        esc_char(t[0]) + esc_text(t.drop_first())
    }
}

/// The text encoding of a document.
pub open spec fn json_of(d: DocModel) -> Seq<char>
    decreases d, 0int,
{
    match d {
        DocModel::UInt(n) => dec_digits(n as int),
        DocModel::Text(t) => seq!['"'] + esc_text(t) + seq!['"'],
        DocModel::List(items) => seq!['['] + json_of_items(items) + seq![']'],
        DocModel::Object(entries) => seq!['{'] + json_of_entries(entries) + seq!['}'],
    }
}

/// The comma-separated encodings of list elements.
pub open spec fn json_of_items(items: Seq<DocModel>) -> Seq<char>
    decreases items, 1int,
{
    if items.len() == 0 {
        Seq::empty()
    } else if items.len() == 1 {
        json_of(items[0])
    } else {
        json_of(items[0]) + seq![','] + json_of_items(items.drop_first())
    }
}

/// The comma-separated encodings of object entries, each a quoted key, a
/// colon and a value.
pub open spec fn json_of_entries(entries: Seq<(Seq<char>, DocModel)>) -> Seq<char>
    decreases entries, 1int,
{
    if entries.len() == 0 {
        Seq::empty()
    } else {
        let head = seq!['"'] + esc_text(entries[0].0) + seq!['"'] + seq![':'] + json_of(
            entries[0].1,
        );
        if entries.len() == 1 {
            head
        } else {
            head + seq![','] + json_of_entries(entries.drop_first())
        }
    }
}

/// Parse the inside of a quoted string from `pos` up to and past the
/// closing quote. Returns the text and the position after the quote.
pub open spec fn sp_str(cs: Seq<char>, pos: int) -> Option<(Seq<char>, int)>
    decreases cs.len() - pos,
{
    if pos < 0 || pos >= cs.len() {
        None
    } else if cs[pos] == '"' {
        Some((Seq::empty(), pos + 1))
    } else if cs[pos] == '\\' {
        if pos + 1 >= cs.len() {
            None
        } else {
            let e = cs[pos + 1];
            if e == '"' || e == '\\' || e == '/' {
                match sp_str(cs, pos + 2) {
                    Some((rest, p)) => Some((seq![e] + rest, p)),
                    None => None,
                }
            } else if e == 'u' {
                if pos + 5 >= cs.len() {
                    None
                } else if cs[pos + 2] != '0' || cs[pos + 3] != '0' {
                    None
                } else {
                    match (hex_val(cs[pos + 4]), hex_val(cs[pos + 5])) {
                        (Some(h), Some(l)) => {
                            let v = h * 16 + l;
                            if v < 32 {
                                match sp_str(cs, pos + 6) {
                                    Some((rest, p)) => Some((seq![((v as u8) as char)] + rest, p)),
                                    None => None,
                                }
                            } else {
                                None
                            }
                        },
                        _ => None,
                    }
                }
            } else {
                None
            }
        }
    } else if (cs[pos] as u32) < 32 {
        None
    } else {
        match sp_str(cs, pos + 1) {
            Some((rest, p)) => Some((seq![cs[pos]] + rest, p)),
            None => None,
        }
    }
}

/// The end of the digit run that starts at `pos`.
pub open spec fn digit_run_end(cs: Seq<char>, pos: int) -> int
    decreases cs.len() - pos,
{
    if pos < 0 || pos >= cs.len() {
        pos
    } else if is_digit(cs[pos]) {
        digit_run_end(cs, pos + 1)
    } else {
        pos
    }
}

/// Parse one document value starting at `pos`.
pub open spec fn sp_val(cs: Seq<char>, pos: int) -> Option<(DocModel, int)>
    decreases cs.len() - pos, 2int,
{
    if pos < 0 || pos >= cs.len() {
        None
    } else if is_digit(cs[pos]) {
        let e = digit_run_end(cs, pos);
        if e > pos + 1 && cs[pos] == '0' {
            // a superfluous leading zero: not canonical decimal
            None
        } else {
            let v = digits_val(cs.subrange(pos, e));
            if v <= u64::MAX as int {
                Some((DocModel::UInt(v as u64), e))
            } else {
                None
            }
        }
    } else if cs[pos] == '"' {
        match sp_str(cs, pos + 1) {
            Some((t, p)) => Some((DocModel::Text(t), p)),
            None => None,
        }
    } else if cs[pos] == '[' {
        if pos + 1 < cs.len() && cs[pos + 1] == ']' {
            Some((DocModel::List(Seq::empty()), pos + 2))
        } else {
            match sp_items(cs, pos + 1) {
                Some((items, p)) => {
                    if p < cs.len() && cs[p] == ']' {
                        Some((DocModel::List(items), p + 1))
                    } else {
                        None
                    }
                },
                None => None,
            }
        }
    } else if cs[pos] == '{' {
        if pos + 1 < cs.len() && cs[pos + 1] == '}' {
            Some((DocModel::Object(Seq::empty()), pos + 2))
        } else {
            match sp_entries(cs, pos + 1) {
                Some((entries, p)) => {
                    if p < cs.len() && cs[p] == '}' {
                        Some((DocModel::Object(entries), p + 1))
                    } else {
                        None
                    }
                },
                None => None,
            }
        }
    } else {
        None
    }
}

/// Parse one or more comma-separated values starting at `pos`.
pub open spec fn sp_items(cs: Seq<char>, pos: int) -> Option<(Seq<DocModel>, int)>
    decreases cs.len() - pos, 3int,
{
    match sp_val(cs, pos) {
        None => None,
        Some((d, p)) => {
            if p <= pos || p > cs.len() {
                None
            } else if p < cs.len() && cs[p] == ',' {
                match sp_items(cs, p + 1) {
                    Some((rest, p2)) => Some((seq![d] + rest, p2)),
                    None => None,
                }
            } else {
                Some((seq![d], p))
            }
        },
    }
}

/// Parse one or more comma-separated `"key":value` entries starting at
/// `pos`.
pub open spec fn sp_entries(cs: Seq<char>, pos: int) -> Option<(Seq<(Seq<char>, DocModel)>, int)>
    decreases cs.len() - pos, 3int,
{
    if pos < 0 || pos >= cs.len() || cs[pos] != '"' {
        None
    } else {
        match sp_str(cs, pos + 1) {
            None => None,
            Some((k, p)) => {
                if p <= pos || p >= cs.len() || cs[p] != ':' {
                    None
                } else {
                    match sp_val(cs, p + 1) {
                        None => None,
                        Some((d, p2)) => {
                            if p2 <= p || p2 > cs.len() {
                                None
                            } else if p2 < cs.len() && cs[p2] == ',' {
                                match sp_entries(cs, p2 + 1) {
                                    Some((rest, p3)) => Some((seq![(k, d)] + rest, p3)),
                                    None => None,
                                }
                            } else {
                                Some((seq![(k, d)], p2))
                            }
                        },
                    }
                }
            },
        }
    }
}

/// Appending one more element to a list body appends a comma (after the
/// first) and its encoding.
proof fn lemma_items_snoc(s: Seq<DocModel>, d: DocModel)
    ensures
        json_of_items(s.push(d)) == if s.len() == 0 {
            json_of(d)
        } else {
            json_of_items(s) + seq![','] + json_of_items(seq![d])
        },
    decreases s.len(),
{
    let sp = s.push(d);
    if s.len() == 0 {
        assert(sp =~= seq![d]);
        assert(json_of_items(seq![d]) == json_of(d));
    } else {
        assert(sp[0] == s[0]);
        assert(sp.drop_first() =~= s.drop_first().push(d));
        lemma_items_snoc(s.drop_first(), d);
        if s.len() == 1 {
            assert(s.drop_first().len() == 0);
            assert(json_of_items(sp) == json_of(sp[0]) + seq![','] + json_of_items(
                sp.drop_first(),
            ));
            assert(json_of_items(s) == json_of(s[0]));
        } else {
            assert(json_of_items(s) == json_of(s[0]) + seq![','] + json_of_items(s.drop_first()));
            assert(json_of_items(sp) == json_of(sp[0]) + seq![','] + json_of_items(
                sp.drop_first(),
            ));
            assert(json_of_items(sp) =~= json_of_items(s) + seq![','] + json_of_items(seq![d]));
        }
    }
}

/// The same for object entries.
proof fn lemma_entries_snoc(s: Seq<(Seq<char>, DocModel)>, e: (Seq<char>, DocModel))
    ensures
        json_of_entries(s.push(e)) == if s.len() == 0 {
            json_of_entries(seq![e])
        } else {
            json_of_entries(s) + seq![','] + json_of_entries(seq![e])
        },
    decreases s.len(),
{
    let sp = s.push(e);
    if s.len() == 0 {
        assert(sp =~= seq![e]);
    } else {
        assert(sp[0] == s[0]);
        assert(sp.drop_first() =~= s.drop_first().push(e));
        lemma_entries_snoc(s.drop_first(), e);
        let head = seq!['"'] + esc_text(s[0].0) + seq!['"'] + seq![':'] + json_of(s[0].1);
        if s.len() == 1 {
            assert(s.drop_first().len() == 0);
            assert(json_of_entries(sp) == head + seq![','] + json_of_entries(sp.drop_first()));
            assert(json_of_entries(s) == head);
            assert(sp.drop_first() =~= seq![e]);
        } else {
            assert(json_of_entries(s) == head + seq![','] + json_of_entries(s.drop_first()));
            assert(json_of_entries(sp) == head + seq![','] + json_of_entries(sp.drop_first()));
            assert(json_of_entries(sp) =~= json_of_entries(s) + seq![','] + json_of_entries(
                seq![e],
            ));
        }
    }
}

/// Append the escaped form of `t` to `out`.
fn write_esc(t: &Vec<char>, out: &mut Vec<char>)
    ensures
        final(out)@ == old(out)@ + esc_text(t@),
{
    let n = t.len();
    let mut i: usize = 0;
    proof {
        assert(out@ =~= old(out)@ + esc_text(t@.take(0)));
    }
    while i < n
        invariant
            0 <= i <= n,
            n == t@.len(),
            out@ == old(out)@ + esc_text(t@.take(i as int)),
        decreases n - i,
    {
        let c = t[i];
        let code = c as u32;
        if c == '"' {
            out.push('\\');
            out.push('"');
        } else if c == '\\' {
            out.push('\\');
            out.push('\\');
        } else if code < 32 {
            out.push('\\');
            out.push('u');
            out.push('0');
            out.push('0');
            let hi = code / 16;
            let lo = code % 16;
            let hc: char = if hi < 10 {
                ((48 + hi) as u8) as char
            } else {
                ((87 + hi) as u8) as char
            };
            let lc: char = if lo < 10 {
                ((48 + lo) as u8) as char
            } else {
                ((87 + lo) as u8) as char
            };
            out.push(hc);
            out.push(lc);
        } else {
            out.push(c);
        }
        proof {
            lemma_esc_text_snoc(t@.take(i as int), t@[i as int]);
            assert(t@.take(i + 1).drop_last() =~= t@.take(i as int));
            assert(t@.take(i + 1) =~= t@.take(i as int).push(t@[i as int]));
            assert(out@ =~= old(out)@ + esc_text(t@.take(i + 1)));
        }
        i = i + 1;
    }
    proof {
        assert(t@.take(n as int) =~= t@);
    }
}

/// Escaping one more character appends its escape.
proof fn lemma_esc_text_snoc(s: Seq<char>, c: char)
    ensures
        esc_text(s.push(c)) == esc_text(s) + esc_char(c),
    decreases s.len(),
{
    let sp = s.push(c);
    if s.len() == 0 {
        assert(sp.drop_first() =~= Seq::<char>::empty());
        assert(sp[0] == c);
        assert(esc_text(sp.drop_first()) == Seq::<char>::empty());
        assert(esc_text(sp) == esc_char(sp[0]) + esc_text(sp.drop_first()));
        assert(esc_text(sp) =~= esc_char(c));
        assert(esc_text(s) =~= Seq::<char>::empty());
        assert(esc_text(s) + esc_char(c) =~= esc_char(c));
    } else {
        assert(sp[0] == s[0]);
        assert(sp.drop_first() =~= s.drop_first().push(c));
        lemma_esc_text_snoc(s.drop_first(), c);
        assert(esc_text(sp) =~= esc_text(s) + esc_char(c));
    }
}

/// Append the text encoding of `d` to `out`.
pub fn write_json(d: &Doc, out: &mut Vec<char>)
    ensures
        final(out)@ == old(out)@ + json_of(d@),
    decreases d,
{
    broadcast use crate::doc::lemma_list_model;
    broadcast use crate::doc::lemma_object_model;

    match d {
        Doc::UInt(n) => {
            push_dec(*n, out);
        },
        Doc::Text(s) => {
            out.push('"');
            let cs = crate::text::chars_vec(s.as_str());
            write_esc(&cs, out);
            out.push('"');
            proof {
                assert(out@ =~= old(out)@ + json_of(d@));
            }
        },
        Doc::List(items) => {
            out.push('[');
            let n = items.len();
            let mut i: usize = 0;
            let ghost models = crate::doc::models_of(items@);
            while i < n
                invariant
                    0 <= i <= n,
                    n == items@.len(),
                    *d == Doc::List(*items),
                    models == crate::doc::models_of(items@),
                    models.len() == n,
                    out@ == old(out)@ + seq!['['] + json_of_items(models.take(i as int)),
                decreases n - i,
            {
                if i > 0 {
                    out.push(',');
                }
                proof {
                    assert((*d)->List_0 == *items);
                    assert(decreases_to!(*d => (*d)->List_0));
                    assert(decreases_to!(*items => items@));
                    assert(decreases_to!(items@ => items@[i as int]));
                }
                write_json(&items[i], out);
                proof {
                    lemma_items_snoc(models.take(i as int), models[i as int]);
                    assert(models.take(i + 1) =~= models.take(i as int).push(models[i as int]));
                    assert(models[i as int] == items@[i as int]@);
                    assert(json_of_items(seq![models[i as int]]) == json_of(models[i as int]));
                    assert(out@ =~= old(out)@ + seq!['['] + json_of_items(models.take(i + 1)));
                }
                i = i + 1;
            }
            out.push(']');
            proof {
                assert(models.take(n as int) =~= models);
                assert(out@ =~= old(out)@ + json_of(d@));
            }
        },
        Doc::Object(entries) => {
            out.push('{');
            let n = entries.len();
            let mut i: usize = 0;
            let ghost models = crate::doc::entry_models_of(entries@);
            while i < n
                invariant
                    0 <= i <= n,
                    n == entries@.len(),
                    *d == Doc::Object(*entries),
                    models == crate::doc::entry_models_of(entries@),
                    models.len() == n,
                    out@ == old(out)@ + seq!['{'] + json_of_entries(models.take(i as int)),
                decreases n - i,
            {
                if i > 0 {
                    out.push(',');
                }
                out.push('"');
                let kc = crate::text::chars_vec(entries[i].0.as_str());
                write_esc(&kc, out);
                out.push('"');
                out.push(':');
                proof {
                    assert((*d)->Object_0 == *entries);
                    assert(decreases_to!(*d => (*d)->Object_0));
                    assert(decreases_to!(*entries => entries@));
                    assert(decreases_to!(entries@ => entries@[i as int]));
                    assert(decreases_to!(entries@[i as int] => entries@[i as int].1));
                }
                write_json(&entries[i].1, out);
                proof {
                    lemma_entries_snoc(models.take(i as int), models[i as int]);
                    assert(models.take(i + 1) =~= models.take(i as int).push(models[i as int]));
                    assert(models[i as int] == (entries@[i as int].0@, entries@[i as int].1@));
                    assert(json_of_entries(seq![models[i as int]]) == seq!['"'] + esc_text(
                        models[i as int].0,
                    ) + seq!['"'] + seq![':'] + json_of(models[i as int].1));
                    assert(out@ =~= old(out)@ + seq!['{'] + json_of_entries(models.take(i + 1)));
                }
                i = i + 1;
            }
            out.push('}');
            proof {
                assert(models.take(n as int) =~= models);
                assert(out@ =~= old(out)@ + json_of(d@));
            }
        },
    }
}

/// Parse a whole text as one document: the value must span all of it.
pub open spec fn json_parse(cs: Seq<char>) -> Option<DocModel> {
    match sp_val(cs, 0) {
        Some((d, p)) => if p == cs.len() {
            Some(d)
        } else {
            None
        },
        None => None,
    }
}

/// `digit_run_end` is the first position at or after `pos` that does not
/// hold a digit.
proof fn lemma_digit_run(cs: Seq<char>, pos: int, e: int)
    requires
        0 <= pos <= e <= cs.len(),
        forall|j: int| pos <= j < e ==> is_digit(#[trigger] cs[j]),
        e < cs.len() ==> !is_digit(cs[e]),
    ensures
        digit_run_end(cs, pos) == e,
    decreases e - pos,
{
    if pos == e {
    } else {
        lemma_digit_run(cs, pos + 1, e);
    }
}

/// Parse the inside of a quoted string, the executable mirror of
/// [`sp_str`].
fn p_str(cs: &Vec<char>, pos: usize) -> (r: Option<(Vec<char>, usize)>)
    ensures
        match r {
            Some((t, p)) => sp_str(cs@, pos as int) == Some((t@, p as int)) && pos < p
                <= cs@.len(),
            None => sp_str(cs@, pos as int) is None,
        },
    decreases cs@.len() - pos,
{
    let n = cs.len();
    if pos >= n {
        return None;
    }
    let c = cs[pos];
    if c == '"' {
        let t: Vec<char> = Vec::new();
        proof {
            assert(t@ =~= Seq::<char>::empty());
        }
        return Some((t, pos + 1));
    }
    if c == '\\' {
        if pos + 1 >= n {
            return None;
        }
        let e = cs[pos + 1];
        if e == '"' || e == '\\' || e == '/' {
            match p_str(cs, pos + 2) {
                Some((mut rest, p)) => {
                    rest.insert(0, e);
                    proof {
                        assert(rest@ =~= seq![e] + rest@.drop_first());
                    }
                    return Some((rest, p));
                },
                None => {
                    return None;
                },
            }
        } else if e == 'u' {
            if n - (pos + 1) < 5 {
                return None;
            }
            if cs[pos + 2] != '0' || cs[pos + 3] != '0' {
                return None;
            }
            let h = hex_of(cs[pos + 4]);
            let l = hex_of(cs[pos + 5]);
            match (h, l) {
                (Some(hv), Some(lv)) => {
                    let v: u32 = hv * 16 + lv;
                    if v < 32 {
                        match p_str(cs, pos + 6) {
                            Some((mut rest, p)) => {
                                let dc: char = (v as u8) as char;
                                rest.insert(0, dc);
                                proof {
                                    assert(rest@ =~= seq![dc] + rest@.drop_first());
                                }
                                return Some((rest, p));
                            },
                            None => {
                                return None;
                            },
                        }
                    } else {
                        return None;
                    }
                },
                _ => {
                    return None;
                },
            }
        } else {
            return None;
        }
    }
    if (c as u32) < 32 {
        return None;
    }
    match p_str(cs, pos + 1) {
        Some((mut rest, p)) => {
            rest.insert(0, c);
            proof {
                assert(rest@ =~= seq![c] + rest@.drop_first());
            }
            Some((rest, p))
        },
        None => None,
    }
}

/// The value of a hex digit character, executable.
fn hex_of(c: char) -> (r: Option<u32>)
    ensures
        match r {
            Some(v) => hex_val(c) == Some(v as int),
            None => hex_val(c) is None,
        },
{
    let code = c as u32;
    if 48 <= code && code <= 57 {
        Some(code - 48)
    } else if 97 <= code && code <= 102 {
        Some(code - 87)
    } else if 65 <= code && code <= 70 {
        Some(code - 55)
    } else {
        None
    }
}

/// Parse one document value, the executable mirror of [`sp_val`].
fn p_val(cs: &Vec<char>, pos: usize) -> (r: Option<(Doc, usize)>)
    ensures
        match r {
            Some((d, p)) => sp_val(cs@, pos as int) == Some((d@, p as int)) && pos < p
                <= cs@.len(),
            None => sp_val(cs@, pos as int) is None,
        },
    decreases cs@.len() - pos, 2int,
{
    broadcast use crate::doc::lemma_list_model;
    broadcast use crate::doc::lemma_object_model;

    let n = cs.len();
    if pos >= n {
        return None;
    }
    let c = cs[pos];
    let code = c as u32;
    if 48 <= code && code <= 57 {
        // a digit run, read as a canonical decimal number
        let mut e: usize = pos;
        loop
            invariant
                pos <= e <= n,
                n == cs@.len(),
                forall|j: int| pos <= j < e ==> is_digit(#[trigger] cs@[j]),
            ensures
                pos <= e <= n,
                forall|j: int| pos <= j < e ==> is_digit(#[trigger] cs@[j]),
                e == n || !is_digit(cs@[e as int]),
            decreases n - e,
        {
            if e == n {
                break;
            }
            let cc = cs[e] as u32;
            if cc < 48 || cc > 57 {
                break;
            }
            e = e + 1;
        }
        proof {
            lemma_digit_run(cs@, pos as int, e as int);
        }
        if e > pos + 1 && c == '0' {
            return None;
        }
        let ghost run = cs@.subrange(pos as int, e as int);
        let mut acc: u64 = 0;
        let mut i: usize = pos;
        proof {
            assert(run.take(0) =~= Seq::<char>::empty());
        }
        while i < e
            invariant
                pos <= i <= e <= n,
                n == cs@.len(),
                run == cs@.subrange(pos as int, e as int),
                digit_run_end(cs@, pos as int) == e as int,
                is_digit(cs@[pos as int]),
                forall|j: int| pos <= j < e ==> is_digit(#[trigger] cs@[j]),
                acc as int == digits_val(run.take(i - pos)),
            decreases e - i,
        {
            let d: u64 = (cs[i] as u32 - 48) as u64;
            proof {
                let k = i - pos;
                assert(run.take(k + 1).drop_last() =~= run.take(k));
                assert(run.take(k + 1).last() == run[k]);
                assert(run[k] == cs@[i as int]);
            }
            if acc > (u64::MAX - d) / 10 {
                proof {
                    let k = i - pos;
                    assert(digits_val(run.take(k + 1)) == acc * 10 + d);
                    assert(forall|j: int| 0 <= j < run.len() ==> is_digit(#[trigger] run[j]));
                    crate::text::lemma_digits_val_prefix(run, k + 1);
                    assert(digits_val(run) > u64::MAX as int);
                }
                return None;
            }
            acc = acc * 10 + d;
            i = i + 1;
        }
        proof {
            assert(run.take(e - pos) =~= run);
            assert(digits_val(run) == acc as int);
            assert(digits_val(run) <= u64::MAX as int);
            assert(e > pos) by {
                assert(is_digit(cs@[pos as int]));
            }
        }
        return Some((Doc::UInt(acc), e));
    }
    if c == '"' {
        match p_str(cs, pos + 1) {
            Some((t, p)) => {
                let s = crate::text::string_from_chars(&t);
                return Some((Doc::Text(s), p));
            },
            None => {
                return None;
            },
        }
    }
    if c == '[' {
        if pos + 1 < n && cs[pos + 1] == ']' {
            let items: Vec<Doc> = Vec::new();
            proof {
                assert(crate::doc::models_of(items@) =~= Seq::<DocModel>::empty());
            }
            return Some((Doc::List(items), pos + 2));
        }
        match p_items(cs, pos + 1) {
            Some((items, p)) => {
                if p < n && cs[p] == ']' {
                    return Some((Doc::List(items), p + 1));
                } else {
                    return None;
                }
            },
            None => {
                return None;
            },
        }
    }
    if c == '{' {
        if pos + 1 < n && cs[pos + 1] == '}' {
            let entries: Vec<(String, Doc)> = Vec::new();
            proof {
                assert(crate::doc::entry_models_of(entries@) =~= Seq::<(Seq<char>,
                DocModel)>::empty());
            }
            return Some((Doc::Object(entries), pos + 2));
        }
        match p_entries(cs, pos + 1) {
            Some((entries, p)) => {
                if p < n && cs[p] == '}' {
                    return Some((Doc::Object(entries), p + 1));
                } else {
                    return None;
                }
            },
            None => {
                return None;
            },
        }
    }
    None
}

/// Parse one or more comma-separated values, the executable mirror of
/// [`sp_items`].
fn p_items(cs: &Vec<char>, pos: usize) -> (r: Option<(Vec<Doc>, usize)>)
    ensures
        match r {
            Some((items, p)) => sp_items(cs@, pos as int) == Some(
                (crate::doc::models_of(items@), p as int),
            ) && pos < p <= cs@.len(),
            None => sp_items(cs@, pos as int) is None,
        },
    decreases cs@.len() - pos, 3int,
{
    let n = cs.len();
    match p_val(cs, pos) {
        None => None,
        Some((d, p)) => {
            if p < n && cs[p] == ',' {
                match p_items(cs, p + 1) {
                    Some((mut rest, p2)) => {
                        let ghost restm = crate::doc::models_of(rest@);
                        rest.insert(0, d);
                        proof {
                            assert(crate::doc::models_of(rest@) =~= seq![d@] + restm);
                        }
                        Some((rest, p2))
                    },
                    None => None,
                }
            } else {
                let mut items: Vec<Doc> = Vec::new();
                items.push(d);
                proof {
                    assert(crate::doc::models_of(items@) =~= seq![d@]);
                }
                Some((items, p))
            }
        },
    }
}

/// Parse one or more comma-separated entries, the executable mirror of
/// [`sp_entries`].
fn p_entries(cs: &Vec<char>, pos: usize) -> (r: Option<(Vec<(String, Doc)>, usize)>)
    ensures
        match r {
            Some((entries, p)) => sp_entries(cs@, pos as int) == Some(
                (crate::doc::entry_models_of(entries@), p as int),
            ) && pos < p <= cs@.len(),
            None => sp_entries(cs@, pos as int) is None,
        },
    decreases cs@.len() - pos, 3int,
{
    let n = cs.len();
    if pos >= n {
        return None;
    }
    if cs[pos] != '"' {
        return None;
    }
    match p_str(cs, pos + 1) {
        None => None,
        Some((k, p)) => {
            if p >= n {
                return None;
            }
            if cs[p] != ':' {
                return None;
            }
            match p_val(cs, p + 1) {
                None => None,
                Some((d, p2)) => {
                    let ks = crate::text::string_from_chars(&k);
                    if p2 < n && cs[p2] == ',' {
                        match p_entries(cs, p2 + 1) {
                            Some((mut rest, p3)) => {
                                let ghost restm = crate::doc::entry_models_of(rest@);
                                rest.insert(0, (ks, d));
                                proof {
                                    assert(crate::doc::entry_models_of(rest@) =~= seq![(k@, d@)]
                                        + restm);
                                }
                                Some((rest, p3))
                            },
                            None => None,
                        }
                    } else {
                        let mut entries: Vec<(String, Doc)> = Vec::new();
                        entries.push((ks, d));
                        proof {
                            assert(crate::doc::entry_models_of(entries@) =~= seq![(k@, d@)]);
                        }
                        Some((entries, p2))
                    }
                },
            }
        },
    }
}

/// Parse a whole character vector as one document.
///
/// Returns the document exactly when the text is one well-formed encoding;
/// `None` on anything else.
pub fn parse_json(cs: &Vec<char>) -> (r: Option<Doc>)
    ensures
        match r {
            Some(d) => json_parse(cs@) == Some(d@),
            None => json_parse(cs@) is None,
        },
{
    match p_val(cs, 0) {
        Some((d, p)) => {
            if p == cs.len() {
                Some(d)
            } else {
                None
            }
        },
        None => None,
    }
}

/// `x` occupies `cs` from `pos` on.
pub open spec fn matches_at(cs: Seq<char>, pos: int, x: Seq<char>) -> bool {
    0 <= pos && pos + x.len() <= cs.len() && cs.subrange(pos, pos + x.len()) == x
}

/// A run splits: `x + y` sits at `pos` exactly when `x` sits at `pos` and
/// `y` right after it.
proof fn lemma_matches_split(cs: Seq<char>, pos: int, x: Seq<char>, y: Seq<char>)
    requires
        matches_at(cs, pos, x + y),
    ensures
        matches_at(cs, pos, x),
        matches_at(cs, pos + x.len(), y),
{
    let xy = x + y;
    assert(cs.subrange(pos, pos + x.len()) =~= x) by {
        assert forall|i: int| 0 <= i < x.len() implies cs.subrange(pos, pos + x.len())[i]
            == x[i] by {
            assert(cs.subrange(pos, pos + xy.len())[i] == cs[pos + i]);
            assert(xy[i] == x[i]);
        }
    }
    assert(cs.subrange(pos + x.len(), pos + x.len() + y.len()) =~= y) by {
        assert forall|i: int|
            0 <= i < y.len() implies cs.subrange(pos + x.len(), pos + x.len() + y.len())[i]
            == y[i] by {
            assert(cs.subrange(pos, pos + xy.len())[x.len() + i] == cs[pos + x.len() + i]);
            assert(xy[x.len() + i] == y[i]);
        }
    }
}

/// The characters of a run sitting at `pos`.
proof fn lemma_matches_index(cs: Seq<char>, pos: int, x: Seq<char>)
    requires
        matches_at(cs, pos, x),
    ensures
        forall|i: int| 0 <= i < x.len() ==> cs[pos + i] == x[i],
        x.len() >= 1 ==> cs[pos] == x[0],
{
    assert forall|i: int| 0 <= i < x.len() implies cs[pos + i] == x[i] by {
        assert(cs.subrange(pos, pos + x.len())[i] == cs[pos + i]);
    }
    if x.len() >= 1 {
        assert(cs.subrange(pos, pos + x.len())[0] == cs[pos]);
    }
}

/// Every encoding is non-empty and starts with a digit, a quote or an
/// opening bracket.
proof fn lemma_json_first(d: DocModel)
    ensures
        json_of(d).len() >= 1,
        is_digit(json_of(d)[0]) || json_of(d)[0] == '"' || json_of(d)[0] == '[' || json_of(d)[0]
            == '{',
        json_of(d)[0] != ']',
        json_of(d)[0] != ',',
        json_of(d)[0] != ':',
        json_of(d)[0] != '}',
{
    match d {
        DocModel::UInt(n) => {
            lemma_dec_round_trip(n as int);
            assert(is_digit(json_of(d)[0]));
            assert(']' as u32 == 93 && ',' as u32 == 44 && ':' as u32 == 58 && '}' as u32 == 125);
        },
        DocModel::Text(t) => {
            assert(json_of(d)[0] == '"');
        },
        DocModel::List(items) => {
            assert(json_of(d)[0] == '[');
        },
        DocModel::Object(entries) => {
            assert(json_of(d)[0] == '{');
        },
    }
}

/// A digit run at `pos` followed by a non-digit ends exactly past the run.
proof fn lemma_run_bounds(cs: Seq<char>, pos: int, x: Seq<char>)
    requires
        matches_at(cs, pos, x),
        x.len() >= 1,
        forall|i: int| 0 <= i < x.len() ==> is_digit(#[trigger] x[i]),
        pos + x.len() == cs.len() || !is_digit(cs[pos + x.len()]),
    ensures
        digit_run_end(cs, pos) == pos + x.len(),
        digits_val(cs.subrange(pos, pos + x.len())) == digits_val(x),
{
    lemma_matches_index(cs, pos, x);
    assert forall|j: int| pos <= j < pos + x.len() implies is_digit(#[trigger] cs[j]) by {
        let i = j - pos;
        assert(cs[pos + i] == x[i]);
    }
    lemma_digit_run(cs, pos, pos + x.len());
    assert(cs.subrange(pos, pos + x.len()) == x);
}

/// Reading the escaped text back: `sp_str` recovers exactly the text whose
/// escape, and the closing quote, sit at `pos`.
proof fn lemma_rt_str(t: Seq<char>, cs: Seq<char>, pos: int)
    requires
        matches_at(cs, pos, esc_text(t) + seq!['"']),
    ensures
        sp_str(cs, pos) == Some((t, pos + esc_text(t).len() + 1)),
    decreases t.len(),
{
    let whole = esc_text(t) + seq!['"'];
    lemma_matches_index(cs, pos, whole);
    if t.len() == 0 {
        assert(esc_text(t) == Seq::<char>::empty());
        assert(whole[0] == '"');
        assert(cs[pos] == '"');
    } else {
        let c = t[0];
        let rest = t.drop_first();
        assert(esc_text(t) == esc_char(c) + esc_text(rest));
        assert(esc_char(c) + esc_text(rest) + seq!['"'] =~= esc_char(c) + (esc_text(rest)
            + seq!['"']));
        lemma_matches_split(cs, pos, esc_char(c), esc_text(rest) + seq!['"']);
        lemma_matches_index(cs, pos, esc_char(c));
        let pos2 = pos + esc_char(c).len();
        lemma_rt_str(rest, cs, pos2);
        assert(seq![c] + rest =~= t);
        if c == '"' {
            assert(cs[pos] == '\\' && cs[pos + 1] == '"');
            assert(sp_str(cs, pos) == Some((t, pos + esc_text(t).len() + 1)));
        } else if c == '\\' {
            assert(cs[pos] == '\\' && cs[pos + 1] == '\\');
            assert(sp_str(cs, pos) == Some((t, pos + esc_text(t).len() + 1)));
        } else if (c as u32) < 32 {
            let code = c as u32 as int;
            assert(cs[pos] == '\\' && cs[pos + 1] == 'u' && cs[pos + 2] == '0' && cs[pos + 3]
                == '0' && cs[pos + 4] == hex_digit(code / 16) && cs[pos + 5] == hex_digit(
                code % 16,
            ));
            lemma_hex_round_trip(code / 16);
            lemma_hex_round_trip(code % 16);
            assert('u' as u32 == 117 && '"' as u32 == 34 && '\\' as u32 == 92 && '/' as u32
                == 47);
            assert(cs[pos + 1] != '"' && cs[pos + 1] != '\\' && cs[pos + 1] != '/');
            let v = (code / 16) * 16 + code % 16;
            assert(v == code);
            assert(((v as u8) as char) as u32 == c as u32);
            lemma_char_code_eq((v as u8) as char, c);
            assert(sp_str(cs, pos) == Some((t, pos + esc_text(t).len() + 1)));
        } else {
            assert(cs[pos] == c);
            assert(c != '"' && c != '\\' && (c as u32) >= 32);
            assert(sp_str(cs, pos) == Some((t, pos + esc_text(t).len() + 1)));
        }
    }
}

/// Hex digits read back to their value.
proof fn lemma_hex_round_trip(d: int)
    requires
        0 <= d < 16,
    ensures
        hex_val(hex_digit(d)) == Some(d),
{
    if d < 10 {
        assert(hex_digit(d) as u32 == 48 + d);
    } else {
        assert(hex_digit(d) as u32 == 87 + d);
    }
}

/// Equal code points are one character.
proof fn lemma_char_code_eq(c1: char, c2: char)
    requires
        c1 as u32 == c2 as u32,
    ensures
        c1 == c2,
{
}

/// Reading a value back: `sp_val` recovers exactly the document whose
/// encoding sits at `pos`, provided no digit follows it directly.
proof fn lemma_rt_val(d: DocModel, cs: Seq<char>, pos: int)
    requires
        matches_at(cs, pos, json_of(d)),
        pos + json_of(d).len() == cs.len() || !is_digit(cs[pos + json_of(d).len()]),
    ensures
        sp_val(cs, pos) == Some((d, pos + json_of(d).len())),
    decreases d, 0int,
{
    lemma_json_first(d);
    lemma_matches_index(cs, pos, json_of(d));
    match d {
        DocModel::UInt(n) => {
            lemma_dec_round_trip(n as int);
            let x = dec_digits(n as int);
            assert(json_of(d) == x);
            assert(is_canon_dec(x));
            assert(x.len() >= 1 && is_digit(x[0]));
            assert(cs[pos] == x[0]);
            assert(is_digit(cs[pos]));
            assert(x.len() > 1 ==> x[0] != '0');
            lemma_run_bounds(cs, pos, x);
            assert(digit_run_end(cs, pos) == pos + x.len());
            assert(digits_val(cs.subrange(pos, pos + x.len())) == digits_val(x));
            assert(digits_val(x) == n);
            assert(sp_val(cs, pos) == Some((DocModel::UInt(n), pos + x.len())));
            assert(d == DocModel::UInt(n));
            assert(sp_val(cs, pos) == Some((d, pos + json_of(d).len())));
        },
        DocModel::Text(t) => {
            assert(cs[pos] == '"');
            assert(!is_digit('"')) by {
                assert('"' as u32 == 34);
            }
            assert(seq!['"'] + esc_text(t) + seq!['"'] =~= seq!['"'] + (esc_text(t)
                + seq!['"']));
            lemma_matches_split(cs, pos, seq!['"'], esc_text(t) + seq!['"']);
            lemma_rt_str(t, cs, pos + 1);
        },
        DocModel::List(items) => {
            assert(cs[pos] == '[');
            assert(!is_digit('[') && '[' != '"') by {
                assert('[' as u32 == 91 && '"' as u32 == 34);
            }
            if items.len() == 0 {
                assert(json_of(d) =~= seq!['[', ']']);
                assert(cs[pos + 1] == ']');
                assert(items =~= Seq::<DocModel>::empty());
                assert(sp_val(cs, pos) == Some((DocModel::List(Seq::empty()), pos + 2)));
                assert(sp_val(cs, pos) == Some((d, pos + json_of(d).len())));
            } else {
                assert(seq!['['] + json_of_items(items) + seq![']'] =~= seq!['['] + (
                json_of_items(items) + seq![']']));
                lemma_matches_split(cs, pos, seq!['['], json_of_items(items) + seq![']']);
                lemma_matches_split(cs, pos + 1, json_of_items(items), seq![']']);
                lemma_matches_index(cs, pos + 1 + json_of_items(items).len(), seq![']']);
                let close = pos + 1 + json_of_items(items).len();
                assert(cs[close] == ']');
                // the list is not empty, so what follows `[` opens a value
                lemma_items_first(items);
                lemma_matches_index(cs, pos + 1, json_of_items(items));
                assert(cs[pos + 1] == json_of_items(items)[0]);
                assert(cs[pos + 1] != ']');
                lemma_rt_items(items, cs, pos + 1);
                assert(']' as u32 == 93);
                assert(sp_val(cs, pos) == Some((d, pos + json_of(d).len())));
            }
        },
        DocModel::Object(entries) => {
            assert(cs[pos] == '{');
            assert(!is_digit('{') && '{' != '"' && '{' != '[') by {
                assert('{' as u32 == 123 && '"' as u32 == 34 && '[' as u32 == 91);
            }
            if entries.len() == 0 {
                assert(json_of(d) =~= seq!['{', '}']);
                assert(cs[pos + 1] == '}');
                assert(entries =~= Seq::<(Seq<char>, DocModel)>::empty());
                assert(sp_val(cs, pos) == Some((DocModel::Object(Seq::empty()), pos + 2)));
                assert(sp_val(cs, pos) == Some((d, pos + json_of(d).len())));
            } else {
                assert(seq!['{'] + json_of_entries(entries) + seq!['}'] =~= seq!['{'] + (
                json_of_entries(entries) + seq!['}']));
                lemma_matches_split(cs, pos, seq!['{'], json_of_entries(entries) + seq!['}']);
                lemma_matches_split(cs, pos + 1, json_of_entries(entries), seq!['}']);
                lemma_matches_index(cs, pos + 1 + json_of_entries(entries).len(), seq!['}']);
                let close = pos + 1 + json_of_entries(entries).len();
                assert(cs[close] == '}');
                lemma_entries_first(entries);
                lemma_matches_index(cs, pos + 1, json_of_entries(entries));
                assert(cs[pos + 1] == json_of_entries(entries)[0]);
                assert(cs[pos + 1] != '}');
                lemma_rt_entries(entries, cs, pos + 1);
                assert('}' as u32 == 125);
                assert(sp_val(cs, pos) == Some((d, pos + json_of(d).len())));
            }
        },
    }
}

/// A non-empty list body is non-empty text that opens a value.
proof fn lemma_items_first(items: Seq<DocModel>)
    requires
        items.len() >= 1,
    ensures
        json_of_items(items).len() >= 1,
        json_of_items(items)[0] == json_of(items[0])[0],
        json_of_items(items)[0] != ']',
        json_of_items(items)[0] != '}',
{
    lemma_json_first(items[0]);
    if items.len() == 1 {
    } else {
        assert(json_of_items(items)[0] == (json_of(items[0]) + seq![','] + json_of_items(
            items.drop_first(),
        ))[0]);
    }
}

/// A non-empty entry body starts with the quote of its first key.
proof fn lemma_entries_first(entries: Seq<(Seq<char>, DocModel)>)
    requires
        entries.len() >= 1,
    ensures
        json_of_entries(entries).len() >= 1,
        json_of_entries(entries)[0] == '"',
        json_of_entries(entries)[0] != '}',
{
    let head = seq!['"'] + esc_text(entries[0].0) + seq!['"'] + seq![':'] + json_of(
        entries[0].1,
    );
    assert(head[0] == '"');
    if entries.len() == 1 {
        assert(json_of_entries(entries)[0] == head[0]);
    } else {
        assert(json_of_entries(entries)[0] == (head + seq![','] + json_of_entries(
            entries.drop_first(),
        ))[0]);
    }
    assert('"' as u32 == 34 && '}' as u32 == 125);
}

/// Reading a list body back, element by element, up to the closing
/// bracket that follows it.
proof fn lemma_rt_items(items: Seq<DocModel>, cs: Seq<char>, pos: int)
    requires
        items.len() >= 1,
        matches_at(cs, pos, json_of_items(items)),
        pos + json_of_items(items).len() < cs.len(),
        cs[pos + json_of_items(items).len()] == ']',
    ensures
        sp_items(cs, pos) == Some((items, pos + json_of_items(items).len())),
    decreases items, 1int,
{
    let whole = json_of_items(items);
    if items.len() == 1 {
        assert(whole == json_of(items[0]));
        assert(!is_digit(']')) by {
            assert(']' as u32 == 93);
        }
        lemma_rt_val(items[0], cs, pos);
        let p = pos + whole.len();
        assert(cs[p] == ']');
        assert(']' != ',') by {
            assert(']' as u32 == 93 && ',' as u32 == 44);
        }
        assert(seq![items[0]] =~= items);
    } else {
        let head = json_of(items[0]);
        let rest = items.drop_first();
        assert(whole == head + seq![','] + json_of_items(rest));
        assert(head + seq![','] + json_of_items(rest) =~= head + (seq![','] + json_of_items(
            rest,
        )));
        lemma_matches_split(cs, pos, head, seq![','] + json_of_items(rest));
        lemma_matches_split(cs, pos + head.len(), seq![','], json_of_items(rest));
        lemma_matches_index(cs, pos + head.len(), seq![',']);
        assert(cs[pos + head.len()] == ',');
        assert(!is_digit(',')) by {
            assert(',' as u32 == 44);
        }
        lemma_rt_val(items[0], cs, pos);
        lemma_rt_items(rest, cs, pos + head.len() + 1);
        assert(seq![items[0]] + rest =~= items);
    }
}

/// Reading an entry body back, entry by entry, up to the closing brace
/// that follows it.
proof fn lemma_rt_entries(entries: Seq<(Seq<char>, DocModel)>, cs: Seq<char>, pos: int)
    requires
        entries.len() >= 1,
        matches_at(cs, pos, json_of_entries(entries)),
        pos + json_of_entries(entries).len() < cs.len(),
        cs[pos + json_of_entries(entries).len()] == '}',
    ensures
        sp_entries(cs, pos) == Some((entries, pos + json_of_entries(entries).len())),
    decreases entries, 1int,
{
    let whole = json_of_entries(entries);
    let k = entries[0].0;
    let v = entries[0].1;
    let head = seq!['"'] + esc_text(k) + seq!['"'] + seq![':'] + json_of(v);
    assert(head =~= seq!['"'] + ((esc_text(k) + seq!['"']) + (seq![':'] + json_of(v))));
    let tail_of_head = (esc_text(k) + seq!['"']) + (seq![':'] + json_of(v));
    if entries.len() == 1 {
        assert(whole == head);
        lemma_matches_split(cs, pos, seq!['"'], tail_of_head);
        lemma_matches_index(cs, pos, seq!['"']);
        assert(cs[pos] == '"');
        lemma_matches_split(cs, pos + 1, esc_text(k) + seq!['"'], seq![':'] + json_of(v));
        lemma_rt_str(k, cs, pos + 1);
        let pcolon = pos + 1 + esc_text(k).len() + 1;
        lemma_matches_split(cs, pcolon, seq![':'], json_of(v));
        lemma_matches_index(cs, pcolon, seq![':']);
        assert(cs[pcolon] == ':');
        let pval = pcolon + 1;
        assert(pval + json_of(v).len() == pos + whole.len());
        assert(!is_digit('}')) by {
            assert('}' as u32 == 125);
        }
        lemma_rt_val(v, cs, pval);
        assert('}' != ',') by {
            assert('}' as u32 == 125 && ',' as u32 == 44);
        }
        assert(seq![(k, v)] =~= entries);
    } else {
        let rest = entries.drop_first();
        assert(whole == head + seq![','] + json_of_entries(rest));
        assert(head + seq![','] + json_of_entries(rest) =~= seq!['"'] + (tail_of_head + (
        seq![','] + json_of_entries(rest))));
        lemma_matches_split(cs, pos, seq!['"'], tail_of_head + (seq![','] + json_of_entries(
            rest,
        )));
        lemma_matches_index(cs, pos, seq!['"']);
        assert(cs[pos] == '"');
        lemma_matches_split(cs, pos + 1, tail_of_head, seq![','] + json_of_entries(rest));
        lemma_matches_split(cs, pos + 1, esc_text(k) + seq!['"'], seq![':'] + json_of(v));
        lemma_rt_str(k, cs, pos + 1);
        let pcolon = pos + 1 + esc_text(k).len() + 1;
        lemma_matches_split(cs, pcolon, seq![':'], json_of(v));
        lemma_matches_index(cs, pcolon, seq![':']);
        assert(cs[pcolon] == ':');
        let pval = pcolon + 1;
        let pcomma = pval + json_of(v).len();
        lemma_matches_split(cs, pcomma, seq![','], json_of_entries(rest));
        lemma_matches_index(cs, pcomma, seq![',']);
        assert(cs[pcomma] == ',');
        assert(!is_digit(',')) by {
            assert(',' as u32 == 44);
        }
        lemma_rt_val(v, cs, pval);
        lemma_rt_entries(rest, cs, pcomma + 1);
        assert(seq![(k, v)] + rest =~= entries);
    }
}

/// The round trip: parsing a printed document gives the document back,
/// whatever it holds.
pub proof fn lemma_json_round_trip(d: DocModel)
    ensures
        json_parse(json_of(d)) == Some(d),
{
    let cs = json_of(d);
    assert(cs.subrange(0, cs.len() as int) =~= cs);
    lemma_rt_val(d, cs, 0);
}

/// Print a document as its text encoding.
pub fn print_json(d: &Doc) -> (r: Vec<char>)
    ensures
        r@ == json_of(d@),
{
    let mut out: Vec<char> = Vec::new();
    write_json(d, &mut out);
    proof {
        assert(out@ =~= json_of(d@));
    }
    out
}

} // verus!
