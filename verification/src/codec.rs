//! Wire form of the entry collection, for the persistence slot.
//!
//! Each entry is written with its three fields named — `description`,
//! `completed`, `editing` — the description length-prefixed so that no
//! character of it needs escaping, and the collection is preceded by its
//! entry count:
//!
//! `2;description=3;abc,completed=true,editing=false;description=1;x,...`
//!
//! Decoding accepts exactly the encodings and inverts them; anything else is
//! rejected, which the loader treats as "no prior data".

use vstd::prelude::*;

use crate::entry::Entry;
use crate::entry::EntryView;
use crate::state::views_of;

verus! {

/// The decimal digit characters.
pub open spec fn is_digit(c: char) -> bool {
    c == '0' || c == '1' || c == '2' || c == '3' || c == '4' || c == '5' || c == '6' || c == '7'
        || c == '8' || c == '9'
}

/// The digit character standing for `d`.
pub open spec fn digit_char(d: int) -> char {
    if d == 0 {
        '0'
    } else if d == 1 {
        '1'
    } else if d == 2 {
        '2'
    } else if d == 3 {
        '3'
    } else if d == 4 {
        '4'
    } else if d == 5 {
        '5'
    } else if d == 6 {
        '6'
    } else if d == 7 {
        '7'
    } else if d == 8 {
        '8'
    } else {
        '9'
    }
}

/// The numeric value of a digit character.
pub open spec fn digit_value(c: char) -> int {
    if c == '0' {
        0
    } else if c == '1' {
        1
    } else if c == '2' {
        2
    } else if c == '3' {
        3
    } else if c == '4' {
        4
    } else if c == '5' {
        5
    } else if c == '6' {
        6
    } else if c == '7' {
        7
    } else if c == '8' {
        8
    } else {
        9
    }
}

/// `n` in decimal notation, most significant digit first.
pub open spec fn enc_nat(n: nat) -> Seq<char>
    decreases n,
{
    if n < 10 {
        seq![digit_char(n as int)]
    } else {
        enc_nat(n / 10) + seq![digit_char((n % 10) as int)]
    }
}

/// `b` as the word `true` or `false`.
pub open spec fn enc_bool(b: bool) -> Seq<char> {
    if b {
        "true"@
    } else {
        "false"@
    }
}

/// One entry on the wire: every field named and always present, the
/// description length-prefixed.
pub open spec fn enc_entry(e: EntryView) -> Seq<char> {
    "description="@ + enc_nat(e.description.len()) + ";"@ + e.description + ",completed="@
        + enc_bool(e.completed) + ",editing="@ + enc_bool(e.editing) + ";"@
}

/// A sequence of entries on the wire, one after the other.
pub open spec fn enc_list(es: Seq<EntryView>) -> Seq<char>
    decreases es.len(),
{
    if es.len() == 0 {
        Seq::empty()
    } else {
        enc_entry(es[0]) + enc_list(es.drop_first())
    }
}

/// An entry collection on the wire: the count, then the entries.
pub open spec fn enc_entries(es: Seq<EntryView>) -> Seq<char> {
    enc_nat(es.len()) + ";"@ + enc_list(es)
}

/// Greedily consume decimal digits, extending the value read so far.
pub open spec fn dec_digits(s: Seq<char>, acc: nat) -> (nat, Seq<char>)
    decreases s.len(),
{
    if s.len() > 0 && is_digit(s[0]) {
        dec_digits(s.drop_first(), acc * 10 + digit_value(s[0]) as nat)
    } else {
        (acc, s)
    }
}

/// Consume a decimal number; at least one digit must be present.
pub open spec fn dec_nat(s: Seq<char>) -> Option<(nat, Seq<char>)> {
    if s.len() > 0 && is_digit(s[0]) {
        Some(dec_digits(s, 0))
    } else {
        None
    }
}

/// Whether `p` stands at the front of `s`.
pub open spec fn has_prefix(s: Seq<char>, p: Seq<char>) -> bool {
    p.len() <= s.len() && s.take(p.len() as int) == p
}

/// Consume the exact text `p`.
pub open spec fn dec_lit(s: Seq<char>, p: Seq<char>) -> Option<Seq<char>> {
    if has_prefix(s, p) {
        Some(s.skip(p.len() as int))
    } else {
        None
    }
}

/// Consume the word `true` or `false`.
pub open spec fn dec_bool(s: Seq<char>) -> Option<(bool, Seq<char>)> {
    if has_prefix(s, "true"@) {
        Some((true, s.skip("true"@.len() as int)))
    } else if has_prefix(s, "false"@) {
        Some((false, s.skip("false"@.len() as int)))
    } else {
        None
    }
}

/// Consume one wire entry.
pub open spec fn dec_entry(s: Seq<char>) -> Option<(EntryView, Seq<char>)> {
    match dec_lit(s, "description="@) {
        None => None,
        Some(s1) => match dec_nat(s1) {
            None => None,
            Some((m, s2)) => match dec_lit(s2, ";"@) {
                None => None,
                Some(s3) => if m <= s3.len() {
                    let description = s3.take(m as int);
                    let s4 = s3.skip(m as int);
                    match dec_lit(s4, ",completed="@) {
                        None => None,
                        Some(s5) => match dec_bool(s5) {
                            None => None,
                            Some((completed, s6)) => match dec_lit(s6, ",editing="@) {
                                None => None,
                                Some(s7) => match dec_bool(s7) {
                                    None => None,
                                    Some((editing, s8)) => match dec_lit(s8, ";"@) {
                                        None => None,
                                        Some(s9) => Some(
                                            (EntryView { description, completed, editing }, s9),
                                        ),
                                    },
                                },
                            },
                        },
                    }
                } else {
                    None
                },
            },
        },
    }
}

/// Consume exactly `n` wire entries.
pub open spec fn dec_list(s: Seq<char>, n: nat) -> Option<(Seq<EntryView>, Seq<char>)>
    decreases n,
{
    if n == 0 {
        Some((Seq::empty(), s))
    } else {
        match dec_entry(s) {
            None => None,
            Some((e, s1)) => match dec_list(s1, (n - 1) as nat) {
                None => None,
                Some((es, s2)) => Some((seq![e] + es, s2)),
            },
        }
    }
}

/// Decode a whole wire collection; every character must be consumed.
pub open spec fn dec_entries(s: Seq<char>) -> Option<Seq<EntryView>> {
    match dec_nat(s) {
        None => None,
        Some((n, s1)) => match dec_lit(s1, ";"@) {
            None => None,
            Some(s2) => match dec_list(s2, n) {
                None => None,
                Some((es, s3)) => if s3.len() == 0 {
                    Some(es)
                } else {
                    None
                },
            },
        },
    }
}

/// Powers of ten.
pub open spec fn pow10(k: nat) -> nat
    decreases k,
{
    if k == 0 {
        1
    } else {
        10 * pow10((k - 1) as nat)
    }
}

/// A wire number is a non-empty run of digits.
proof fn lemma_enc_nat_shape(n: nat)
    ensures
        enc_nat(n).len() >= 1,
        forall|i: int| 0 <= i < enc_nat(n).len() ==> is_digit(#[trigger] enc_nat(n)[i]),
    decreases n,
{
    if n < 10 {
    } else {
        lemma_enc_nat_shape(n / 10);
        assert forall|i: int| 0 <= i < enc_nat(n).len() implies is_digit(
            #[trigger] enc_nat(n)[i],
        ) by {
            if i < enc_nat(n / 10).len() {
                assert(enc_nat(n)[i] == enc_nat(n / 10)[i]);
            } else {
                assert(enc_nat(n)[i] == digit_char((n % 10) as int));
            }
        }
    }
}

/// Reading the digits of `enc_nat(n)` before `rest` accumulates exactly `n`.
proof fn lemma_dec_digits_enc(n: nat, rest: Seq<char>, acc: nat)
    ensures
        dec_digits(enc_nat(n) + rest, acc) == dec_digits(rest, acc * pow10(enc_nat(n).len()) + n),
    decreases n,
{
    let e = enc_nat(n);
    if n < 10 {
        assert((e + rest)[0] == digit_char(n as int));
        assert(is_digit(digit_char(n as int)));
        assert(digit_value(digit_char(n as int)) == n);
        assert((e + rest).drop_first() =~= rest);
        assert(pow10(0) == 1);
        assert(pow10(1) == 10);
        assert(e.len() == 1);
        assert(dec_digits(e + rest, acc) == dec_digits(rest, acc * 10 + n));
    } else {
        let hi = enc_nat(n / 10);
        let d = digit_char((n % 10) as int);
        assert(e == hi + seq![d]);
        assert(e + rest =~= hi + (seq![d] + rest));
        lemma_dec_digits_enc(n / 10, seq![d] + rest, acc);
        let acc1 = acc * pow10(hi.len()) + n / 10;
        assert((seq![d] + rest)[0] == d);
        assert(is_digit(d));
        assert(digit_value(d) == n % 10);
        assert((seq![d] + rest).drop_first() =~= rest);
        assert(dec_digits(seq![d] + rest, acc1) == dec_digits(rest, acc1 * 10 + (n % 10)));
        assert(e.len() == hi.len() + 1);
        assert(pow10(hi.len() + 1) == 10 * pow10(hi.len()));
        assert(n == 10 * (n / 10) + n % 10);
        assert(acc1 * 10 + (n % 10) == acc * pow10(e.len()) + n) by (nonlinear_arith)
            requires
                acc1 == acc * pow10(hi.len()) + n / 10,
                pow10(e.len() as nat) == 10 * pow10(hi.len()),
                e.len() == hi.len() + 1,
                n == 10 * (n / 10) + n % 10,
        ;
    }
}

/// Reading digits never shrinks the value and never grows the remainder.
proof fn lemma_dec_digits_bounds(s: Seq<char>, acc: nat)
    ensures
        dec_digits(s, acc).0 >= acc,
        dec_digits(s, acc).1.len() <= s.len(),
    decreases s.len(),
{
    if s.len() > 0 && is_digit(s[0]) {
        lemma_dec_digits_bounds(s.drop_first(), acc * 10 + digit_value(s[0]) as nat);
    }
}

/// Consuming a known prefix leaves exactly what follows it.
proof fn lemma_unprefix(p: Seq<char>, rest: Seq<char>)
    ensures
        dec_lit(p + rest, p) == Some(rest),
{
    assert((p + rest).take(p.len() as int) =~= p);
    assert((p + rest).skip(p.len() as int) =~= rest);
}

/// A wire boolean before `rest` reads back as the boolean it encodes.
proof fn lemma_dec_bool_enc(b: bool, rest: Seq<char>)
    ensures
        dec_bool(enc_bool(b) + rest) == Some((b, rest)),
{
    reveal_strlit("true");
    reveal_strlit("false");
    if b {
        lemma_unprefix("true"@, rest);
        assert(("true"@ + rest).skip("true"@.len() as int) =~= rest);
    } else {
        let s = "false"@ + rest;
        assert(s[0] == 'f');
        if has_prefix(s, "true"@) {
            assert(s.take("true"@.len() as int)[0] == s[0]);
            assert(false);
        }
        lemma_unprefix("false"@, rest);
        assert(s.skip("false"@.len() as int) =~= rest);
    }
}

/// A wire entry before `rest` reads back as the entry it encodes.
proof fn lemma_dec_entry_enc(e: EntryView, rest: Seq<char>)
    ensures
        dec_entry(enc_entry(e) + rest) == Some((e, rest)),
{
    let m = e.description.len();
    let t8 = ";"@ + rest;
    let t7 = enc_bool(e.editing) + t8;
    let t6 = ",editing="@ + t7;
    let t5 = enc_bool(e.completed) + t6;
    let t4 = ",completed="@ + t5;
    let t3 = e.description + t4;
    let t2 = ";"@ + t3;
    let t1 = enc_nat(m) + t2;
    let s = "description="@ + t1;
    assert(enc_entry(e) + rest =~= s);
    lemma_unprefix("description="@, t1);
    lemma_enc_nat_shape(m);
    assert(t1[0] == enc_nat(m)[0]);
    assert(is_digit(t1[0]));
    lemma_dec_digits_enc(m, t2, 0);
    assert(0 * pow10(enc_nat(m).len()) + m == m);
    reveal_strlit(";");
    assert(t2[0] == ';');
    assert(!is_digit(';'));
    assert(dec_digits(t2, m) == (m, t2));
    assert(dec_nat(t1) == Some((m, t2)));
    lemma_unprefix(";"@, t3);
    assert(m <= t3.len());
    assert(t3.take(m as int) =~= e.description);
    assert(t3.skip(m as int) =~= t4);
    lemma_unprefix(",completed="@, t5);
    lemma_dec_bool_enc(e.completed, t6);
    lemma_unprefix(",editing="@, t7);
    lemma_dec_bool_enc(e.editing, t8);
    lemma_unprefix(";"@, rest);
    assert(EntryView {
        description: t3.take(m as int),
        completed: e.completed,
        editing: e.editing,
    } =~= e);
}

/// A run of wire entries before `rest` reads back as the entries encoded.
proof fn lemma_dec_list_enc(es: Seq<EntryView>, rest: Seq<char>)
    ensures
        dec_list(enc_list(es) + rest, es.len() as nat) == Some((es, rest)),
    decreases es.len(),
{
    if es.len() == 0 {
        assert(enc_list(es) + rest =~= rest);
        assert(es =~= Seq::<EntryView>::empty());
    } else {
        let d = es.drop_first();
        assert(enc_list(es) + rest =~= enc_entry(es[0]) + (enc_list(d) + rest));
        lemma_dec_entry_enc(es[0], enc_list(d) + rest);
        lemma_dec_list_enc(d, rest);
        assert(seq![es[0]] + d =~= es);
    }
}

/// Decoding inverts encoding: the wire form of any entry collection decodes
/// to exactly that collection.
pub proof fn lemma_encode_decode_round_trip(es: Seq<EntryView>)
    ensures
        dec_entries(enc_entries(es)) == Some(es),
{
    let n = es.len() as nat;
    let s = enc_entries(es);
    let t1 = ";"@ + enc_list(es);
    assert(s =~= enc_nat(n) + t1);
    lemma_enc_nat_shape(n);
    assert(s[0] == enc_nat(n)[0]);
    assert(is_digit(s[0]));
    lemma_dec_digits_enc(n, t1, 0);
    assert(0 * pow10(enc_nat(n).len()) + n == n);
    reveal_strlit(";");
    assert(t1[0] == ';');
    assert(!is_digit(';'));
    assert(dec_digits(t1, n) == (n, t1));
    assert(dec_nat(s) == Some((n, t1)));
    lemma_unprefix(";"@, enc_list(es));
    lemma_dec_list_enc(es, Seq::empty());
    assert(enc_list(es) + Seq::<char>::empty() =~= enc_list(es));
}

/// Extending a prefix of entries by one appends that entry's wire form.
proof fn lemma_enc_list_take_step(es: Seq<EntryView>, i: int)
    requires
        0 <= i < es.len(),
    ensures
        enc_list(es.take(i + 1)) == enc_list(es.take(i)) + enc_entry(es[i]),
    decreases es.len(),
{
    if i == 0 {
        assert(es.take(0) =~= Seq::<EntryView>::empty());
        assert(enc_list(es.take(0)) == Seq::<char>::empty());
        let a = es.take(1);
        assert(a.drop_first() =~= Seq::<EntryView>::empty());
        assert(enc_list(a.drop_first()) == Seq::<char>::empty());
        assert(a.len() == 1 && a[0] == es[0]);
        assert(enc_list(a) == enc_entry(es[0]) + Seq::<char>::empty());
        assert(enc_entry(es[0]) + Seq::<char>::empty() =~= enc_entry(es[0]));
        assert(Seq::<char>::empty() + enc_entry(es[0]) =~= enc_entry(es[0]));
    } else {
        let d = es.drop_first();
        lemma_enc_list_take_step(d, i - 1);
        let a = es.take(i + 1);
        let b = es.take(i);
        assert(a.drop_first() =~= d.take(i));
        assert(b.drop_first() =~= d.take(i - 1));
        assert(a[0] == es[0] && b[0] == es[0]);
        assert(d[i - 1] == es[i]);
        assert(enc_list(a) == enc_entry(es[0]) + (enc_list(d.take(i - 1)) + enc_entry(es[i])));
        assert(enc_entry(es[0]) + (enc_list(d.take(i - 1)) + enc_entry(es[i])) =~= (enc_entry(
            es[0],
        ) + enc_list(d.take(i - 1))) + enc_entry(es[i]));
    }
}

fn digit_str(d: usize) -> (r: &'static str)
    requires
        d < 10,
    ensures
        r@ == seq![digit_char(d as int)],
{
    if d == 0 {
        proof {
            reveal_strlit("0");
            assert("0"@ =~= seq![digit_char(0)]);
        }
        "0"
    } else if d == 1 {
        proof {
            reveal_strlit("1");
            assert("1"@ =~= seq![digit_char(1)]);
        }
        "1"
    } else if d == 2 {
        proof {
            reveal_strlit("2");
            assert("2"@ =~= seq![digit_char(2)]);
        }
        "2"
    } else if d == 3 {
        proof {
            reveal_strlit("3");
            assert("3"@ =~= seq![digit_char(3)]);
        }
        "3"
    } else if d == 4 {
        proof {
            reveal_strlit("4");
            assert("4"@ =~= seq![digit_char(4)]);
        }
        "4"
    } else if d == 5 {
        proof {
            reveal_strlit("5");
            assert("5"@ =~= seq![digit_char(5)]);
        }
        "5"
    } else if d == 6 {
        proof {
            reveal_strlit("6");
            assert("6"@ =~= seq![digit_char(6)]);
        }
        "6"
    } else if d == 7 {
        proof {
            reveal_strlit("7");
            assert("7"@ =~= seq![digit_char(7)]);
        }
        "7"
    } else if d == 8 {
        proof {
            reveal_strlit("8");
            assert("8"@ =~= seq![digit_char(8)]);
        }
        "8"
    } else {
        proof {
            reveal_strlit("9");
            assert("9"@ =~= seq![digit_char(9)]);
        }
        "9"
    }
}

fn push_nat(out: &mut String, n: usize)
    ensures
        final(out)@ == old(out)@ + enc_nat(n as nat),
    decreases n,
{
    if n < 10 {
        out.append(digit_str(n));
    } else {
        push_nat(out, n / 10);
        out.append(digit_str(n % 10));
        proof {
            assert((old(out)@ + enc_nat((n / 10) as nat)) + seq![digit_char((n % 10) as int)]
                =~= old(out)@ + enc_nat(n as nat));
        }
    }
}

fn push_entry(out: &mut String, e: &Entry)
    ensures
        final(out)@ == old(out)@ + enc_entry(e@),
{
    out.append("description=");
    push_nat(out, e.description.as_str().unicode_len());
    out.append(";");
    out.append(e.description.as_str());
    out.append(",completed=");
    let completed_word = if e.completed {
        "true"
    } else {
        "false"
    };
    out.append(completed_word);
    out.append(",editing=");
    let editing_word = if e.editing {
        "true"
    } else {
        "false"
    };
    out.append(editing_word);
    out.append(";");
    proof {
        assert(completed_word@ == enc_bool(e@.completed));
        assert(editing_word@ == enc_bool(e@.editing));
        assert(out@ =~= old(out)@ + enc_entry(e@));
    }
}

/// The wire form of the whole entry collection.
pub fn encode_entries(entries: &Vec<Entry>) -> (r: String)
    ensures
        r@ == enc_entries(views_of(entries@)),
{
    let ghost es = views_of(entries@);
    let mut out = String::new();
    push_nat(&mut out, entries.len());
    out.append(";");
    proof {
        assert(es.take(0) =~= Seq::<EntryView>::empty());
        assert(enc_list(es.take(0)) == Seq::<char>::empty());
        assert(out@ =~= (enc_nat(es.len()) + ";"@) + enc_list(es.take(0)));
    }
    let mut i: usize = 0;
    while i < entries.len()
        invariant
            es == views_of(entries@),
            es.len() == entries@.len(),
            0 <= i <= es.len(),
            out@ == (enc_nat(es.len()) + ";"@) + enc_list(es.take(i as int)),
        decreases es.len() - i,
    {
        let e = &entries[i];
        push_entry(&mut out, e);
        proof {
            lemma_enc_list_take_step(es, i as int);
            assert(e@ == es[i as int]);
            assert(out@ =~= (enc_nat(es.len()) + ";"@) + enc_list(es.take(i + 1)));
        }
        i = i + 1;
    }
    proof {
        assert(es.take(es.len() as int) =~= es);
        assert(out@ =~= enc_entries(es));
    }
    out
}

/// A successfully decoded entry consumes at least one character.
proof fn lemma_dec_entry_shrinks(s: Seq<char>)
    requires
        dec_entry(s) is Some,
    ensures
        (dec_entry(s)->Some_0).1.len() < s.len(),
{
    reveal_strlit("description=");
    assert(dec_lit(s, "description="@) is Some);
    let s1 = dec_lit(s, "description="@)->Some_0;
    assert(s1.len() == s.len() - 12);
    assert(dec_nat(s1) is Some);
    lemma_dec_digits_bounds(s1, 0);
    let s2 = (dec_nat(s1)->Some_0).1;
    let m = (dec_nat(s1)->Some_0).0;
    assert(s2.len() <= s1.len());
    assert(dec_lit(s2, ";"@) is Some);
    let s3 = dec_lit(s2, ";"@)->Some_0;
    assert(s3.len() <= s2.len());
    assert(m <= s3.len());
    let s4 = s3.skip(m as int);
    assert(s4.len() <= s3.len());
    assert(dec_lit(s4, ",completed="@) is Some);
    let s5 = dec_lit(s4, ",completed="@)->Some_0;
    assert(s5.len() <= s4.len());
    assert(dec_bool(s5) is Some);
    let s6 = (dec_bool(s5)->Some_0).1;
    assert(s6.len() <= s5.len());
    assert(dec_lit(s6, ",editing="@) is Some);
    let s7 = dec_lit(s6, ",editing="@)->Some_0;
    assert(s7.len() <= s6.len());
    assert(dec_bool(s7) is Some);
    let s8 = (dec_bool(s7)->Some_0).1;
    assert(s8.len() <= s7.len());
    assert(dec_lit(s8, ";"@) is Some);
    let s9 = dec_lit(s8, ";"@)->Some_0;
    assert(s9.len() <= s8.len());
    assert((dec_entry(s)->Some_0).1 == s9);
}

/// More entries than characters cannot be decoded.
proof fn lemma_dec_list_too_long(s: Seq<char>, n: nat)
    requires
        n > s.len(),
    ensures
        dec_list(s, n) is None,
    decreases n,
{
    if dec_entry(s) is Some {
        lemma_dec_entry_shrinks(s);
        lemma_dec_list_too_long((dec_entry(s)->Some_0).1, (n - 1) as nat);
    }
}

/// Decoding `a + b` entries is decoding `a`, then `b` from the remainder.
proof fn lemma_dec_list_split(s: Seq<char>, a: nat, b: nat)
    ensures
        dec_list(s, a + b) == (match dec_list(s, a) {
            None => None,
            Some((es1, r1)) => match dec_list(r1, b) {
                None => None,
                Some((es2, r2)) => Some((es1 + es2, r2)),
            },
        }),
    decreases a,
{
    if a == 0 {
        if dec_list(s, b) is Some {
            assert(Seq::<EntryView>::empty() + (dec_list(s, b)->Some_0).0 =~= (dec_list(s, b)->Some_0).0);
        }
    } else {
        if dec_entry(s) is Some {
            let e = (dec_entry(s)->Some_0).0;
            let r = (dec_entry(s)->Some_0).1;
            lemma_dec_list_split(r, (a - 1) as nat, b);
            assert(((a + b) - 1) as nat == (a - 1) as nat + b);
            if dec_list(r, (a - 1) as nat) is Some {
                let es1 = (dec_list(r, (a - 1) as nat)->Some_0).0;
                let r1 = (dec_list(r, (a - 1) as nat)->Some_0).1;
                if dec_list(r1, b) is Some {
                    let es2 = (dec_list(r1, b)->Some_0).0;
                    assert(seq![e] + (es1 + es2) =~= (seq![e] + es1) + es2);
                }
            }
        }
    }
}

fn is_digit_char(c: char) -> (r: bool)
    ensures
        r == is_digit(c),
{
    c == '0' || c == '1' || c == '2' || c == '3' || c == '4' || c == '5' || c == '6' || c == '7'
        || c == '8' || c == '9'
}

fn digit_of(c: char) -> (r: Option<u8>)
    ensures
        r is Some ==> is_digit(c) && r->Some_0 as int == digit_value(c),
        r is None ==> !is_digit(c),
{
    if c == '0' {
        Some(0)
    } else if c == '1' {
        Some(1)
    } else if c == '2' {
        Some(2)
    } else if c == '3' {
        Some(3)
    } else if c == '4' {
        Some(4)
    } else if c == '5' {
        Some(5)
    } else if c == '6' {
        Some(6)
    } else if c == '7' {
        Some(7)
    } else if c == '8' {
        Some(8)
    } else if c == '9' {
        Some(9)
    } else {
        None
    }
}

/// Match the exact text `lit` at `pos`; `n` is the character length of `s`.
fn expect_lit(s: &str, n: usize, pos: usize, lit: &str) -> (r: Option<usize>)
    requires
        n as nat == s@.len(),
        pos <= n,
    ensures
        match r {
            Some(pos2) => {
                &&& pos <= pos2 <= n
                &&& dec_lit(s@.skip(pos as int), lit@) == Some(s@.skip(pos2 as int))
            },
            None => dec_lit(s@.skip(pos as int), lit@) is None,
        },
{
    let l = lit.unicode_len();
    if n - pos < l {
        return None;
    }
    let mut j: usize = 0;
    while j < l
        invariant
            n as nat == s@.len(),
            pos <= n,
            l as nat == lit@.len(),
            l <= n - pos,
            0 <= j <= l,
            forall|t: int| 0 <= t < j ==> s@.skip(pos as int)[t] == lit@[t],
        decreases l - j,
    {
        let a = s.get_char(pos + j);
        let b = lit.get_char(j);
        proof {
            assert(s@.skip(pos as int)[j as int] == s@[pos as int + j]);
        }
        if a != b {
            proof {
                if has_prefix(s@.skip(pos as int), lit@) {
                    assert(s@.skip(pos as int).take(lit@.len() as int)[j as int] == s@.skip(
                        pos as int,
                    )[j as int]);
                }
            }
            return None;
        }
        j = j + 1;
    }
    proof {
        assert(s@.skip(pos as int).take(l as int) =~= lit@);
        assert(s@.skip(pos as int).skip(l as int) =~= s@.skip(pos as int + l));
    }
    Some(pos + l)
}

/// Read a decimal number at `pos`. A result of `Some((None, pos2))` means
/// the digits were well-formed but their value exceeds `usize`.
fn read_nat(s: &str, n: usize, pos: usize) -> (r: Option<(Option<usize>, usize)>)
    requires
        n as nat == s@.len(),
        pos <= n,
    ensures
        match r {
            Some((val, pos2)) => {
                &&& pos < pos2 <= n
                &&& dec_nat(s@.skip(pos as int)) is Some
                &&& (dec_nat(s@.skip(pos as int))->Some_0).1 == s@.skip(pos2 as int)
                &&& (match val {
                    Some(u) => u as nat == (dec_nat(s@.skip(pos as int))->Some_0).0,
                    None => (dec_nat(s@.skip(pos as int))->Some_0).0 > usize::MAX,
                })
            },
            None => dec_nat(s@.skip(pos as int)) is None,
        },
{
    if pos == n {
        proof {
            assert(s@.skip(pos as int).len() == 0);
        }
        return None;
    }
    let c0 = s.get_char(pos);
    proof {
        assert(s@.skip(pos as int)[0] == s@[pos as int]);
    }
    if is_digit_char(c0) {
    } else {
        return None;
    }
    let mut pos2: usize = pos;
    let mut acc: usize = 0;
    let mut overflow: bool = false;
    let ghost mut g: nat = 0;
    while pos2 < n && is_digit_char(s.get_char(pos2))
        invariant
            n as nat == s@.len(),
            pos <= pos2 <= n,
            dec_digits(s@.skip(pos as int), 0) == dec_digits(s@.skip(pos2 as int), g),
            !overflow ==> acc as nat == g,
            overflow ==> g > usize::MAX,
            pos2 == pos ==> g == 0,
            pos < n && is_digit(s@[pos as int]),
        decreases n - pos2,
    {
        let c = s.get_char(pos2);
        let d = match digit_of(c) {
            Some(d) => d,
            None => {
                proof {
                    assert(false);
                }
                0
            },
        };
        proof {
            assert(s@.skip(pos2 as int)[0] == s@[pos2 as int]);
            assert(s@.skip(pos2 as int).drop_first() =~= s@.skip(pos2 as int + 1));
        }
        if !overflow {
            match acc.checked_mul(10) {
                Some(t) => {
                    match t.checked_add(d as usize) {
                        Some(t2) => {
                            acc = t2;
                        },
                        None => {
                            overflow = true;
                        },
                    }
                },
                None => {
                    overflow = true;
                },
            }
        }
        proof {
            g = g * 10 + digit_value(s@[pos2 as int]) as nat;
        }
        pos2 = pos2 + 1;
    }
    proof {
        if pos2 < n {
            assert(!is_digit(s@[pos2 as int]));
            assert(s@.skip(pos2 as int)[0] == s@[pos2 as int]);
        } else {
            assert(s@.skip(pos2 as int).len() == 0);
        }
        assert(dec_digits(s@.skip(pos2 as int), g) == (g, s@.skip(pos2 as int)));
        assert(pos2 > pos);
    }
    if overflow {
        Some((None, pos2))
    } else {
        Some((Some(acc), pos2))
    }
}

/// Read the word `true` or `false` at `pos`.
fn read_bool(s: &str, n: usize, pos: usize) -> (r: Option<(bool, usize)>)
    requires
        n as nat == s@.len(),
        pos <= n,
    ensures
        match r {
            Some((b, pos2)) => {
                &&& pos <= pos2 <= n
                &&& dec_bool(s@.skip(pos as int)) == Some((b, s@.skip(pos2 as int)))
            },
            None => dec_bool(s@.skip(pos as int)) is None,
        },
{
    match expect_lit(s, n, pos, "true") {
        Some(pos2) => Some((true, pos2)),
        None => match expect_lit(s, n, pos, "false") {
            Some(pos2) => Some((false, pos2)),
            None => None,
        },
    }
}

/// Read one wire entry at `pos`.
fn read_entry(s: &str, n: usize, pos: usize) -> (r: Option<(Entry, usize)>)
    requires
        n as nat == s@.len(),
        pos <= n,
    ensures
        match r {
            Some((e, pos2)) => {
                &&& pos <= pos2 <= n
                &&& dec_entry(s@.skip(pos as int)) == Some((e@, s@.skip(pos2 as int)))
            },
            None => dec_entry(s@.skip(pos as int)) is None,
        },
{
    let p1 = match expect_lit(s, n, pos, "description=") {
        Some(p) => p,
        None => {
            return None;
        },
    };
    let (mval, p2) = match read_nat(s, n, p1) {
        Some(x) => x,
        None => {
            return None;
        },
    };
    let p3 = match expect_lit(s, n, p2, ";") {
        Some(p) => p,
        None => {
            return None;
        },
    };
    let m = match mval {
        Some(m) => m,
        None => {
            // The announced description length does not even fit in usize,
            // so it certainly exceeds what remains of the input.
            proof {
                assert(s@.skip(p3 as int).len() <= n);
            }
            return None;
        },
    };
    if m > n - p3 {
        proof {
            assert(s@.skip(p3 as int).len() == n - p3);
        }
        return None;
    }
    let p4 = p3 + m;
    let description = s.substring_char(p3, p4).to_owned();
    proof {
        assert(description@ =~= s@.skip(p3 as int).take(m as int));
        assert(s@.skip(p3 as int).skip(m as int) =~= s@.skip(p4 as int));
    }
    let p5 = match expect_lit(s, n, p4, ",completed=") {
        Some(p) => p,
        None => {
            return None;
        },
    };
    let (completed, p6) = match read_bool(s, n, p5) {
        Some(x) => x,
        None => {
            return None;
        },
    };
    let p7 = match expect_lit(s, n, p6, ",editing=") {
        Some(p) => p,
        None => {
            return None;
        },
    };
    let (editing, p8) = match read_bool(s, n, p7) {
        Some(x) => x,
        None => {
            return None;
        },
    };
    let p9 = match expect_lit(s, n, p8, ";") {
        Some(p) => p,
        None => {
            return None;
        },
    };
    let e = Entry { description, completed, editing };
    proof {
        assert(e@ =~= (EntryView {
            description: s@.skip(p3 as int).take(m as int),
            completed,
            editing,
        }));
    }
    Some((e, p9))
}

/// Decode a wire collection. `None` means the text is not an encoding of
/// any entry collection.
#[verifier::loop_isolation(false)]
pub fn decode_entries(s: &str) -> (r: Option<Vec<Entry>>)
    ensures
        match r {
            Some(v) => dec_entries(s@) == Some(views_of(v@)),
            None => dec_entries(s@) is None,
        },
{
    let n = s.unicode_len();
    proof {
        assert(s@.skip(0) =~= s@);
    }
    let (cval, p1) = match read_nat(s, n, 0) {
        Some(x) => x,
        None => {
            return None;
        },
    };
    let p2 = match expect_lit(s, n, p1, ";") {
        Some(p) => p,
        None => {
            return None;
        },
    };
    let count = match cval {
        Some(c) => c,
        None => {
            proof {
                assert(s@.skip(p2 as int).len() <= n);
                lemma_dec_list_too_long(s@.skip(p2 as int), (dec_nat(s@)->Some_0).0);
            }
            return None;
        },
    };
    let ghost list_pos = p2 as int;
    let mut v: Vec<Entry> = Vec::new();
    let mut i: usize = 0;
    let mut pos = p2;
    proof {
        assert(views_of(v@) =~= Seq::<EntryView>::empty());
    }
    while i < count
        invariant
            n as nat == s@.len(),
            0 <= list_pos <= pos as int,
            pos <= n,
            i <= count,
            dec_list(s@.skip(list_pos), i as nat) == Some((views_of(v@), s@.skip(pos as int))),
        decreases count - i,
    {
        match read_entry(s, n, pos) {
            Some((e, npos)) => {
                let ghost prev = v@;
                v.push(e);
                proof {
                    lemma_dec_list_split(s@.skip(list_pos), i as nat, 1);
                    assert(i as nat + 1 == (i + 1) as nat);
                    assert(dec_list(s@.skip(npos as int), 0) == Some(
                        (Seq::<EntryView>::empty(), s@.skip(npos as int)),
                    ));
                    assert(seq![e@] + Seq::<EntryView>::empty() =~= seq![e@]);
                    assert(dec_list(s@.skip(pos as int), 1) == Some(
                        (seq![e@], s@.skip(npos as int)),
                    ));
                    assert(v@ == prev.push(e));
                    assert(views_of(prev).len() == prev.len());
                    assert(views_of(prev) + seq![e@] =~= views_of(v@));
                }
                pos = npos;
                i = i + 1;
            },
            None => {
                proof {
                    lemma_dec_list_split(s@.skip(list_pos), i as nat, (count - i) as nat);
                    assert(i as nat + (count - i) as nat == count as nat);
                    assert(dec_list(s@.skip(pos as int), (count - i) as nat) is None);
                    assert(dec_list(s@.skip(list_pos), count as nat) is None);
                    assert(dec_nat(s@) is Some);
                    let parsed = dec_nat(s@)->Some_0;
                    assert(parsed.0 == count as nat);
                    assert(parsed.1 == s@.skip(p1 as int));
                    assert(dec_lit(s@.skip(p1 as int), ";"@) == Some(s@.skip(p2 as int)));
                    assert(dec_entries(s@) is None);
                }
                return None;
            },
        }
    }
    proof {
        assert(dec_nat(s@) is Some);
        let parsed = dec_nat(s@)->Some_0;
        assert(parsed.0 == count as nat);
        assert(parsed.1 == s@.skip(p1 as int));
        assert(dec_lit(s@.skip(p1 as int), ";"@) == Some(s@.skip(p2 as int)));
        assert(dec_list(s@.skip(p2 as int), count as nat) == Some(
            (views_of(v@), s@.skip(pos as int)),
        ));
    }
    if pos < n {
        proof {
            assert(s@.skip(pos as int).len() > 0);
        }
        return None;
    }
    proof {
        assert(s@.skip(pos as int).len() == 0);
    }
    Some(v)
}

} // verus!
