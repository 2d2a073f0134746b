//! Facts about decoding as a whole, proved from the grammar.

use crate::metrics::{
    fields, line_value, lines_of, payload_value, result_view, unit_rate, MsgView,
    ParseMessageError, StatKind, StatMsg,
};
use crate::wire::{
    at_most_one, decimal_parts, decimal_value, digit_value, exp_mark_at,
    exponent_of, fit_len, int_value, is_rate_numeral, lemma_cut_digits, lemma_decimal_nonneg,
    lemma_fit_len_bounds, lemma_pow10_add, lemma_pow10_grows, lemma_significand_digits, nonempty_only, pieces, pow10,
    rate_exponent, rate_parts, sign_len, significand, tokens,
};
use vstd::prelude::*;

verus! {

/// Text without either separator is one piece.
pub proof fn lemma_pieces_plain(s: Seq<char>, a: char, b: char)
    requires
        !s.contains(a),
        !s.contains(b),
    ensures
        pieces(s, a, b) == seq![s],
    decreases s.len(),
{
    if s.len() > 0 {
        let u = s.drop_last();
        assert forall|c: char| (c == a || c == b) implies !u.contains(c) by {
            if u.contains(c) {
                let i = choose|i: int| 0 <= i < u.len() && u[i] == c;
                assert(s[i] == c);
            }
        }
        lemma_pieces_plain(u, a, b);
        assert(s[s.len() - 1] == s.last());
        assert(u.push(s.last()) =~= s);
        assert(seq![u].update(0, u.push(s.last())) =~= seq![s]);
    } else {
        assert(s =~= Seq::<char>::empty());
    }
}

/// A non-empty text without either separator is one token.
pub proof fn lemma_tokens_plain(s: Seq<char>, a: char, b: char)
    requires
        s.len() > 0,
        !s.contains(a),
        !s.contains(b),
    ensures
        tokens(s, a, b) == seq![s],
{
    lemma_pieces_plain(s, a, b);
    let p = seq![s];
    assert(p.drop_last() =~= Seq::<Seq<char>>::empty());
    assert(p.last() == s);
    assert(nonempty_only(p.drop_last()) == Seq::<Seq<char>>::empty());
    assert(nonempty_only(p) =~= seq![s]);
}

/// A line holds no newline. A payload of one well-formed line decodes to
/// that line's measurement, and never to a batch.
pub proof fn law_single_line(s: Seq<char>)
    requires
        !s.contains('\n'),
        line_value(s) is Some,
    ensures
        payload_value(s) == line_value(s),
        !(payload_value(s)->0 is Bat),
{
    if s.len() == 0 {
        assert(pieces(s, ':', '|') =~= seq![Seq::<char>::empty()]);
        let p = pieces(s, ':', '|');
        assert(p.drop_last() =~= Seq::<Seq<char>>::empty());
        assert(p.last().len() == 0);
        assert(nonempty_only(p) == nonempty_only(p.drop_last()));
        assert(fields(s).len() == 0);
    }
    lemma_tokens_plain(s, '\n', '\n');
    assert(lines_of(s) == seq![s]);
}

/// A bare metric name counts one: as a line it decodes as `name:1|c` does.
pub proof fn law_bare_name_line(name: Seq<char>)
    requires
        name.len() > 0,
        !name.contains(':'),
        !name.contains('|'),
    ensures
        line_value(name) == line_value(name + seq![':', '1', '|', 'c']),
        line_value(name) == Some(MsgView::Inc(StatKind::Counter, name, 1, unit_rate())),
{
    let one = seq!['1'];
    let tag = seq!['c'];
    let full = name + seq![':', '1', '|', 'c'];
    // The fields of the bare name.
    lemma_tokens_plain(name, ':', '|');
    // The pieces of the full line, one character at a time.
    let s1 = name + seq![':'];
    let s2 = name + seq![':', '1'];
    let s3 = name + seq![':', '1', '|'];
    lemma_pieces_plain(name, ':', '|');
    assert(s1.drop_last() =~= name);
    assert(s2.drop_last() =~= s1);
    assert(s3.drop_last() =~= s2);
    assert(full.drop_last() =~= s3);
    let e = Seq::<char>::empty();
    assert(pieces(s1, ':', '|') == seq![name, e]);
    assert(pieces(s2, ':', '|') =~= seq![name, one]);
    assert(pieces(s3, ':', '|') =~= seq![name, one, e]);
    let p = pieces(full, ':', '|');
    assert(p =~= seq![name, one, tag]);
    assert(p.drop_last() =~= seq![name, one]);
    assert(p.drop_last().drop_last() =~= seq![name]);
    assert(seq![name].drop_last() =~= Seq::<Seq<char>>::empty());
    assert(p.last() == tag);
    assert(p.drop_last().last() == one);
    assert(p.drop_last().drop_last().last() == name);
    assert(nonempty_only(p.drop_last().drop_last().drop_last()) == Seq::<Seq<char>>::empty());
    assert(nonempty_only(p.drop_last().drop_last()) =~= seq![name]);
    assert(nonempty_only(p.drop_last()) =~= seq![name, one]);
    assert(fields(full) =~= seq![name, one, tag]);
    // The value field reads as one.
    assert(sign_len(one) == 0);
    assert(one.skip(0) =~= one);
    assert(one.drop_last() =~= e);
    assert(digit_value('1') == 1);
    assert(one.last() == '1');
    assert(decimal_value(e) == 0);
    assert(decimal_value(one) == 1);
    assert(int_value(one) == Some(1i64));
}

/// A bare metric name counts one: as a payload it decodes as `name:1|c`
/// does.
pub proof fn law_bare_name(name: Seq<char>)
    requires
        name.len() > 0,
        !name.contains(':'),
        !name.contains('|'),
        !name.contains('\n'),
    ensures
        payload_value(name) == payload_value(name + seq![':', '1', '|', 'c']),
        payload_value(name) == Some(MsgView::Inc(StatKind::Counter, name, 1, unit_rate())),
{
    let full = name + seq![':', '1', '|', 'c'];
    law_bare_name_line(name);
    law_single_line(name);
    assert(!full.contains('\n')) by {
        if full.contains('\n') {
            let i = choose|i: int| 0 <= i < full.len() && full[i] == '\n';
            if i < name.len() {
                assert(name[i] == '\n');
            }
        }
    }
    law_single_line(full);
}

/// Decoding depends on the text alone: two decodings of equal texts agree.
pub proof fn law_parse_deterministic(
    s: &str,
    t: &str,
    r1: Result<StatMsg, ParseMessageError>,
    r2: Result<StatMsg, ParseMessageError>,
)
    requires
        s@ == t@,
        result_view(r1) == payload_value(s@),
        result_view(r2) == payload_value(t@),
    ensures
        result_view(r1) == result_view(r2),
        r1 is Ok <==> r2 is Ok,
{
}

/// Every rate numeral whose value is at most one is read: however many
/// digits it has, it never gives `None`. The one further condition is a
/// machine limit: the number of decimal places the value needs fits in
/// `usize`.
pub proof fn law_rate_in_range(t: Seq<char>)
    requires
        is_rate_numeral(t),
        at_most_one(t),
        -rate_exponent(t) <= usize::MAX,
        t.len() <= usize::MAX,
    ensures
        rate_parts(t) is Some,
{
    let b = t.skip(if t.len() > 0 && t[0] == '+' { 1 } else { 0 });
    let mt = b.take(exp_mark_at(b));
    let d = significand(mt);
    let l = fit_len(d);
    let x = exponent_of(b)->0;
    let e = rate_exponent(t);
    let dp = decimal_parts(mt)->0;
    let cut = d.len() - l;
    lemma_fit_len_bounds(d);
    lemma_significand_digits(mt);
    let m0 = decimal_value(d.take(l));
    lemma_decimal_nonneg(d.take(l));
    crate::wire::lemma_lead_digits_are_digits(mt);
    crate::wire::lemma_trim_zeros_prefix(crate::wire::fraction_digits(mt));
    assert(d.len() <= mt.len());
    crate::wire::lemma_exp_mark_bounds(b);
    assert(mt.len() <= t.len());
    assert(dp.0 as int == m0);
    assert(dp.1 as int == crate::wire::trim_zeros(crate::wire::fraction_digits(mt)).len());
    assert(dp.2 as int == cut);
    lemma_decimal_nonneg(d);
    let sr = dp.1 as int - dp.2 as int - x;
    assert(sr == -e - cut);
    if m0 != 0 && sr < 0 {
        lemma_cut_digits(d, l);
        let pc = pow10(cut as nat);
        let big_d = decimal_value(d);
        if e >= 0 {
            lemma_pow10_add(cut as nat, e as nat);
            let pe = pow10(e as nat);
            lemma_pow10_grows(0, e as nat);
            assert(m0 * (pc * pe) <= 1) by (nonlinear_arith)
                requires
                    m0 * pc <= big_d,
                    big_d * pe <= 1,
                    pe >= 1,
                    m0 >= 0,
            ;
            assert(((-sr) as nat) == cut + e);
        } else {
            let k = (cut + e) as nat;
            lemma_pow10_add(k, (-e) as nat);
            assert(k + (-e) == cut);
            let pk = pow10(k);
            let pn = pow10((-e) as nat);
            lemma_pow10_grows(0, (-e) as nat);
            assert(m0 * pk <= 1) by (nonlinear_arith)
                requires
                    m0 * pc <= big_d,
                    big_d <= pn,
                    pc == pk * pn,
                    pn >= 1,
                    m0 >= 0,
            ;
            assert(((-sr) as nat) == k);
        }
    }
}

} // verus!
