//! Laws of the grammar, stated and proved once for all inputs: exactness of
//! identifier parsing, and the shape invariants of the flattened chains.

use vstd::prelude::*;

use crate::ast::{NumForm, SpecNode, SpecNum};
use crate::grammar::{
    digits_len, form_base, ident_len, is_base_digit, is_digit, is_ident_byte, is_ident_start,
    number_at, rem, sn_range, sp_addition, sp_addition_more, sp_array, sp_call_after, sp_dict,
    sp_function_call, sp_identifier, sp_kvpair, sp_kwarglist, sp_kwarglist_more,
    sp_member_access, sp_member_more, sp_multiline_string, sp_raw_value, sp_string, sp_value,
    ws_len, DIGIT_0, DOT, LOWER_O, LOWER_X, MINUS,
};
use crate::grammar::{sp_arglist, sp_arglist_more, sp_assignment, sp_block_more, sp_code_block,
    sp_instruction};
use crate::utils::LRange;

verus! {

/// Whether `s` is a valid identifier: `[A-Za-z_][A-Za-z0-9_]*`.
pub open spec fn is_ident_seq(s: Seq<u8>) -> bool {
    &&& s.len() >= 1
    &&& is_ident_start(s[0])
    &&& forall|i: int| 1 <= i < s.len() ==> is_ident_byte(#[trigger] s[i])
}

proof fn lemma_ident_len_all(s: Seq<u8>, i: int)
    requires
        1 <= i <= s.len(),
        forall|j: int| 1 <= j < s.len() ==> is_ident_byte(#[trigger] s[j]),
    ensures
        ident_len(s, i) == s.len() - i,
    decreases s.len() - i,
{
    if i < s.len() {
        lemma_ident_len_all(s, i + 1);
    }
}

/// Parsing a buffer holding exactly a valid identifier as an identifier
/// succeeds, consumes the whole buffer, and yields that very text with the
/// range covering it all.
pub proof fn lemma_identifier_exact(s: Seq<u8>)
    requires
        is_ident_seq(s),
    ensures
        sp_identifier(s, 0) == Some(
            (
                SpecNode::Identifier::<int> {
                    text: s,
                    range: LRange { start: 0, end: s.len() as int },
                },
                s.len() as nat,
            ),
        ),
{
    reveal(crate::grammar::sp_identifier);
    assert(ws_len(s, 0) == 0);
    lemma_ident_len_all(s, 1);
    assert(s.subrange(0, s.len() as int) =~= s);
}

/// Parsing a buffer that starts with a digit as an identifier fails.
pub proof fn lemma_identifier_rejects_digit(s: Seq<u8>)
    requires
        s.len() >= 1,
        is_digit(s[0]),
    ensures
        sp_identifier(s, 0) is None,
{
    reveal(crate::grammar::sp_identifier);
    assert(ws_len(s, 0) == 0);
}

/// A raw value is never an `Addition` node: the chain rule's operands stay
/// flat.
pub proof fn lemma_raw_value_not_addition(s: Seq<u8>, pos: int)
    ensures
        sp_raw_value(s, pos) matches Some((n, c)) ==> !(n is Addition),
{
    reveal(crate::grammar::sp_raw_value);
    reveal(crate::grammar::sp_string);
    reveal(crate::grammar::sp_multiline_string);
    reveal(crate::grammar::sp_function_call);
    reveal(crate::grammar::sp_call_after);
    reveal(crate::grammar::sp_member_access);
    reveal(crate::grammar::sp_identifier);
    reveal(crate::grammar::sp_array);
    reveal(crate::grammar::sp_dict);
}

proof fn lemma_addition_more_flat(s: Seq<u8>, pos: int)
    ensures
        forall|k: int|
            0 <= k < sp_addition_more(s, pos).0.len() ==> !(#[trigger] sp_addition_more(
                s,
                pos,
            ).0[k] is Addition),
    decreases rem(s, pos), 1int,
{
    reveal(crate::grammar::sp_addition_more);
    reveal(crate::grammar::sp_raw_value);
    let w = ws_len(s, pos);
    if pos + w < s.len() && s[pos + w] == crate::grammar::PLUS {
        match sp_raw_value(s, pos + w + 1) {
            Some((v, c)) => {
                lemma_raw_value_not_addition(s, pos + w + 1);
                lemma_addition_more_flat(s, pos + w + 1 + c);
                let rest = sp_addition_more(s, pos + w + 1 + c).0;
                assert forall|k: int|
                    0 <= k < sp_addition_more(s, pos).0.len() implies !(
                #[trigger] sp_addition_more(s, pos).0[k] is Addition) by {
                    if k > 0 {
                        assert(sp_addition_more(s, pos).0[k] == rest[k - 1]);
                    }
                }
            },
            None => {},
        }
    }
}

/// Flattening: an addition chain always holds two or more operands, in
/// source order, and none of them is itself an `Addition` — a nested pair of
/// two-operand additions is never produced.
pub proof fn lemma_addition_flat(s: Seq<u8>, pos: int)
    ensures
        sp_addition(s, pos) matches Some((n, c)) ==> (n matches SpecNode::Addition {
            operands,
            ..
        } && operands.len() >= 2 && forall|k: int|
            0 <= k < operands.len() ==> !(#[trigger] operands[k] is Addition)),
{
    reveal(crate::grammar::sp_addition);
    reveal(crate::grammar::sp_raw_value);
    reveal(crate::grammar::sp_addition_more);
    match sp_raw_value(s, pos) {
        Some((v1, c1)) => {
            lemma_raw_value_not_addition(s, pos);
            lemma_addition_more_flat(s, pos + c1);
            let rest = sp_addition_more(s, pos + c1).0;
            if rest.len() > 0 {
                let operands = seq![v1] + rest;
                assert forall|k: int| 0 <= k < operands.len() implies !(
                #[trigger] operands[k] is Addition) by {
                    if k > 0 {
                        assert(operands[k] == rest[k - 1]);
                    }
                }
            }
        },
        None => {},
    }
}

proof fn lemma_member_more_idents(s: Seq<u8>, pos: int)
    ensures
        forall|k: int|
            0 <= k < sp_member_more(s, pos).0.len() ==> (#[trigger] sp_member_more(
                s,
                pos,
            ).0[k] is Identifier),
    decreases rem(s, pos), 1int,
{
    reveal(crate::grammar::sp_member_more);
    reveal(crate::grammar::sp_identifier);
    let w = ws_len(s, pos);
    if pos + w < s.len() && s[pos + w] == crate::grammar::DOT {
        match sp_identifier(s, pos + w + 1) {
            Some((id, c)) => {
                lemma_member_more_idents(s, pos + w + 1 + c);
                let rest = sp_member_more(s, pos + w + 1 + c).0;
                assert forall|k: int|
                    0 <= k < sp_member_more(s, pos).0.len() implies (#[trigger] sp_member_more(
                    s,
                    pos,
                ).0[k] is Identifier) by {
                    if k > 0 {
                        assert(sp_member_more(s, pos).0[k] == rest[k - 1]);
                    }
                }
            },
            None => {},
        }
    }
}

/// A member-access chain always holds two or more parts, each an
/// `Identifier`: a single identifier never produces a one-element chain.
pub proof fn lemma_member_access_shape(s: Seq<u8>, pos: int)
    ensures
        sp_member_access(s, pos) matches Some((n, c)) ==> (n matches SpecNode::MemberAccess {
            parts,
            ..
        } && parts.len() >= 2 && forall|k: int|
            0 <= k < parts.len() ==> (#[trigger] parts[k] is Identifier)),
{
    reveal(crate::grammar::sp_member_access);
    reveal(crate::grammar::sp_identifier);
    reveal(crate::grammar::sp_member_more);
    match sp_identifier(s, pos) {
        Some((id1, c1)) => {
            lemma_member_more_idents(s, pos + c1);
            let rest = sp_member_more(s, pos + c1).0;
            if rest.len() > 0 {
                let parts = seq![id1] + rest;
                assert forall|k: int| 0 <= k < parts.len() implies (
                #[trigger] parts[k] is Identifier) by {
                    if k > 0 {
                        assert(parts[k] == rest[k - 1]);
                    }
                }
            }
        },
        None => {},
    }
}


/// A well-formed number literal: at least one integer digit, every digit
/// valid for the form's base, and a fractional part exactly when the form is
/// a float.
pub open spec fn wf_num(n: SpecNum) -> bool {
    &&& n.int_digits.len() >= 1
    &&& forall|i: int|
        0 <= i < n.int_digits.len() ==> is_base_digit(
            #[trigger] n.int_digits[i],
            form_base(n.form),
        )
    &&& if n.form is Float {
        n.frac_digits.len() >= 1 && forall|i: int|
            0 <= i < n.frac_digits.len() ==> is_base_digit(#[trigger] n.frac_digits[i], 10)
    } else {
        n.frac_digits.len() == 0
    }
}

/// The canonical text of a number literal: the sign, the form's prefix, and
/// the digits (with a dot before the fractional digits of a float).
pub open spec fn render_num(n: SpecNum) -> Seq<u8> {
    let sign: Seq<u8> = if n.neg {
        seq![MINUS]
    } else {
        Seq::empty()
    };
    match n.form {
        NumForm::Decimal => sign + n.int_digits,
        NumForm::Octal => sign + seq![DIGIT_0, LOWER_O] + n.int_digits,
        NumForm::Hex => sign + seq![DIGIT_0, LOWER_X] + n.int_digits,
        NumForm::Float => sign + n.int_digits + seq![DOT] + n.frac_digits,
    }
}

proof fn lemma_digits_len_exact(s: Seq<u8>, q: int, e: int, base: nat)
    requires
        0 <= q <= e <= s.len(),
        forall|i: int| q <= i < e ==> is_base_digit(#[trigger] s[i], base),
        e == s.len() || !is_base_digit(s[e], base),
    ensures
        digits_len(s, q, base) == e - q,
    decreases e - q,
{
    if q < e {
        lemma_digits_len_exact(s, q + 1, e, base);
    }
}

/// Round trip: rendering any well-formed number literal and parsing the
/// result as a number yields that literal back, having consumed the whole
/// text — so the value recovered from a literal is exactly the value the
/// text denotes, for every form and either sign.
pub proof fn lemma_number_round_trip(n: SpecNum)
    requires
        wf_num(n),
    ensures
        number_at(render_num(n), 0) == Some((n, render_num(n).len() as nat)),
{
    let s = render_num(n);
    let sgn: int = if n.neg {
        1
    } else {
        0
    };
    match n.form {
        NumForm::Decimal => {
            lemma_digits_len_exact(s, sgn, s.len() as int, 10);
            assert(s.subrange(sgn, sgn + n.int_digits.len()) =~= n.int_digits);
            assert(Seq::<u8>::empty() =~= n.frac_digits);
        },
        NumForm::Octal => {
            assert(digits_len(s, sgn, 10) == 1) by {
                lemma_digits_len_exact(s, sgn, sgn + 1, 10);
            }
            lemma_digits_len_exact(s, sgn + 2, s.len() as int, 8);
            assert(s.subrange(sgn + 2, sgn + 2 + n.int_digits.len()) =~= n.int_digits);
            assert(Seq::<u8>::empty() =~= n.frac_digits);
        },
        NumForm::Hex => {
            assert(digits_len(s, sgn, 10) == 1) by {
                lemma_digits_len_exact(s, sgn, sgn + 1, 10);
            }
            lemma_digits_len_exact(s, sgn + 2, s.len() as int, 16);
            assert(s.subrange(sgn + 2, sgn + 2 + n.int_digits.len()) =~= n.int_digits);
            assert(Seq::<u8>::empty() =~= n.frac_digits);
        },
        NumForm::Float => {
            let ilen = n.int_digits.len() as int;
            lemma_digits_len_exact(s, sgn, sgn + ilen, 10);
            lemma_digits_len_exact(s, sgn + ilen + 1, s.len() as int, 10);
            assert(s.subrange(sgn, sgn + ilen) =~= n.int_digits);
            assert(s.subrange(sgn + ilen + 1, s.len() as int) =~= n.frac_digits);
        },
    }
}


proof fn lemma_ws_len_le(s: Seq<u8>, pos: int)
    requires
        0 <= pos <= s.len(),
    ensures
        pos + ws_len(s, pos) <= s.len(),
    decreases s.len() - pos,
{
    if pos < s.len() && crate::grammar::is_ws_byte(s[pos]) {
        lemma_ws_len_le(s, pos + 1);
    }
}

proof fn lemma_ident_len_le(s: Seq<u8>, pos: int)
    requires
        0 <= pos <= s.len(),
    ensures
        pos + ident_len(s, pos) <= s.len(),
    decreases s.len() - pos,
{
    if pos < s.len() && is_ident_byte(s[pos]) {
        lemma_ident_len_le(s, pos + 1);
    }
}

proof fn lemma_digits_len_le(s: Seq<u8>, pos: int, base: nat)
    requires
        0 <= pos <= s.len(),
    ensures
        pos + digits_len(s, pos, base) <= s.len(),
    decreases s.len() - pos,
{
    if pos < s.len() && is_base_digit(s[pos], base) {
        lemma_digits_len_le(s, pos + 1, base);
    }
}

proof fn lemma_str_body_le(s: Seq<u8>, pos: int, multiline: bool)
    requires
        0 <= pos,
    ensures
        crate::grammar::str_body(s, pos, multiline) matches Some((t, nn)) ==> pos + nn < s.len(),
    decreases crate::grammar::rem(s, pos),
{
    if pos < s.len() && s[pos] != crate::grammar::QUOTE {
        if s[pos] == crate::grammar::BACKSLASH {
            if pos + 1 < s.len() && crate::grammar::is_escape_code(s[pos + 1]) {
                lemma_str_body_le(s, pos + 2, multiline);
            }
        } else if !((s[pos] == crate::utils::NL || s[pos] == crate::grammar::CR) && !multiline) {
            lemma_str_body_le(s, pos + 1, multiline);
        }
    }
}

proof fn lemma_number_at_le(s: Seq<u8>, p: int)
    requires
        0 <= p <= s.len(),
    ensures
        number_at(s, p) matches Some((num, c)) ==> p + c <= s.len(),
{
    let sgn: nat = if 0 <= p < s.len() && s[p] == MINUS {
        1
    } else {
        0
    };
    let q = p + sgn;
    lemma_digits_len_le(s, q, 10);
    let d1 = digits_len(s, q, 10);
    if q + d1 < s.len() {
        lemma_digits_len_le(s, q + d1 + 1, 10);
    }
    if q + 1 < s.len() {
        lemma_digits_len_le(s, q + 2, 8);
        lemma_digits_len_le(s, q + 2, 16);
    }
}

/// What holds of every rule that returns a node: it consumes no more than
/// the buffer, and every range of the returned tree is ordered, within the
/// buffer, and within the consumed region.
pub open spec fn rule_wf(s: Seq<u8>, pos: int, r: Option<(SpecNode<int>, nat)>) -> bool {
    r matches Some((n, c)) ==> {
        &&& pos + c <= s.len()
        &&& crate::resolve::ranges_ok(n, s.len() as int)
        &&& pos <= sn_range(n).start
        &&& sn_range(n).end <= pos + c
    }
}

pub open spec fn total_wf(s: Seq<u8>, pos: int, r: (SpecNode<int>, nat)) -> bool {
    &&& pos + r.1 <= s.len()
    &&& crate::resolve::ranges_ok(r.0, s.len() as int)
    &&& pos <= sn_range(r.0).start
    &&& sn_range(r.0).end <= pos + r.1
}

pub open spec fn list_wf(s: Seq<u8>, pos: int, r: (Seq<SpecNode<int>>, nat)) -> bool {
    &&& pos + r.1 <= s.len()
    &&& crate::resolve::all_ranges_ok(r.0, s.len() as int)
}

proof fn lemma_cons_ranges_ok(v: Seq<SpecNode<int>>, head: SpecNode<int>, tail: Seq<SpecNode<int>>, len: int)
    requires
        v == seq![head] + tail,
        crate::resolve::ranges_ok(head, len),
        crate::resolve::all_ranges_ok(tail, len),
    ensures
        crate::resolve::all_ranges_ok(v, len),
{
    assert(v[0] == head);
    assert(v.subrange(1, v.len() as int) =~= tail);
}

pub proof fn wfr_identifier(s: Seq<u8>, pos: int)
    requires
        0 <= pos <= s.len(),
    ensures
        rule_wf(s, pos, sp_identifier(s, pos)),
    decreases rem(s, pos), 0int,
{
    reveal(crate::grammar::sp_identifier);
    lemma_ws_len_le(s, pos);
    let p = pos + ws_len(s, pos);
    if p < s.len() {
        lemma_ident_len_le(s, p + 1);
    }
}

pub proof fn wfr_string(s: Seq<u8>, pos: int)
    requires
        0 <= pos <= s.len(),
    ensures
        rule_wf(s, pos, sp_string(s, pos)),
    decreases rem(s, pos), 1int,
{
    reveal(crate::grammar::sp_string);
    reveal(crate::grammar::sp_multiline_string);
    lemma_ws_len_le(s, pos);
    let p = pos + ws_len(s, pos);
    lemma_str_body_le(s, p + 3, true);
    lemma_str_body_le(s, p + 1, false);
}

pub proof fn wfr_member_more(s: Seq<u8>, pos: int)
    requires
        0 <= pos <= s.len(),
    ensures
        list_wf(s, pos, sp_member_more(s, pos)),
    decreases rem(s, pos), 0int,
{
    reveal(crate::grammar::sp_member_more);
    reveal(crate::grammar::sp_identifier);
    lemma_ws_len_le(s, pos);
    let w = ws_len(s, pos);
    if pos + w < s.len() && s[pos + w] == crate::grammar::DOT {
        wfr_identifier(s, pos + w + 1);
        match sp_identifier(s, pos + w + 1) {
            Some((id, c)) => {
                wfr_member_more(s, pos + w + 1 + c);
                let (rest, c2) = sp_member_more(s, pos + w + 1 + c);
                lemma_cons_ranges_ok(seq![id] + rest, id, rest, s.len() as int);
            },
            None => {},
        }
    }
}

pub proof fn wfr_member_access(s: Seq<u8>, pos: int)
    requires
        0 <= pos <= s.len(),
    ensures
        rule_wf(s, pos, sp_member_access(s, pos)),
    decreases rem(s, pos), 2int,
{
    reveal(crate::grammar::sp_member_access);
    reveal(crate::grammar::sp_identifier);
    reveal(crate::grammar::sp_member_more);
    wfr_identifier(s, pos);
    match sp_identifier(s, pos) {
        Some((id1, c1)) => {
            wfr_member_more(s, pos + c1);
            let (rest, c2) = sp_member_more(s, pos + c1);
            if rest.len() > 0 {
                lemma_cons_ranges_ok(seq![id1] + rest, id1, rest, s.len() as int);
            }
        },
        None => {},
    }
}

pub proof fn wfr_raw_value(s: Seq<u8>, pos: int)
    requires
        0 <= pos <= s.len(),
    ensures
        rule_wf(s, pos, sp_raw_value(s, pos)),
    decreases rem(s, pos), 4int,
{
    reveal(crate::grammar::sp_raw_value);
    reveal(crate::grammar::sp_string);
    reveal(crate::grammar::sp_function_call);
    reveal(crate::grammar::sp_member_access);
    reveal(crate::grammar::sp_identifier);
    reveal(crate::grammar::sp_array);
    reveal(crate::grammar::sp_dict);
    wfr_string(s, pos);
    wfr_function_call(s, pos);
    wfr_member_access(s, pos);
    wfr_identifier(s, pos);
    wfr_array(s, pos);
    wfr_dict(s, pos);
    lemma_ws_len_le(s, pos);
    lemma_number_at_le(s, pos + ws_len(s, pos));
}

pub proof fn wfr_addition_more(s: Seq<u8>, pos: int)
    requires
        0 <= pos <= s.len(),
    ensures
        list_wf(s, pos, sp_addition_more(s, pos)),
    decreases rem(s, pos), 0int,
{
    reveal(crate::grammar::sp_addition_more);
    reveal(crate::grammar::sp_raw_value);
    lemma_ws_len_le(s, pos);
    let w = ws_len(s, pos);
    if pos + w < s.len() && s[pos + w] == crate::grammar::PLUS {
        wfr_raw_value(s, pos + w + 1);
        match sp_raw_value(s, pos + w + 1) {
            Some((v, c)) => {
                wfr_addition_more(s, pos + w + 1 + c);
                let (rest, c2) = sp_addition_more(s, pos + w + 1 + c);
                lemma_cons_ranges_ok(seq![v] + rest, v, rest, s.len() as int);
            },
            None => {},
        }
    }
}

pub proof fn wfr_addition(s: Seq<u8>, pos: int)
    requires
        0 <= pos <= s.len(),
    ensures
        rule_wf(s, pos, sp_addition(s, pos)),
    decreases rem(s, pos), 5int,
{
    reveal(crate::grammar::sp_addition);
    reveal(crate::grammar::sp_raw_value);
    reveal(crate::grammar::sp_addition_more);
    wfr_raw_value(s, pos);
    match sp_raw_value(s, pos) {
        Some((v1, c1)) => {
            wfr_addition_more(s, pos + c1);
            let (rest, c2) = sp_addition_more(s, pos + c1);
            if rest.len() > 0 {
                lemma_cons_ranges_ok(seq![v1] + rest, v1, rest, s.len() as int);
            }
        },
        None => {},
    }
}

pub proof fn wfr_value(s: Seq<u8>, pos: int)
    requires
        0 <= pos <= s.len(),
    ensures
        rule_wf(s, pos, sp_value(s, pos)),
    decreases rem(s, pos), 6int,
{
    reveal(crate::grammar::sp_value);
    reveal(crate::grammar::sp_addition);
    reveal(crate::grammar::sp_raw_value);
    wfr_addition(s, pos);
    wfr_raw_value(s, pos);
}

pub proof fn wfr_arglist_more(s: Seq<u8>, pos: int)
    requires
        0 <= pos <= s.len(),
    ensures
        list_wf(s, pos, sp_arglist_more(s, pos)),
    decreases rem(s, pos), 0int,
{
    reveal(crate::grammar::sp_arglist_more);
    reveal(crate::grammar::sp_value);
    lemma_ws_len_le(s, pos);
    let w = ws_len(s, pos);
    if pos + w < s.len() && s[pos + w] == crate::grammar::COMMA {
        wfr_value(s, pos + w + 1);
        match sp_value(s, pos + w + 1) {
            Some((v, c)) => {
                wfr_arglist_more(s, pos + w + 1 + c);
                let (rest, c2) = sp_arglist_more(s, pos + w + 1 + c);
                lemma_cons_ranges_ok(seq![v] + rest, v, rest, s.len() as int);
            },
            None => {},
        }
    }
}

pub proof fn wfr_arglist(s: Seq<u8>, pos: int)
    requires
        0 <= pos <= s.len(),
    ensures
        total_wf(s, pos, sp_arglist(s, pos)),
    decreases rem(s, pos), 7int,
{
    reveal(crate::grammar::sp_arglist);
    reveal(crate::grammar::sp_value);
    reveal(crate::grammar::sp_arglist_more);
    wfr_value(s, pos);
    assert(crate::resolve::all_ranges_ok(Seq::<SpecNode<int>>::empty(), s.len() as int));
    match sp_value(s, pos) {
        Some((v, c)) => {
            if !crate::grammar::colon_follows(s, pos + c) {
                wfr_arglist_more(s, pos + c);
                let (rest, c2) = sp_arglist_more(s, pos + c);
                lemma_cons_ranges_ok(seq![v] + rest, v, rest, s.len() as int);
            }
        },
        None => {},
    }
}

pub proof fn wfr_kvpair(s: Seq<u8>, pos: int)
    requires
        0 <= pos <= s.len(),
    ensures
        rule_wf(s, pos, sp_kvpair(s, pos)),
    decreases rem(s, pos), 5int,
{
    reveal(crate::grammar::sp_kvpair);
    reveal(crate::grammar::sp_identifier);
    reveal(crate::grammar::sp_value);
    wfr_identifier(s, pos);
    match sp_identifier(s, pos) {
        Some((k, c1)) => {
            lemma_ws_len_le(s, pos + c1);
            let w = ws_len(s, pos + c1);
            if pos + c1 + w < s.len() && s[pos + c1 + w] == crate::grammar::COLON {
                wfr_value(s, pos + c1 + w + 1);
            }
        },
        None => {},
    }
}

pub proof fn wfr_kwarglist_more(s: Seq<u8>, pos: int)
    requires
        0 <= pos <= s.len(),
    ensures
        list_wf(s, pos, sp_kwarglist_more(s, pos)),
    decreases rem(s, pos), 0int,
{
    reveal(crate::grammar::sp_kwarglist_more);
    reveal(crate::grammar::sp_kvpair);
    lemma_ws_len_le(s, pos);
    let w = ws_len(s, pos);
    if pos + w < s.len() && s[pos + w] == crate::grammar::COMMA {
        wfr_kvpair(s, pos + w + 1);
        match sp_kvpair(s, pos + w + 1) {
            Some((kv, c)) => {
                wfr_kwarglist_more(s, pos + w + 1 + c);
                let (rest, c2) = sp_kwarglist_more(s, pos + w + 1 + c);
                lemma_cons_ranges_ok(seq![kv] + rest, kv, rest, s.len() as int);
            },
            None => {},
        }
    }
}

pub proof fn wfr_kwarglist(s: Seq<u8>, pos: int)
    requires
        0 <= pos <= s.len(),
    ensures
        total_wf(s, pos, sp_kwarglist(s, pos)),
    decreases rem(s, pos), 7int,
{
    reveal(crate::grammar::sp_kwarglist);
    reveal(crate::grammar::sp_kvpair);
    reveal(crate::grammar::sp_kwarglist_more);
    wfr_kvpair(s, pos);
    assert(crate::resolve::all_ranges_ok(Seq::<SpecNode<int>>::empty(), s.len() as int));
    match sp_kvpair(s, pos) {
        Some((kv, c)) => {
            wfr_kwarglist_more(s, pos + c);
            let (rest, c2) = sp_kwarglist_more(s, pos + c);
            lemma_cons_ranges_ok(seq![kv] + rest, kv, rest, s.len() as int);
        },
        None => {},
    }
}

pub proof fn wfr_array(s: Seq<u8>, pos: int)
    requires
        0 <= pos <= s.len(),
    ensures
        rule_wf(s, pos, sp_array(s, pos)),
    decreases rem(s, pos), 1int,
{
    reveal(crate::grammar::sp_array);
    reveal(crate::grammar::sp_arglist);
    lemma_ws_len_le(s, pos);
    let p = pos + ws_len(s, pos);
    if p < s.len() && s[p] == crate::grammar::LBRACK {
        wfr_arglist(s, p + 1);
        let (args, c) = sp_arglist(s, p + 1);
        lemma_ws_len_le(s, p + 1 + c);
    }
}

pub proof fn wfr_dict(s: Seq<u8>, pos: int)
    requires
        0 <= pos <= s.len(),
    ensures
        rule_wf(s, pos, sp_dict(s, pos)),
    decreases rem(s, pos), 1int,
{
    reveal(crate::grammar::sp_dict);
    reveal(crate::grammar::sp_kwarglist);
    lemma_ws_len_le(s, pos);
    let p = pos + ws_len(s, pos);
    if p < s.len() && s[p] == crate::grammar::LBRACE {
        wfr_kwarglist(s, p + 1);
        let (kwargs, c) = sp_kwarglist(s, p + 1);
        lemma_ws_len_le(s, p + 1 + c);
    }
}

pub proof fn wfr_call_after(s: Seq<u8>, pos: int, callee: SpecNode<int>, c1: nat)
    requires
        0 <= pos,
        pos + c1 <= s.len(),
        crate::resolve::ranges_ok(callee, s.len() as int),
        pos <= sn_range(callee).start,
        sn_range(callee).end <= pos + c1,
    ensures
        rule_wf(s, pos, sp_call_after(s, pos, callee, c1)),
    decreases rem(s, pos), 2int,
{
    reveal(crate::grammar::sp_call_after);
    reveal(crate::grammar::sp_arglist);
    reveal(crate::grammar::sp_kwarglist);
    lemma_ws_len_le(s, pos + c1);
    let w = ws_len(s, pos + c1);
    let p = pos + c1 + w;
    if p < s.len() && s[p] == crate::grammar::LPAREN {
        wfr_arglist(s, p + 1);
        let (args, c2) = sp_arglist(s, p + 1);
        let p2 = p + 1 + c2;
        lemma_ws_len_le(s, p2);
        let w2 = ws_len(s, p2);
        if p2 + w2 < s.len() && s[p2 + w2] == crate::grammar::COMMA {
            wfr_kwarglist(s, p2 + w2 + 1);
        } else {
            assert(crate::resolve::ranges_ok(
                SpecNode::Empty::<int> { range: LRange { start: p2, end: p2 } },
                s.len() as int,
            ));
        }
        let (kwargs, c3) = sp_call_after_kw(s, p2, w2);
        assert(crate::resolve::ranges_ok(kwargs, s.len() as int));
        assert(p2 + c3 <= s.len());
        lemma_ws_len_le(s, p2 + c3);
    }
}

/// The keyword slot of a call, as [`sp_call_after`] computes it.
spec fn sp_call_after_kw(s: Seq<u8>, p2: int, w2: nat) -> (SpecNode<int>, nat) {
    if p2 + w2 < s.len() && s[p2 + w2] == crate::grammar::COMMA {
        let (kw, ck) = crate::grammar::sp_kwarglist(s, p2 + w2 + 1);
        (kw, (w2 + 1 + ck) as nat)
    } else {
        (SpecNode::Empty { range: LRange { start: p2, end: p2 } }, 0)
    }
}

pub proof fn wfr_function_call(s: Seq<u8>, pos: int)
    requires
        0 <= pos <= s.len(),
    ensures
        rule_wf(s, pos, sp_function_call(s, pos)),
    decreases rem(s, pos), 3int,
{
    reveal(crate::grammar::sp_function_call);
    reveal(crate::grammar::sp_member_access);
    reveal(crate::grammar::sp_identifier);
    reveal(crate::grammar::sp_call_after);
    wfr_member_access(s, pos);
    wfr_identifier(s, pos);
    let callee_r = match sp_member_access(s, pos) {
        Some(r) => Some(r),
        None => sp_identifier(s, pos),
    };
    match callee_r {
        Some((callee, c1)) => {
            wfr_call_after(s, pos, callee, c1);
        },
        None => {},
    }
}

pub proof fn wfr_assignment(s: Seq<u8>, pos: int)
    requires
        0 <= pos <= s.len(),
    ensures
        rule_wf(s, pos, sp_assignment(s, pos)),
    decreases rem(s, pos), 3int,
{
    reveal(crate::grammar::sp_assignment);
    reveal(crate::grammar::sp_member_access);
    reveal(crate::grammar::sp_identifier);
    reveal(crate::grammar::sp_value);
    wfr_member_access(s, pos);
    wfr_identifier(s, pos);
    let target_r = match sp_member_access(s, pos) {
        Some(r) => Some(r),
        None => sp_identifier(s, pos),
    };
    match target_r {
        Some((target, c1)) => {
            lemma_ws_len_le(s, pos + c1);
            let w = ws_len(s, pos + c1);
            let p = pos + c1 + w;
            if p < s.len() && s[p] == crate::grammar::EQUALS {
                wfr_value(s, p + 1);
            }
        },
        None => {},
    }
}

pub proof fn wfr_instruction(s: Seq<u8>, pos: int)
    requires
        0 <= pos <= s.len(),
    ensures
        rule_wf(s, pos, sp_instruction(s, pos)),
    decreases rem(s, pos), 8int,
{
    reveal(crate::grammar::sp_instruction);
    reveal(crate::grammar::sp_function_call);
    reveal(crate::grammar::sp_assignment);
    wfr_function_call(s, pos);
    wfr_assignment(s, pos);
}

pub proof fn wfr_block_more(s: Seq<u8>, pos: int)
    requires
        0 <= pos <= s.len(),
    ensures
        list_wf(s, pos, sp_block_more(s, pos)),
    decreases rem(s, pos), 1int,
{
    reveal(crate::grammar::sp_block_more);
    reveal(crate::grammar::sp_instruction);
    lemma_inline_ws_len_le(s, pos);
    let i1 = crate::grammar::inline_ws_len(s, pos);
    if pos + i1 < s.len() && s[pos + i1] == crate::utils::NL {
        lemma_ws_len_le(s, pos + i1 + 1);
        let w = ws_len(s, pos + i1 + 1);
        wfr_instruction(s, pos + i1 + 1 + w);
        match sp_instruction(s, pos + i1 + 1 + w) {
            Some((ins, c)) => {
                wfr_block_more(s, pos + i1 + 1 + w + c);
                let (rest, c2) = sp_block_more(s, pos + i1 + 1 + w + c);
                lemma_cons_ranges_ok(seq![ins] + rest, ins, rest, s.len() as int);
            },
            None => {},
        }
    }
}

proof fn lemma_inline_ws_len_le(s: Seq<u8>, pos: int)
    requires
        0 <= pos <= s.len(),
    ensures
        pos + crate::grammar::inline_ws_len(s, pos) <= s.len(),
    decreases s.len() - pos,
{
    if pos < s.len() && crate::grammar::is_inline_ws_byte(s[pos]) {
        lemma_inline_ws_len_le(s, pos + 1);
    }
}

pub proof fn wfr_code_block(s: Seq<u8>, pos: int)
    requires
        0 <= pos <= s.len(),
    ensures
        total_wf(s, pos, sp_code_block(s, pos)),
    decreases rem(s, pos), 9int,
{
    reveal(crate::grammar::sp_code_block);
    reveal(crate::grammar::sp_instruction);
    reveal(crate::grammar::sp_block_more);
    lemma_ws_len_le(s, pos);
    let w = ws_len(s, pos);
    wfr_instruction(s, pos + w);
    assert(crate::resolve::all_ranges_ok(Seq::<SpecNode<int>>::empty(), s.len() as int));
    match sp_instruction(s, pos + w) {
        Some((i1, c1)) => {
            wfr_block_more(s, pos + w + c1);
            let (rest, c2) = sp_block_more(s, pos + w + c1);
            lemma_cons_ranges_ok(seq![i1] + rest, i1, rest, s.len() as int);
        },
        None => {},
    }
}

/// The parser never manufactures an offset outside the buffer: every range
/// of a successfully parsed tree is ordered and within bounds, so resolving
/// such a tree always succeeds.
pub proof fn lemma_parse_ranges_ok(s: Seq<u8>)
    ensures
        crate::grammar::sp_parse(s) matches Some(root) ==> crate::resolve::ranges_ok(
            root,
            s.len() as int,
        ),
{
    reveal(crate::grammar::sp_parse);
    reveal(crate::grammar::sp_code_block);
    wfr_code_block(s, 0);
}

} // verus!
