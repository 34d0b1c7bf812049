//! The grammar, as mathematics: one specification function per rule of the
//! ordered-choice, backtracking grammar. Each rule takes the source and a
//! byte position and returns the parsed node together with the number of
//! bytes consumed, or `None` when the rule does not match there. The
//! executable engine in [`crate::parse`] is proved to return exactly these
//! results.
//!
//! Every rule consumes the skippable whitespace in front of the construct it
//! matches and stops directly after the construct's last byte.

use vstd::prelude::*;

use crate::ast::{NumForm, SpecNode, SpecNum};
use crate::utils::{LRange, NL};

verus! {

pub const SP: u8 = 32;

pub const TAB: u8 = 9;

pub const CR: u8 = 13;

pub const QUOTE: u8 = 39;

pub const BACKSLASH: u8 = 92;

pub const MINUS: u8 = 45;

pub const PLUS: u8 = 43;

pub const DOT: u8 = 46;

pub const COMMA: u8 = 44;

pub const COLON: u8 = 58;

pub const EQUALS: u8 = 61;

pub const LPAREN: u8 = 40;

pub const RPAREN: u8 = 41;

pub const LBRACK: u8 = 91;

pub const RBRACK: u8 = 93;

pub const LBRACE: u8 = 123;

pub const RBRACE: u8 = 125;

pub const DIGIT_0: u8 = 48;

pub const LOWER_O: u8 = 111;

pub const LOWER_X: u8 = 120;

pub const LOWER_N: u8 = 110;

pub const LOWER_T: u8 = 116;

/// Skippable whitespace: space, tab, carriage return, line feed.
pub open spec fn is_ws_byte(c: u8) -> bool {
    c == SP || c == TAB || c == CR || c == NL
}

/// Whitespace that does not end a line: space, tab, carriage return.
pub open spec fn is_inline_ws_byte(c: u8) -> bool {
    c == SP || c == TAB || c == CR
}

pub open spec fn is_digit(c: u8) -> bool {
    48 <= c <= 57
}

pub open spec fn is_ident_start(c: u8) -> bool {
    (65 <= c <= 90) || (97 <= c <= 122) || c == 95
}

pub open spec fn is_ident_byte(c: u8) -> bool {
    is_ident_start(c) || is_digit(c)
}

/// The numeric value of an ASCII digit, with letters read as hex digits;
/// anything else maps to a value no base accepts.
pub open spec fn digit_val(c: u8) -> nat {
    if 48 <= c <= 57 {
        (c - 48) as nat
    } else if 97 <= c <= 102 {
        (c - 87) as nat
    } else if 65 <= c <= 70 {
        (c - 55) as nat
    } else {
        99
    }
}

pub open spec fn is_base_digit(c: u8, base: nat) -> bool {
    digit_val(c) < base
}

pub open spec fn form_base(f: NumForm) -> nat {
    match f {
        NumForm::Decimal => 10,
        NumForm::Octal => 8,
        NumForm::Hex => 16,
        NumForm::Float => 10,
    }
}

/// The remaining length from `pos`, clamped at zero: the termination measure
/// of every rule.
pub open spec fn rem(s: Seq<u8>, pos: int) -> int {
    if s.len() - pos >= 0 {
        s.len() - pos
    } else {
        0
    }
}

/// Length of the whitespace run starting at `pos`.
pub open spec fn ws_len(s: Seq<u8>, pos: int) -> nat
    decreases rem(s, pos),
{
    if 0 <= pos < s.len() && is_ws_byte(s[pos]) {
        1 + ws_len(s, pos + 1)
    } else {
        0
    }
}

/// Length of the line-internal whitespace run starting at `pos`.
pub open spec fn inline_ws_len(s: Seq<u8>, pos: int) -> nat
    decreases rem(s, pos),
{
    if 0 <= pos < s.len() && is_inline_ws_byte(s[pos]) {
        1 + inline_ws_len(s, pos + 1)
    } else {
        0
    }
}

/// Length of the identifier-byte run starting at `pos`.
pub open spec fn ident_len(s: Seq<u8>, pos: int) -> nat
    decreases rem(s, pos),
{
    if 0 <= pos < s.len() && is_ident_byte(s[pos]) {
        1 + ident_len(s, pos + 1)
    } else {
        0
    }
}

/// Length of the run of digits of `base` starting at `pos`.
pub open spec fn digits_len(s: Seq<u8>, pos: int, base: nat) -> nat
    decreases rem(s, pos),
{
    if 0 <= pos < s.len() && is_base_digit(s[pos], base) {
        1 + digits_len(s, pos + 1, base)
    } else {
        0
    }
}

pub open spec fn is_escape_code(c: u8) -> bool {
    c == LOWER_N || c == LOWER_T || c == BACKSLASH
}

/// What a string escape decodes to.
pub open spec fn escape_val(c: u8) -> u8 {
    if c == LOWER_N {
        NL
    } else if c == LOWER_T {
        TAB
    } else {
        BACKSLASH
    }
}

/// Scans a string body from `pos` up to, but not including, the next quote:
/// the decoded text and the number of bytes read, or `None` when the body is
/// ill-formed (unterminated, a bad escape, or a raw line terminator when
/// `multiline` is false).
pub open spec fn str_body(s: Seq<u8>, pos: int, multiline: bool) -> Option<(Seq<u8>, nat)>
    decreases rem(s, pos),
{
    if pos < 0 || pos >= s.len() {
        None
    } else if s[pos] == QUOTE {
        Some((Seq::empty(), 0))
    } else if s[pos] == BACKSLASH {
        if pos + 1 < s.len() && is_escape_code(s[pos + 1]) {
            match str_body(s, pos + 2, multiline) {
                Some((t, n)) => Some((seq![escape_val(s[pos + 1])] + t, n + 2)),
                None => None,
            }
        } else {
            None
        }
    } else if (s[pos] == NL || s[pos] == CR) && !multiline {
        None
    } else {
        match str_body(s, pos + 1, multiline) {
            Some((t, n)) => Some((seq![s[pos]] + t, n + 1)),
            None => None,
        }
    }
}

/// A number literal at exactly `p` (no leading whitespace). The four forms
/// are tried in order: float, octal, hexadecimal, decimal; the sign is an
/// optional leading minus shared by all forms.
pub open spec fn number_at(s: Seq<u8>, p: int) -> Option<(SpecNum, nat)> {
    let neg = 0 <= p < s.len() && s[p] == MINUS;
    let sgn: nat = if neg {
        1
    } else {
        0
    };
    let q = p + sgn;
    let d1 = digits_len(s, q, 10);
    if d1 > 0 && q + d1 < s.len() && s[q + d1] == DOT && digits_len(s, q + d1 + 1, 10) > 0 {
        let d2 = digits_len(s, q + d1 + 1, 10);
        Some(
            (
                SpecNum {
                    neg,
                    form: NumForm::Float,
                    int_digits: s.subrange(q, q + d1),
                    frac_digits: s.subrange(q + d1 + 1, q + d1 + 1 + d2),
                },
                sgn + d1 + 1 + d2,
            ),
        )
    } else if q + 1 < s.len() && s[q] == DIGIT_0 && s[q + 1] == LOWER_O && digits_len(
        s,
        q + 2,
        8,
    ) > 0 {
        let d = digits_len(s, q + 2, 8);
        Some(
            (
                SpecNum {
                    neg,
                    form: NumForm::Octal,
                    int_digits: s.subrange(q + 2, q + 2 + d),
                    frac_digits: Seq::empty(),
                },
                sgn + 2 + d,
            ),
        )
    } else if q + 1 < s.len() && s[q] == DIGIT_0 && s[q + 1] == LOWER_X && digits_len(
        s,
        q + 2,
        16,
    ) > 0 {
        let d = digits_len(s, q + 2, 16);
        Some(
            (
                SpecNum {
                    neg,
                    form: NumForm::Hex,
                    int_digits: s.subrange(q + 2, q + 2 + d),
                    frac_digits: Seq::empty(),
                },
                sgn + 2 + d,
            ),
        )
    } else if d1 > 0 {
        Some(
            (
                SpecNum {
                    neg,
                    form: NumForm::Decimal,
                    int_digits: s.subrange(q, q + d1),
                    frac_digits: Seq::empty(),
                },
                sgn + d1,
            ),
        )
    } else {
        None
    }
}

/// The source range a node covers.
pub open spec fn sn_range(n: SpecNode<int>) -> LRange<int> {
    match n {
        SpecNode::Identifier { range, .. } => range,
        SpecNode::Str { range, .. } => range,
        SpecNode::Number { range, .. } => range,
        SpecNode::Arglist { range, .. } => range,
        SpecNode::Array { range, .. } => range,
        SpecNode::KeyValue { range, .. } => range,
        SpecNode::KwargList { range, .. } => range,
        SpecNode::Dict { range, .. } => range,
        SpecNode::Addition { range, .. } => range,
        SpecNode::MemberAccess { range, .. } => range,
        SpecNode::Function { range, .. } => range,
        SpecNode::Assignment { range, .. } => range,
        SpecNode::PlusAssignment { range, .. } => range,
        SpecNode::CodeBlock { range, .. } => range,
        SpecNode::Empty { range } => range,
    }
}

/// Whether, after `p`, the next non-whitespace byte is a colon. The argument
/// lookahead that keeps a key out of a positional argument slot.
pub open spec fn colon_follows(s: Seq<u8>, p: int) -> bool {
    let w = ws_len(s, p);
    p + w < s.len() && s[p + w] == COLON
}

/// An identifier: `[A-Za-z_][A-Za-z0-9_]*`.
#[verifier::opaque]
pub open spec fn sp_identifier(s: Seq<u8>, pos: int) -> Option<(SpecNode<int>, nat)>
    decreases rem(s, pos), 0int,
{
    let w = ws_len(s, pos);
    let p = pos + w;
    if p < s.len() && is_ident_start(s[p]) {
        let n = 1 + ident_len(s, p + 1);
        Some(
            (
                SpecNode::Identifier {
                    text: s.subrange(p, p + n),
                    range: LRange { start: p, end: p + n },
                },
                w + n,
            ),
        )
    } else {
        None
    }
}

/// A multiline string literal: `'''`, a body, `'''`.
#[verifier::opaque]
pub open spec fn sp_multiline_string(s: Seq<u8>, pos: int) -> Option<(SpecNode<int>, nat)>
    decreases rem(s, pos), 0int,
{
    let w = ws_len(s, pos);
    let p = pos + w;
    if p + 2 < s.len() && s[p] == QUOTE && s[p + 1] == QUOTE && s[p + 2] == QUOTE {
        match str_body(s, p + 3, true) {
            Some((t, n)) => {
                let q = p + 3 + n;
                if q + 2 < s.len() && s[q + 1] == QUOTE && s[q + 2] == QUOTE {
                    Some(
                        (
                            SpecNode::Str {
                                text: t,
                                range: LRange { start: p, end: q + 3 },
                            },
                            w + 3 + n + 3,
                        ),
                    )
                } else {
                    None
                }
            },
            None => None,
        }
    } else {
        None
    }
}

/// A string literal: the multiline form, else the inline (`'...'`) form.
#[verifier::opaque]
pub open spec fn sp_string(s: Seq<u8>, pos: int) -> Option<(SpecNode<int>, nat)>
    decreases rem(s, pos), 1int,
{
    match sp_multiline_string(s, pos) {
        Some(r) => Some(r),
        None => {
            let w = ws_len(s, pos);
            let p = pos + w;
            if p < s.len() && s[p] == QUOTE {
                match str_body(s, p + 1, false) {
                    Some((t, n)) => Some(
                        (
                            SpecNode::Str {
                                text: t,
                                range: LRange { start: p, end: p + 1 + n + 1 },
                            },
                            w + 1 + n + 1,
                        ),
                    ),
                    None => None,
                }
            } else {
                None
            }
        },
    }
}

/// A member-access chain: two or more identifiers separated by dots,
/// flattened into one node.
#[verifier::opaque]
pub open spec fn sp_member_access(s: Seq<u8>, pos: int) -> Option<(SpecNode<int>, nat)>
    decreases rem(s, pos), 1int,
{
    match sp_identifier(s, pos) {
        None => None,
        Some((id1, c1)) => {
            let (rest, c2) = sp_member_more(s, pos + c1);
            if rest.len() == 0 {
                None
            } else {
                Some(
                    (
                        SpecNode::MemberAccess {
                            parts: seq![id1] + rest,
                            range: LRange {
                                start: sn_range(id1).start,
                                end: pos + c1 + c2,
                            },
                        },
                        c1 + c2,
                    ),
                )
            }
        },
    }
}

/// Zero or more further `. identifier` links of a member-access chain.
#[verifier::opaque]
pub open spec fn sp_member_more(s: Seq<u8>, pos: int) -> (Seq<SpecNode<int>>, nat)
    decreases rem(s, pos), 0int,
{
    let w = ws_len(s, pos);
    if pos + w < s.len() && s[pos + w] == DOT {
        match sp_identifier(s, pos + w + 1) {
            Some((id, c)) => {
                let (rest, c2) = sp_member_more(s, pos + w + 1 + c);
                (seq![id] + rest, w + 1 + c + c2)
            },
            None => (Seq::empty(), 0),
        }
    } else {
        (Seq::empty(), 0)
    }
}

/// A raw value: ordered choice of string, function call, member access,
/// identifier, array, dictionary, number. The order is load-bearing: the
/// more specific prefixes must win.
#[verifier::opaque]
pub open spec fn sp_raw_value(s: Seq<u8>, pos: int) -> Option<(SpecNode<int>, nat)>
    decreases rem(s, pos), 3int,
{
    match sp_string(s, pos) {
        Some(r) => Some(r),
        None => match sp_function_call(s, pos) {
            Some(r) => Some(r),
            None => match sp_member_access(s, pos) {
                Some(r) => Some(r),
                None => match sp_identifier(s, pos) {
                    Some(r) => Some(r),
                    None => match sp_array(s, pos) {
                        Some(r) => Some(r),
                        None => match sp_dict(s, pos) {
                            Some(r) => Some(r),
                            None => {
                                let w = ws_len(s, pos);
                                match number_at(s, pos + w) {
                                    Some((num, c)) => Some(
                                        (
                                            SpecNode::Number {
                                                num,
                                                range: LRange {
                                                    start: pos + w,
                                                    end: pos + w + c,
                                                },
                                            },
                                            w + c,
                                        ),
                                    ),
                                    None => None,
                                }
                            },
                        },
                    },
                },
            },
        },
    }
}

/// An addition chain: two or more raw values separated by `+`, flattened
/// into one node in source order.
#[verifier::opaque]
pub open spec fn sp_addition(s: Seq<u8>, pos: int) -> Option<(SpecNode<int>, nat)>
    decreases rem(s, pos), 4int,
{
    match sp_raw_value(s, pos) {
        None => None,
        Some((v1, c1)) => {
            let (rest, c2) = sp_addition_more(s, pos + c1);
            if rest.len() == 0 {
                None
            } else {
                Some(
                    (
                        SpecNode::Addition {
                            operands: seq![v1] + rest,
                            range: LRange {
                                start: sn_range(v1).start,
                                end: pos + c1 + c2,
                            },
                        },
                        c1 + c2,
                    ),
                )
            }
        },
    }
}

/// Zero or more further `+ raw-value` links of an addition chain.
#[verifier::opaque]
pub open spec fn sp_addition_more(s: Seq<u8>, pos: int) -> (Seq<SpecNode<int>>, nat)
    decreases rem(s, pos), 0int,
{
    let w = ws_len(s, pos);
    if pos + w < s.len() && s[pos + w] == PLUS {
        match sp_raw_value(s, pos + w + 1) {
            Some((v, c)) => {
                let (rest, c2) = sp_addition_more(s, pos + w + 1 + c);
                (seq![v] + rest, w + 1 + c + c2)
            },
            None => (Seq::empty(), 0),
        }
    } else {
        (Seq::empty(), 0)
    }
}

/// A value: an addition chain, or a single raw value when fewer than two
/// operands are present.
#[verifier::opaque]
pub open spec fn sp_value(s: Seq<u8>, pos: int) -> Option<(SpecNode<int>, nat)>
    decreases rem(s, pos), 5int,
{
    match sp_addition(s, pos) {
        Some(r) => Some(r),
        None => sp_raw_value(s, pos),
    }
}

/// A positional argument list: zero or more values separated by commas,
/// where a value immediately followed by a colon is rejected (it is the key
/// of a key-value pair, not an argument). Always succeeds, possibly empty.
#[verifier::opaque]
pub open spec fn sp_arglist(s: Seq<u8>, pos: int) -> (SpecNode<int>, nat)
    decreases rem(s, pos), 6int,
{
    match sp_value(s, pos) {
        Some((v, c)) => {
            if colon_follows(s, pos + c) {
                (
                    SpecNode::Arglist {
                        items: Seq::empty(),
                        range: LRange { start: pos, end: pos },
                    },
                    0,
                )
            } else {
                let (rest, c2) = sp_arglist_more(s, pos + c);
                (
                    SpecNode::Arglist {
                        items: seq![v] + rest,
                        range: LRange {
                            start: sn_range(v).start,
                            end: pos + c + c2,
                        },
                    },
                    c + c2,
                )
            }
        },
        None => (
            SpecNode::Arglist { items: Seq::empty(), range: LRange { start: pos, end: pos } },
            0,
        ),
    }
}

/// Zero or more further `, value` links of an argument list.
#[verifier::opaque]
pub open spec fn sp_arglist_more(s: Seq<u8>, pos: int) -> (Seq<SpecNode<int>>, nat)
    decreases rem(s, pos), 0int,
{
    let w = ws_len(s, pos);
    if pos + w < s.len() && s[pos + w] == COMMA {
        match sp_value(s, pos + w + 1) {
            Some((v, c)) => {
                if colon_follows(s, pos + w + 1 + c) {
                    (Seq::empty(), 0)
                } else {
                    let (rest, c2) = sp_arglist_more(s, pos + w + 1 + c);
                    (seq![v] + rest, w + 1 + c + c2)
                }
            },
            None => (Seq::empty(), 0),
        }
    } else {
        (Seq::empty(), 0)
    }
}

/// A key-value pair: identifier, colon, value.
#[verifier::opaque]
pub open spec fn sp_kvpair(s: Seq<u8>, pos: int) -> Option<(SpecNode<int>, nat)>
    decreases rem(s, pos), 4int,
{
    match sp_identifier(s, pos) {
        None => None,
        Some((k, c1)) => {
            let w = ws_len(s, pos + c1);
            if pos + c1 + w < s.len() && s[pos + c1 + w] == COLON {
                match sp_value(s, pos + c1 + w + 1) {
                    Some((v, c2)) => Some(
                        (
                            SpecNode::KeyValue {
                                key: Box::new(k),
                                value: Box::new(v),
                                range: LRange {
                                    start: sn_range(k).start,
                                    end: pos + c1 + w + 1 + c2,
                                },
                            },
                            c1 + w + 1 + c2,
                        ),
                    ),
                    None => None,
                }
            } else {
                None
            }
        },
    }
}

/// A keyword-argument list: zero or more key-value pairs separated by
/// commas. Always succeeds, possibly empty.
#[verifier::opaque]
pub open spec fn sp_kwarglist(s: Seq<u8>, pos: int) -> (SpecNode<int>, nat)
    decreases rem(s, pos), 6int,
{
    match sp_kvpair(s, pos) {
        Some((kv, c)) => {
            let (rest, c2) = sp_kwarglist_more(s, pos + c);
            (
                SpecNode::KwargList {
                    items: seq![kv] + rest,
                    range: LRange {
                        start: sn_range(kv).start,
                        end: pos + c + c2,
                    },
                },
                c + c2,
            )
        },
        None => (
            SpecNode::KwargList { items: Seq::empty(), range: LRange { start: pos, end: pos } },
            0,
        ),
    }
}

/// Zero or more further `, key-value` links of a keyword-argument list.
#[verifier::opaque]
pub open spec fn sp_kwarglist_more(s: Seq<u8>, pos: int) -> (Seq<SpecNode<int>>, nat)
    decreases rem(s, pos), 0int,
{
    let w = ws_len(s, pos);
    if pos + w < s.len() && s[pos + w] == COMMA {
        match sp_kvpair(s, pos + w + 1) {
            Some((kv, c)) => {
                let (rest, c2) = sp_kwarglist_more(s, pos + w + 1 + c);
                (seq![kv] + rest, w + 1 + c + c2)
            },
            None => (Seq::empty(), 0),
        }
    } else {
        (Seq::empty(), 0)
    }
}

/// An array literal: `[` argument-list `]`.
#[verifier::opaque]
pub open spec fn sp_array(s: Seq<u8>, pos: int) -> Option<(SpecNode<int>, nat)>
    decreases rem(s, pos), 0int,
{
    let w = ws_len(s, pos);
    let p = pos + w;
    if p < s.len() && s[p] == LBRACK {
        let (args, c) = sp_arglist(s, p + 1);
        let w2 = ws_len(s, p + 1 + c);
        let q = p + 1 + c + w2;
        if q < s.len() && s[q] == RBRACK {
            Some(
                (
                    SpecNode::Array {
                        inner: Box::new(args),
                        range: LRange { start: p, end: q + 1 },
                    },
                    w + 1 + c + w2 + 1,
                ),
            )
        } else {
            None
        }
    } else {
        None
    }
}

/// A dictionary literal: `{` keyword-argument-list `}`.
#[verifier::opaque]
pub open spec fn sp_dict(s: Seq<u8>, pos: int) -> Option<(SpecNode<int>, nat)>
    decreases rem(s, pos), 0int,
{
    let w = ws_len(s, pos);
    let p = pos + w;
    if p < s.len() && s[p] == LBRACE {
        let (kwargs, c) = sp_kwarglist(s, p + 1);
        let w2 = ws_len(s, p + 1 + c);
        let q = p + 1 + c + w2;
        if q < s.len() && s[q] == RBRACE {
            Some(
                (
                    SpecNode::Dict {
                        inner: Box::new(kwargs),
                        range: LRange { start: p, end: q + 1 },
                    },
                    w + 1 + c + w2 + 1,
                ),
            )
        } else {
            None
        }
    } else {
        None
    }
}

/// The part of a function call after its callee: `(`, argument-list,
/// optionally `,` keyword-argument-list, `)`. `callee` is the already-parsed
/// callee and `c1` what it consumed from `pos`. An absent keyword-argument
/// list yields an `Empty` node in that slot.
#[verifier::opaque]
pub open spec fn sp_call_after(s: Seq<u8>, pos: int, callee: SpecNode<int>, c1: nat) -> Option<
    (SpecNode<int>, nat),
>
    decreases rem(s, pos), 1int,
{
    let w = ws_len(s, pos + c1);
    let p = pos + c1 + w;
    if p < s.len() && s[p] == LPAREN {
        let (args, c2) = sp_arglist(s, p + 1);
        let p2 = p + 1 + c2;
        let w2 = ws_len(s, p2);
        let has_kw = p2 + w2 < s.len() && s[p2 + w2] == COMMA;
        let (kwargs, c3): (SpecNode<int>, nat) = if has_kw {
            let (kw, ck) = sp_kwarglist(s, p2 + w2 + 1);
            (kw, w2 + 1 + ck)
        } else {
            (SpecNode::Empty { range: LRange { start: p2, end: p2 } }, 0)
        };
        let p3 = p2 + c3;
        let w3 = ws_len(s, p3);
        let q = p3 + w3;
        if q < s.len() && s[q] == RPAREN {
            Some(
                (
                    SpecNode::Function {
                        callee: Box::new(callee),
                        args: Box::new(args),
                        kwargs: Box::new(kwargs),
                        range: LRange {
                            start: sn_range(callee).start,
                            end: q + 1,
                        },
                    },
                    c1 + w + 1 + c2 + c3 + w3 + 1,
                ),
            )
        } else {
            None
        }
    } else {
        None
    }
}

/// A function call: callee (member access or identifier), then
/// [`sp_call_after`].
#[verifier::opaque]
pub open spec fn sp_function_call(s: Seq<u8>, pos: int) -> Option<(SpecNode<int>, nat)>
    decreases rem(s, pos), 2int,
{
    let callee_r = match sp_member_access(s, pos) {
        Some(r) => Some(r),
        None => sp_identifier(s, pos),
    };
    match callee_r {
        None => None,
        Some((callee, c1)) => sp_call_after(s, pos, callee, c1),
    }
}

/// An assignment: target (member access or identifier), `=`, value.
#[verifier::opaque]
pub open spec fn sp_assignment(s: Seq<u8>, pos: int) -> Option<(SpecNode<int>, nat)>
    decreases rem(s, pos), 2int,
{
    let target_r = match sp_member_access(s, pos) {
        Some(r) => Some(r),
        None => sp_identifier(s, pos),
    };
    match target_r {
        None => None,
        Some((target, c1)) => {
            let w = ws_len(s, pos + c1);
            let p = pos + c1 + w;
            if p < s.len() && s[p] == EQUALS {
                match sp_value(s, p + 1) {
                    Some((v, c2)) => Some(
                        (
                            SpecNode::Assignment {
                                target: Box::new(target),
                                value: Box::new(v),
                                range: LRange {
                                    start: sn_range(target).start,
                                    end: p + 1 + c2,
                                },
                            },
                            c1 + w + 1 + c2,
                        ),
                    ),
                    None => None,
                }
            } else {
                None
            }
        },
    }
}

/// A plus-assignment: target, `+=`, value. A standalone rule: the
/// instruction production does not reach it.
#[verifier::opaque]
pub open spec fn sp_plus_assignment(s: Seq<u8>, pos: int) -> Option<(SpecNode<int>, nat)>
    decreases rem(s, pos), 2int,
{
    let target_r = match sp_member_access(s, pos) {
        Some(r) => Some(r),
        None => sp_identifier(s, pos),
    };
    match target_r {
        None => None,
        Some((target, c1)) => {
            let w = ws_len(s, pos + c1);
            let p = pos + c1 + w;
            if p + 1 < s.len() && s[p] == PLUS && s[p + 1] == EQUALS {
                match sp_value(s, p + 2) {
                    Some((v, c2)) => Some(
                        (
                            SpecNode::PlusAssignment {
                                target: Box::new(target),
                                value: Box::new(v),
                                range: LRange {
                                    start: sn_range(target).start,
                                    end: p + 2 + c2,
                                },
                            },
                            c1 + w + 2 + c2,
                        ),
                    ),
                    None => None,
                }
            } else {
                None
            }
        },
    }
}

/// An instruction: a function call, else an assignment.
#[verifier::opaque]
pub open spec fn sp_instruction(s: Seq<u8>, pos: int) -> Option<(SpecNode<int>, nat)>
    decreases rem(s, pos), 8int,
{
    match sp_function_call(s, pos) {
        Some(r) => Some(r),
        None => sp_assignment(s, pos),
    }
}

/// The entry production: zero or more instructions separated by one or more
/// end-of-line sequences, whitespace-tolerant at both ends. Always succeeds.
#[verifier::opaque]
pub open spec fn sp_code_block(s: Seq<u8>, pos: int) -> (SpecNode<int>, nat)
    decreases rem(s, pos), 9int,
{
    let w = ws_len(s, pos);
    match sp_instruction(s, pos + w) {
        Some((i1, c1)) => {
            let (rest, c2) = sp_block_more(s, pos + w + c1);
            (
                SpecNode::CodeBlock {
                    items: seq![i1] + rest,
                    range: LRange {
                        start: sn_range(i1).start,
                        end: pos + w + c1 + c2,
                    },
                },
                w + c1 + c2,
            )
        },
        None => (
            SpecNode::CodeBlock { items: Seq::empty(), range: LRange { start: pos, end: pos } },
            0,
        ),
    }
}

/// Zero or more further instructions, each preceded by at least one line
/// feed (with any surrounding whitespace).
#[verifier::opaque]
pub open spec fn sp_block_more(s: Seq<u8>, pos: int) -> (Seq<SpecNode<int>>, nat)
    decreases rem(s, pos), 1int,
{
    let i1 = inline_ws_len(s, pos);
    if pos + i1 < s.len() && s[pos + i1] == NL {
        let w = ws_len(s, pos + i1 + 1);
        match sp_instruction(s, pos + i1 + 1 + w) {
            Some((ins, c)) => {
                let (rest, c2) = sp_block_more(s, pos + i1 + 1 + w + c);
                (seq![ins] + rest, i1 + 1 + w + c + c2)
            },
            None => (Seq::empty(), 0),
        }
    } else {
        (Seq::empty(), 0)
    }
}

/// The whole-buffer parse: the root code block, provided that only
/// whitespace remains after it; `None` otherwise.
#[verifier::opaque]
pub open spec fn sp_parse(s: Seq<u8>) -> Option<SpecNode<int>> {
    let (root, c) = sp_code_block(s, 0);
    let w = ws_len(s, c as int);
    if c + w == s.len() {
        Some(root)
    } else {
        None
    }
}

} // verus!
