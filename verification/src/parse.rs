//! The executable grammar engine: an ordered-choice, backtracking
//! recursive-descent parser over raw bytes. Every rule is proved to return
//! exactly what the corresponding specification function in
//! [`crate::grammar`] denotes; alongside the tree it maintains a record of
//! the furthest failure for diagnostics.

use vstd::prelude::*;

use crate::ast::{raw_rf, raw_view, NumForm, NumberLit, Node, SpecNode};
use crate::ast::nodes_view;
use crate::grammar::{
    colon_follows, digit_val, digits_len, escape_val, ident_len, inline_ws_len, is_digit,
    is_ident_start, is_inline_ws_byte, is_ws_byte, number_at, rem, sn_range, sp_addition,
    sp_addition_more, sp_arglist, sp_arglist_more, sp_array, sp_assignment, sp_block_more,
    sp_call_after, sp_code_block, sp_dict, sp_function_call, sp_identifier, sp_instruction,
    sp_kvpair, sp_kwarglist, sp_kwarglist_more, sp_member_access, sp_member_more,
    sp_multiline_string, sp_parse, sp_plus_assignment, sp_raw_value, sp_string, sp_value,
    str_body, ws_len,
};
use crate::grammar::{
    BACKSLASH, COLON, COMMA, CR, DIGIT_0, DOT, EQUALS, LBRACE, LBRACK, LOWER_N, LOWER_O,
    LOWER_T, LOWER_X, LPAREN, MINUS, PLUS, QUOTE, RBRACE, RBRACK, RPAREN, SP, TAB,
};
use crate::utils::{LRange, Location, NL};

verus! {

/// What a failed rule expected, by construct.
#[derive(Copy, Clone, Debug, PartialEq, Eq, Structural)]
pub enum Label {
    Identifier,
    StringLit,
    Number,
    Array,
    Dict,
    KeyValue,
    FunctionCall,
    MemberAccess,
    Assignment,
    Instruction,
    EndOfInput,
}

/// The structured parse failure: the furthest offset any rule reached, and
/// the constructs that were still expected there.
#[derive(Clone, Debug, PartialEq, Eq)]
pub struct ParseFailure {
    pub at: usize,
    pub expected: Vec<Label>,
}

fn labels_contain(v: &Vec<Label>, l: Label) -> bool {
    let mut i: usize = 0;
    while i < v.len()
        decreases v@.len() - i,
    {
        if v[i] == l {
            return true;
        }
        i = i + 1;
    }
    false
}

impl ParseFailure {
    pub fn empty() -> Self {
        ParseFailure { at: 0, expected: Vec::new() }
    }

    /// Records that the construct `l` was expected at `at`: the record keeps
    /// the furthest offset seen and the set of labels at that offset.
    fn note(&mut self, at: usize, l: Label) {
        if at > self.at {
            self.at = at;
            self.expected = Vec::new();
            self.expected.push(l);
        } else if at == self.at {
            if !labels_contain(&self.expected, l) {
                self.expected.push(l);
            }
        }
    }

    /// The failure's offset as a 1-indexed line/column position in `s`.
    pub fn resolved_at(&self, s: &[u8]) -> (r: Option<Location<usize>>)
        requires
            s@.len() < usize::MAX,
        ensures
            self.at <= s@.len() ==> (r matches Some(loc) && loc.line == crate::utils::spec_line(
                s@,
                self.at as int,
            ) && loc.col == crate::utils::spec_col(s@, self.at as int)),
            self.at > s@.len() ==> r is None,
    {
        if self.at <= s.len() {
            Some(Location::from_offset(s, self.at))
        } else {
            None
        }
    }
}

fn is_ws(c: u8) -> (r: bool)
    ensures
        r == is_ws_byte(c),
{
    c == SP || c == TAB || c == CR || c == NL
}

fn is_inline_ws(c: u8) -> (r: bool)
    ensures
        r == is_inline_ws_byte(c),
{
    c == SP || c == TAB || c == CR
}

/// The first position at or after `pos` holding no skippable whitespace.
pub fn skip_ws(s: &[u8], pos: usize) -> (r: usize)
    requires
        pos <= s@.len(),
    ensures
        r as int == pos + ws_len(s@, pos as int),
        pos <= r <= s@.len(),
{
    let mut i = pos;
    while i < s.len() && is_ws(s[i])
        invariant
            pos <= i <= s@.len(),
            ws_len(s@, pos as int) == (i - pos) + ws_len(s@, i as int),
        decreases s@.len() - i,
    {
        i = i + 1;
    }
    i
}

/// The first position at or after `pos` holding no line-internal whitespace.
fn skip_inline_ws(s: &[u8], pos: usize) -> (r: usize)
    requires
        pos <= s@.len(),
    ensures
        r as int == pos + inline_ws_len(s@, pos as int),
        pos <= r <= s@.len(),
{
    let mut i = pos;
    while i < s.len() && is_inline_ws(s[i])
        invariant
            pos <= i <= s@.len(),
            inline_ws_len(s@, pos as int) == (i - pos) + inline_ws_len(s@, i as int),
        decreases s@.len() - i,
    {
        i = i + 1;
    }
    i
}

/// The end of the identifier-byte run starting at `pos`.
fn scan_ident(s: &[u8], pos: usize) -> (r: usize)
    requires
        pos <= s@.len(),
    ensures
        r as int == pos + ident_len(s@, pos as int),
        pos <= r <= s@.len(),
{
    let mut i = pos;
    while i < s.len() && (is_ident_start_b(s[i]) || is_digit_b(s[i]))
        invariant
            pos <= i <= s@.len(),
            ident_len(s@, pos as int) == (i - pos) + ident_len(s@, i as int),
        decreases s@.len() - i,
    {
        i = i + 1;
    }
    i
}

fn is_ident_start_b(c: u8) -> (r: bool)
    ensures
        r == is_ident_start(c),
{
    (65 <= c && c <= 90) || (97 <= c && c <= 122) || c == 95
}

fn is_digit_b(c: u8) -> (r: bool)
    ensures
        r == is_digit(c),
{
    48 <= c && c <= 57
}

pub fn digit_byte_value(c: u8) -> (r: u8)
    ensures
        r as nat == digit_val(c),
{
    if 48 <= c && c <= 57 {
        c - 48
    } else if 97 <= c && c <= 102 {
        c - 87
    } else if 65 <= c && c <= 70 {
        c - 55
    } else {
        99
    }
}

/// The end of the run of digits of `base` starting at `pos`.
fn scan_digits(s: &[u8], pos: usize, base: u8) -> (r: usize)
    requires
        pos <= s@.len(),
    ensures
        r as int == pos + digits_len(s@, pos as int, base as nat),
        pos <= r <= s@.len(),
{
    let mut i = pos;
    while i < s.len() && digit_byte_value(s[i]) < base
        invariant
            pos <= i <= s@.len(),
            digits_len(s@, pos as int, base as nat) == (i - pos) + digits_len(
                s@,
                i as int,
                base as nat,
            ),
        decreases s@.len() - i,
    {
        i = i + 1;
    }
    i
}

/// A copy of the bytes of `s` from `a` up to `b`.
fn copy_range(s: &[u8], a: usize, b: usize) -> (r: Vec<u8>)
    requires
        a <= b <= s@.len(),
    ensures
        r@ == s@.subrange(a as int, b as int),
{
    let mut v: Vec<u8> = Vec::new();
    let mut i = a;
    while i < b
        invariant
            a <= i <= b <= s@.len(),
            v@ == s@.subrange(a as int, i as int),
        decreases b - i,
    {
        v.push(s[i]);
        i = i + 1;
        proof {
            assert(s@.subrange(a as int, i as int) =~= s@.subrange(a as int, i - 1).push(
                s@[i - 1],
            ));
        }
    }
    v
}

/// Scans a string body: the decoded bytes and the position of the
/// terminating quote, per [`str_body`]; on an ill-formed body, the offset at
/// which scanning stopped.
fn scan_str_body(s: &[u8], pos: usize, multiline: bool) -> (r: Result<(Vec<u8>, usize), usize>)
    requires
        pos <= s@.len(),
    ensures
        match (r, str_body(s@, pos as int, multiline)) {
            (Ok((t, e)), Some((st, n))) => t@ == st && e as int == pos + n && e < s@.len(),
            (Err(fp), None) => pos <= fp <= s@.len(),
            _ => false,
        },
{
    let mut out: Vec<u8> = Vec::new();
    let mut i = pos;
    loop
        invariant
            pos <= i <= s@.len(),
            match str_body(s@, i as int, multiline) {
                Some((t2, n2)) => str_body(s@, pos as int, multiline) == Some::<(Seq<u8>, nat)>(
                    (out@ + t2, ((i - pos) + n2) as nat),
                ),
                None => str_body(s@, pos as int, multiline) is None,
            },
        decreases s@.len() - i,
    {
        if i >= s.len() {
            return Err(i);
        }
        let c = s[i];
        if c == QUOTE {
            proof {
                assert(out@ + Seq::<u8>::empty() =~= out@);
            }
            return Ok((out, i));
        } else if c == BACKSLASH {
            if i + 1 < s.len() && (s[i + 1] == LOWER_N || s[i + 1] == LOWER_T || s[i + 1]
                == BACKSLASH) {
                let ghost old_out = out@;
                let d = if s[i + 1] == LOWER_N {
                    NL
                } else if s[i + 1] == LOWER_T {
                    TAB
                } else {
                    BACKSLASH
                };
                out.push(d);
                proof {
                    assert(d == escape_val(s@[i + 1]));
                    match str_body(s@, i + 2, multiline) {
                        Some((t3, n3)) => {
                            assert(out@ + t3 =~= old_out + (seq![escape_val(s@[i + 1])] + t3));
                        },
                        None => {},
                    }
                }
                i = i + 2;
            } else {
                return Err(i);
            }
        } else if (c == NL || c == CR) && !multiline {
            return Err(i);
        } else {
            let ghost old_out = out@;
            out.push(c);
            proof {
                match str_body(s@, i + 1, multiline) {
                    Some((t3, n3)) => {
                        assert(out@ + t3 =~= old_out + (seq![s@[i as int]] + t3));
                    },
                    None => {},
                }
            }
            i = i + 1;
        }
    }
}

/// A number literal starting exactly at `p`, per [`number_at`].
fn number_lit_at(s: &[u8], p: usize) -> (r: Option<(NumberLit, usize)>)
    requires
        p <= s@.len(),
        s@.len() + 4 <= usize::MAX,
    ensures
        match (r, number_at(s@, p as int)) {
            (Some((nl, e)), Some((sn, c))) => nl@ == sn && e as int == p + c && e <= s@.len(),
            (None, None) => true,
            _ => false,
        },
{
    let neg = p < s.len() && s[p] == MINUS;
    let q = if neg {
        p + 1
    } else {
        p
    };
    let d1e = scan_digits(s, q, 10);
    if d1e > q && d1e < s.len() && s[d1e] == DOT {
        let d2e = scan_digits(s, d1e + 1, 10);
        if d2e > d1e + 1 {
            let int_digits = copy_range(s, q, d1e);
            let frac_digits = copy_range(s, d1e + 1, d2e);
            return Some((NumberLit { neg, form: NumForm::Float, int_digits, frac_digits }, d2e));
        }
    }
    if q + 1 < s.len() && s[q] == DIGIT_0 && s[q + 1] == LOWER_O {
        let de = scan_digits(s, q + 2, 8);
        if de > q + 2 {
            let int_digits = copy_range(s, q + 2, de);
            return Some(
                (NumberLit { neg, form: NumForm::Octal, int_digits, frac_digits: Vec::new() }, de),
            );
        }
    }
    if q + 1 < s.len() && s[q] == DIGIT_0 && s[q + 1] == LOWER_X {
        let de = scan_digits(s, q + 2, 16);
        if de > q + 2 {
            let int_digits = copy_range(s, q + 2, de);
            return Some(
                (NumberLit { neg, form: NumForm::Hex, int_digits, frac_digits: Vec::new() }, de),
            );
        }
    }
    if d1e > q {
        let int_digits = copy_range(s, q, d1e);
        return Some(
            (NumberLit { neg, form: NumForm::Decimal, int_digits, frac_digits: Vec::new() }, d1e),
        );
    }
    None
}

/// The machine limit every rule needs: positions near the end of the buffer
/// can be pushed a few bytes past it while probing, so the length must sit
/// clear of the usize maximum.
pub open spec fn len_ok(s: Seq<u8>) -> bool {
    s.len() + 4 <= usize::MAX
}

/// The per-parse memoization table of the identifier rule: one slot per
/// input position, holding the rule's outcome there once it has been
/// computed. The identifier rule is probed repeatedly at the same positions
/// during backtracking (a call, a member access and a bare name all begin
/// with it), and caching keeps that linear.
pub struct IdentMemo {
    pub tbl: Vec<Option<Option<(usize, usize)>>>,
}

impl IdentMemo {
    /// Every filled slot records exactly what [`sp_identifier`] denotes at
    /// that position: the text span `(p, e)` on success, or the failure.
    pub open spec fn wf(&self, s: Seq<u8>) -> bool {
        &&& self.tbl@.len() == s.len() + 1
        &&& forall|i: int|
            0 <= i < self.tbl@.len() ==> match #[trigger] self.tbl@[i] {
                Some(v) => match v {
                    Some((p, e)) => i <= p <= e <= s.len() && sp_identifier(s, i) == Some(
                        (
                            SpecNode::Identifier::<int> {
                                text: s.subrange(p as int, e as int),
                                range: LRange { start: p as int, end: e as int },
                            },
                            (e - i) as nat,
                        ),
                    ),
                    None => sp_identifier(s, i) is None,
                },
                None => true,
            }
    }

    /// An empty table for a buffer of `len` bytes.
    pub fn new(len: usize) -> (r: IdentMemo)
        requires
            len < usize::MAX,
        ensures
            forall|s: Seq<u8>| s.len() == len ==> r.wf(s),
    {
        let mut tbl: Vec<Option<Option<(usize, usize)>>> = Vec::new();
        let mut i: usize = 0;
        while i <= len
            invariant
                len < usize::MAX,
                i <= len + 1,
                tbl@.len() == i,
                forall|j: int| 0 <= j < i ==> #[trigger] tbl@[j] is None,
            decreases len + 1 - i,
        {
            tbl.push(None);
            i = i + 1;
        }
        IdentMemo { tbl }
    }
}

/// How an optional rule's executable result must relate to its
/// specification: same verdict, same tree, and the end position is the start
/// plus the consumed length.
pub open spec fn rule_matches(
    s: Seq<u8>,
    pos: int,
    r: Option<(Node<usize>, usize)>,
    sr: Option<(SpecNode<int>, nat)>,
) -> bool {
    match (r, sr) {
        (Some((n, e)), Some((sn, c))) => raw_view(n) == sn && e == pos + c && e <= s.len(),
        (None, None) => true,
        _ => false,
    }
}

/// The same relation for rules that always succeed.
pub open spec fn total_matches(
    s: Seq<u8>,
    pos: int,
    r: (Node<usize>, usize),
    sr: (SpecNode<int>, nat),
) -> bool {
    raw_view(r.0) == sr.0 && r.1 == pos + sr.1 && r.1 <= s.len()
}

/// The same relation for the repetition helpers, which return node lists.
pub open spec fn list_matches(
    s: Seq<u8>,
    pos: int,
    r: (Vec<Node<usize>>, usize),
    sr: (Seq<SpecNode<int>>, nat),
) -> bool {
    nodes_view(r.0@, raw_rf()) == sr.0 && r.1 == pos + sr.1 && r.1 <= s.len()
}

/// An identifier, per [`sp_identifier`]. Memoized: the outcome at each
/// position is computed once per parse.
pub fn parse_identifier(s: &[u8], pos: usize, memo: &mut IdentMemo, err: &mut ParseFailure) -> (r:
    Option<(Node<usize>, usize)>)
    requires
        pos <= s@.len(),
        len_ok(s@),
        old(memo).wf(s@),
    ensures
        final(memo).wf(s@),
        rule_matches(s@, pos as int, r, sp_identifier(s@, pos as int)),
    decreases rem(s@, pos as int), 0int,
{
    reveal(crate::grammar::sp_identifier);
    match memo.tbl[pos] {
        Some(cached) => match cached {
            Some((p, e)) => {
                let text = copy_range(s, p, e);
                return Some((Node::Identifier { text, range: LRange { start: p, end: e } }, e));
            },
            None => {
                let p = skip_ws(s, pos);
                err.note(p, Label::Identifier);
                return None;
            },
        },
        None => {},
    }
    let p = skip_ws(s, pos);
    let ghost old_tbl = memo.tbl@;
    if p < s.len() && is_ident_start_b(s[p]) {
        let e = scan_ident(s, p + 1);
        let text = copy_range(s, p, e);
        memo.tbl.set(pos, Some(Some((p, e))));
        proof {
            assert forall|i: int| 0 <= i < memo.tbl@.len() && i != pos implies memo.tbl@[i]
                == old_tbl[i] by {}
        }
        Some((Node::Identifier { text, range: LRange { start: p, end: e } }, e))
    } else {
        memo.tbl.set(pos, Some(None));
        proof {
            assert forall|i: int| 0 <= i < memo.tbl@.len() && i != pos implies memo.tbl@[i]
                == old_tbl[i] by {}
        }
        err.note(p, Label::Identifier);
        None
    }
}

/// A string literal, per [`sp_string`].
#[verifier::rlimit(60)]
pub fn parse_string(s: &[u8], pos: usize, memo: &mut IdentMemo, err: &mut ParseFailure) -> (r: Option<
    (Node<usize>, usize),
>)
    requires
        pos <= s@.len(),
        len_ok(s@),
        old(memo).wf(s@),
    ensures
        final(memo).wf(s@),
        rule_matches(s@, pos as int, r, sp_string(s@, pos as int)),
    decreases rem(s@, pos as int), 1int,
{
    reveal(crate::grammar::sp_string);
    reveal(crate::grammar::sp_multiline_string);
    let p = skip_ws(s, pos);
    if p + 2 < s.len() && s[p] == QUOTE && s[p + 1] == QUOTE && s[p + 2] == QUOTE {
        match scan_str_body(s, p + 3, true) {
            Ok((t, q)) => {
                if q + 2 < s.len() && s[q + 1] == QUOTE && s[q + 2] == QUOTE {
                    return Some((Node::Str { text: t, range: LRange { start: p, end: q + 3 } }, q
                        + 3));
                }
                err.note(q, Label::StringLit);
            },
            Err(fp) => {
                err.note(fp, Label::StringLit);
            },
        }
    }
    if p < s.len() && s[p] == QUOTE {
        match scan_str_body(s, p + 1, false) {
            Ok((t, q)) => {
                return Some((Node::Str { text: t, range: LRange { start: p, end: q + 1 } }, q + 1));
            },
            Err(fp) => {
                err.note(fp, Label::StringLit);
                return None;
            },
        }
    }
    err.note(p, Label::StringLit);
    None
}


proof fn lemma_cons_view(v: Seq<Node<usize>>, head: Node<usize>, tail: Seq<Node<usize>>)
    requires
        v == seq![head] + tail,
    ensures
        nodes_view(v, raw_rf()) == seq![crate::ast::node_view(head, raw_rf())] + nodes_view(
            tail,
            raw_rf(),
        ),
{
    assert(v.len() == 1 + tail.len());
    assert(v[0] == head);
    assert(v.subrange(1, v.len() as int) =~= tail);
}

/// The source range a node carries.
pub fn node_range(n: &Node<usize>) -> (r: LRange<usize>)
    ensures
        r.start as int == sn_range(raw_view(*n)).start,
        r.end as int == sn_range(raw_view(*n)).end,
{
    match n {
        Node::Identifier { range, .. } => *range,
        Node::Str { range, .. } => *range,
        Node::Number { range, .. } => *range,
        Node::Arglist { range, .. } => *range,
        Node::Array { range, .. } => *range,
        Node::KeyValue { range, .. } => *range,
        Node::KwargList { range, .. } => *range,
        Node::Dict { range, .. } => *range,
        Node::Addition { range, .. } => *range,
        Node::MemberAccess { range, .. } => *range,
        Node::Function { range, .. } => *range,
        Node::Assignment { range, .. } => *range,
        Node::PlusAssignment { range, .. } => *range,
        Node::CodeBlock { range, .. } => *range,
        Node::Empty { range } => *range,
    }
}

/// Whether the next non-whitespace byte after `p` is a colon, per
/// [`colon_follows`].
fn colon_after(s: &[u8], p: usize) -> (r: bool)
    requires
        p <= s@.len(),
    ensures
        r == colon_follows(s@, p as int),
{
    let w = skip_ws(s, p);
    w < s.len() && s[w] == COLON
}

/// A member-access chain, per [`sp_member_access`].
#[verifier::rlimit(60)]
pub fn parse_member_access(s: &[u8], pos: usize, memo: &mut IdentMemo, err: &mut ParseFailure) -> (r: Option<
    (Node<usize>, usize),
>)
    requires
        pos <= s@.len(),
        len_ok(s@),
        old(memo).wf(s@),
    ensures
        final(memo).wf(s@),
        rule_matches(s@, pos as int, r, sp_member_access(s@, pos as int)),
    decreases rem(s@, pos as int), 1int,
{
    reveal(crate::grammar::sp_member_access);
    reveal(crate::grammar::sp_identifier);
    reveal(crate::grammar::sp_member_more);
    match parse_identifier(s, pos, memo, err) {
        None => None,
        Some((id1, e1)) => {
            let (mut rest, e2) = parse_member_more(s, e1, memo, err);
            if rest.len() == 0 {
                err.note(e2, Label::MemberAccess);
                None
            } else {
                let start = node_range(&id1).start;
                let ghost old_rest = rest@;
                rest.insert(0, id1);
                proof {
                    assert(rest@ =~= seq![id1] + old_rest);
                    lemma_cons_view(rest@, id1, old_rest);
                }
                Some(
                    (
                        Node::MemberAccess {
                            parts: rest,
                            range: LRange { start, end: e2 },
                        },
                        e2,
                    ),
                )
            }
        },
    }
}

/// Further `. identifier` links, per [`sp_member_more`].
pub fn parse_member_more(s: &[u8], pos: usize, memo: &mut IdentMemo, err: &mut ParseFailure) -> (r: (
    Vec<Node<usize>>,
    usize,
))
    requires
        pos <= s@.len(),
        len_ok(s@),
        old(memo).wf(s@),
    ensures
        final(memo).wf(s@),
        list_matches(s@, pos as int, r, sp_member_more(s@, pos as int)),
    decreases rem(s@, pos as int), 0int,
{
    reveal(crate::grammar::sp_member_more);
    reveal(crate::grammar::sp_identifier);
    let w = skip_ws(s, pos);
    if w < s.len() && s[w] == DOT {
        match parse_identifier(s, w + 1, memo, err) {
            Some((id, e)) => {
                let (mut rest, e2) = parse_member_more(s, e, memo, err);
                let ghost old_rest = rest@;
                rest.insert(0, id);
                proof {
                    assert(rest@ =~= seq![id] + old_rest);
                    lemma_cons_view(rest@, id, old_rest);
                }
                (rest, e2)
            },
            None => (Vec::new(), pos),
        }
    } else {
        (Vec::new(), pos)
    }
}

/// A raw value, per [`sp_raw_value`].
#[verifier::rlimit(60)]
pub fn parse_raw_value(s: &[u8], pos: usize, memo: &mut IdentMemo, err: &mut ParseFailure) -> (r: Option<
    (Node<usize>, usize),
>)
    requires
        pos <= s@.len(),
        len_ok(s@),
        old(memo).wf(s@),
    ensures
        final(memo).wf(s@),
        rule_matches(s@, pos as int, r, sp_raw_value(s@, pos as int)),
    decreases rem(s@, pos as int), 3int,
{
    reveal(crate::grammar::sp_raw_value);
    reveal(crate::grammar::sp_string);
    reveal(crate::grammar::sp_function_call);
    reveal(crate::grammar::sp_member_access);
    reveal(crate::grammar::sp_identifier);
    reveal(crate::grammar::sp_array);
    reveal(crate::grammar::sp_dict);
    if let Some(r) = parse_string(s, pos, memo, err) {
        return Some(r);
    }
    if let Some(r) = parse_function_call(s, pos, memo, err) {
        return Some(r);
    }
    if let Some(r) = parse_member_access(s, pos, memo, err) {
        return Some(r);
    }
    if let Some(r) = parse_identifier(s, pos, memo, err) {
        return Some(r);
    }
    if let Some(r) = parse_array(s, pos, memo, err) {
        return Some(r);
    }
    if let Some(r) = parse_dict(s, pos, memo, err) {
        return Some(r);
    }
    let p = skip_ws(s, pos);
    match number_lit_at(s, p) {
        Some((num, e)) => Some(
            (Node::Number { num, range: LRange { start: p, end: e } }, e),
        ),
        None => {
            err.note(p, Label::Number);
            None
        },
    }
}

/// An addition chain, per [`sp_addition`].
#[verifier::rlimit(60)]
pub fn parse_addition(s: &[u8], pos: usize, memo: &mut IdentMemo, err: &mut ParseFailure) -> (r: Option<
    (Node<usize>, usize),
>)
    requires
        pos <= s@.len(),
        len_ok(s@),
        old(memo).wf(s@),
    ensures
        final(memo).wf(s@),
        rule_matches(s@, pos as int, r, sp_addition(s@, pos as int)),
    decreases rem(s@, pos as int), 4int,
{
    reveal(crate::grammar::sp_addition);
    reveal(crate::grammar::sp_raw_value);
    reveal(crate::grammar::sp_addition_more);
    match parse_raw_value(s, pos, memo, err) {
        None => None,
        Some((v1, e1)) => {
            let (mut rest, e2) = parse_addition_more(s, e1, memo, err);
            if rest.len() == 0 {
                None
            } else {
                let start = node_range(&v1).start;
                let ghost old_rest = rest@;
                rest.insert(0, v1);
                proof {
                    assert(rest@ =~= seq![v1] + old_rest);
                    lemma_cons_view(rest@, v1, old_rest);
                }
                Some(
                    (
                        Node::Addition {
                            operands: rest,
                            range: LRange { start, end: e2 },
                        },
                        e2,
                    ),
                )
            }
        },
    }
}

/// Further `+ raw-value` links, per [`sp_addition_more`].
pub fn parse_addition_more(s: &[u8], pos: usize, memo: &mut IdentMemo, err: &mut ParseFailure) -> (r: (
    Vec<Node<usize>>,
    usize,
))
    requires
        pos <= s@.len(),
        len_ok(s@),
        old(memo).wf(s@),
    ensures
        final(memo).wf(s@),
        list_matches(s@, pos as int, r, sp_addition_more(s@, pos as int)),
    decreases rem(s@, pos as int), 0int,
{
    reveal(crate::grammar::sp_addition_more);
    reveal(crate::grammar::sp_raw_value);
    let w = skip_ws(s, pos);
    if w < s.len() && s[w] == PLUS {
        match parse_raw_value(s, w + 1, memo, err) {
            Some((v, e)) => {
                let ghost vg = v;
                let (mut rest, e2) = parse_addition_more(s, e, memo, err);
                let ghost old_rest = rest@;
                rest.insert(0, v);
                proof {
                    assert(rest@ =~= seq![vg] + old_rest);
                    lemma_cons_view(rest@, vg, old_rest);
                }
                (rest, e2)
            },
            None => (Vec::new(), pos),
        }
    } else {
        (Vec::new(), pos)
    }
}

/// A value, per [`sp_value`].
pub fn parse_value(s: &[u8], pos: usize, memo: &mut IdentMemo, err: &mut ParseFailure) -> (r: Option<
    (Node<usize>, usize),
>)
    requires
        pos <= s@.len(),
        len_ok(s@),
        old(memo).wf(s@),
    ensures
        final(memo).wf(s@),
        rule_matches(s@, pos as int, r, sp_value(s@, pos as int)),
    decreases rem(s@, pos as int), 5int,
{
    reveal(crate::grammar::sp_value);
    reveal(crate::grammar::sp_addition);
    reveal(crate::grammar::sp_raw_value);
    match parse_addition(s, pos, memo, err) {
        Some(r) => Some(r),
        None => parse_raw_value(s, pos, memo, err),
    }
}

/// A positional argument list, per [`sp_arglist`].
#[verifier::rlimit(60)]
pub fn parse_arglist(s: &[u8], pos: usize, memo: &mut IdentMemo, err: &mut ParseFailure) -> (r: (Node<usize>, usize))
    requires
        pos <= s@.len(),
        len_ok(s@),
        old(memo).wf(s@),
    ensures
        final(memo).wf(s@),
        total_matches(s@, pos as int, r, sp_arglist(s@, pos as int)),
    decreases rem(s@, pos as int), 6int,
{
    reveal(crate::grammar::sp_arglist);
    reveal(crate::grammar::sp_value);
    reveal(crate::grammar::sp_arglist_more);
    match parse_value(s, pos, memo, err) {
        Some((v, e)) => {
            if colon_after(s, e) {
                let node = Node::Arglist {
                    items: Vec::new(),
                    range: LRange { start: pos, end: pos },
                };
                proof {
                    assert(node->Arglist_items@.len() == 0);
                    assert(nodes_view(node->Arglist_items@, raw_rf())
                        == Seq::<SpecNode<int>>::empty());
                    assert(raw_view(node) matches SpecNode::Arglist { items: iv, .. } && iv
                        == Seq::<SpecNode<int>>::empty());
                }
                (node, pos)
            } else {
                let ghost vg = v;
                let (mut rest, e2) = parse_arglist_more(s, e, memo, err);
                let start = node_range(&v).start;
                let ghost old_rest = rest@;
                rest.insert(0, v);
                proof {
                    assert(rest@ =~= seq![vg] + old_rest);
                    lemma_cons_view(rest@, vg, old_rest);
                }
                let node = Node::Arglist { items: rest, range: LRange { start, end: e2 } };
                proof {
                    assert(raw_view(node) matches SpecNode::Arglist { items: iv, .. } && iv
                        == seq![raw_view(vg)] + nodes_view(old_rest, raw_rf()));
                }
                (node, e2)
            }
        },
        None => {
            let node = Node::Arglist {
                items: Vec::new(),
                range: LRange { start: pos, end: pos },
            };
            proof {
                assert(node->Arglist_items@.len() == 0);
                assert(nodes_view(node->Arglist_items@, raw_rf()) == Seq::<SpecNode<int>>::empty());
                assert(raw_view(node) matches SpecNode::Arglist { items: iv, .. } && iv
                    == Seq::<SpecNode<int>>::empty());
            }
            (node, pos)
        },
    }
}

/// Further `, value` links, per [`sp_arglist_more`].
#[verifier::rlimit(60)]
pub fn parse_arglist_more(s: &[u8], pos: usize, memo: &mut IdentMemo, err: &mut ParseFailure) -> (r: (
    Vec<Node<usize>>,
    usize,
))
    requires
        pos <= s@.len(),
        len_ok(s@),
        old(memo).wf(s@),
    ensures
        final(memo).wf(s@),
        list_matches(s@, pos as int, r, sp_arglist_more(s@, pos as int)),
    decreases rem(s@, pos as int), 0int,
{
    reveal(crate::grammar::sp_arglist_more);
    reveal(crate::grammar::sp_value);
    let w = skip_ws(s, pos);
    if w < s.len() && s[w] == COMMA {
        match parse_value(s, w + 1, memo, err) {
            Some((v, e)) => {
                if colon_after(s, e) {
                    (Vec::new(), pos)
                } else {
                    let (mut rest, e2) = parse_arglist_more(s, e, memo, err);
                    let ghost old_rest = rest@;
                    rest.insert(0, v);
                    proof {
                        assert(rest@ =~= seq![v] + old_rest);
                        lemma_cons_view(rest@, v, old_rest);
                    }
                    (rest, e2)
                }
            },
            None => (Vec::new(), pos),
        }
    } else {
        (Vec::new(), pos)
    }
}

/// A key-value pair, per [`sp_kvpair`].
#[verifier::rlimit(60)]
pub fn parse_kvpair(s: &[u8], pos: usize, memo: &mut IdentMemo, err: &mut ParseFailure) -> (r: Option<
    (Node<usize>, usize),
>)
    requires
        pos <= s@.len(),
        len_ok(s@),
        old(memo).wf(s@),
    ensures
        final(memo).wf(s@),
        rule_matches(s@, pos as int, r, sp_kvpair(s@, pos as int)),
    decreases rem(s@, pos as int), 4int,
{
    reveal(crate::grammar::sp_kvpair);
    reveal(crate::grammar::sp_identifier);
    reveal(crate::grammar::sp_value);
    match parse_identifier(s, pos, memo, err) {
        None => None,
        Some((k, e1)) => {
            let p = skip_ws(s, e1);
            if p < s.len() && s[p] == COLON {
                match parse_value(s, p + 1, memo, err) {
                    Some((v, e2)) => {
                        let start = node_range(&k).start;
                        Some(
                            (
                                Node::KeyValue {
                                    key: Box::new(k),
                                    value: Box::new(v),
                                    range: LRange { start, end: e2 },
                                },
                                e2,
                            ),
                        )
                    },
                    None => None,
                }
            } else {
                err.note(p, Label::KeyValue);
                None
            }
        },
    }
}

/// A keyword-argument list, per [`sp_kwarglist`].
#[verifier::rlimit(60)]
pub fn parse_kwarglist(s: &[u8], pos: usize, memo: &mut IdentMemo, err: &mut ParseFailure) -> (r: (Node<usize>, usize))
    requires
        pos <= s@.len(),
        len_ok(s@),
        old(memo).wf(s@),
    ensures
        final(memo).wf(s@),
        total_matches(s@, pos as int, r, sp_kwarglist(s@, pos as int)),
    decreases rem(s@, pos as int), 6int,
{
    reveal(crate::grammar::sp_kwarglist);
    reveal(crate::grammar::sp_kvpair);
    reveal(crate::grammar::sp_kwarglist_more);
    match parse_kvpair(s, pos, memo, err) {
        Some((kv, e)) => {
            let ghost kvg = kv;
            let (mut rest, e2) = parse_kwarglist_more(s, e, memo, err);
            let start = node_range(&kv).start;
            let ghost old_rest = rest@;
            rest.insert(0, kv);
            proof {
                assert(rest@ =~= seq![kvg] + old_rest);
                lemma_cons_view(rest@, kvg, old_rest);
            }
            let node = Node::KwargList { items: rest, range: LRange { start, end: e2 } };
            proof {
                assert(raw_view(node) matches SpecNode::KwargList { items: iv, .. } && iv
                    == seq![raw_view(kvg)] + nodes_view(old_rest, raw_rf()));
            }
            (node, e2)
        },
        None => {
            let node = Node::KwargList {
                items: Vec::new(),
                range: LRange { start: pos, end: pos },
            };
            proof {
                assert(node->KwargList_items@.len() == 0);
                assert(nodes_view(node->KwargList_items@, raw_rf()) == Seq::<SpecNode<int>>::empty());
                assert(raw_view(node) matches SpecNode::KwargList { items: iv, .. } && iv
                    == Seq::<SpecNode<int>>::empty());
            }
            (node, pos)
        },
    }
}

/// Further `, key-value` links, per [`sp_kwarglist_more`].
#[verifier::rlimit(60)]
pub fn parse_kwarglist_more(s: &[u8], pos: usize, memo: &mut IdentMemo, err: &mut ParseFailure) -> (r: (
    Vec<Node<usize>>,
    usize,
))
    requires
        pos <= s@.len(),
        len_ok(s@),
        old(memo).wf(s@),
    ensures
        final(memo).wf(s@),
        list_matches(s@, pos as int, r, sp_kwarglist_more(s@, pos as int)),
    decreases rem(s@, pos as int), 0int,
{
    reveal(crate::grammar::sp_kwarglist_more);
    reveal(crate::grammar::sp_kvpair);
    let w = skip_ws(s, pos);
    if w < s.len() && s[w] == COMMA {
        match parse_kvpair(s, w + 1, memo, err) {
            Some((kv, e)) => {
                let (mut rest, e2) = parse_kwarglist_more(s, e, memo, err);
                let ghost old_rest = rest@;
                rest.insert(0, kv);
                proof {
                    assert(rest@ =~= seq![kv] + old_rest);
                    lemma_cons_view(rest@, kv, old_rest);
                }
                (rest, e2)
            },
            None => (Vec::new(), pos),
        }
    } else {
        (Vec::new(), pos)
    }
}

/// An array literal, per [`sp_array`].
#[verifier::rlimit(60)]
pub fn parse_array(s: &[u8], pos: usize, memo: &mut IdentMemo, err: &mut ParseFailure) -> (r: Option<
    (Node<usize>, usize),
>)
    requires
        pos <= s@.len(),
        len_ok(s@),
        old(memo).wf(s@),
    ensures
        final(memo).wf(s@),
        rule_matches(s@, pos as int, r, sp_array(s@, pos as int)),
    decreases rem(s@, pos as int), 0int,
{
    reveal(crate::grammar::sp_array);
    reveal(crate::grammar::sp_arglist);
    let p = skip_ws(s, pos);
    if p < s.len() && s[p] == LBRACK {
        let (args, e) = parse_arglist(s, p + 1, memo, err);
        let q = skip_ws(s, e);
        if q < s.len() && s[q] == RBRACK {
            Some(
                (
                    Node::Array {
                        inner: Box::new(args),
                        range: LRange { start: p, end: q + 1 },
                    },
                    q + 1,
                ),
            )
        } else {
            err.note(q, Label::Array);
            None
        }
    } else {
        err.note(p, Label::Array);
        None
    }
}

/// A dictionary literal, per [`sp_dict`].
#[verifier::rlimit(60)]
pub fn parse_dict(s: &[u8], pos: usize, memo: &mut IdentMemo, err: &mut ParseFailure) -> (r: Option<
    (Node<usize>, usize),
>)
    requires
        pos <= s@.len(),
        len_ok(s@),
        old(memo).wf(s@),
    ensures
        final(memo).wf(s@),
        rule_matches(s@, pos as int, r, sp_dict(s@, pos as int)),
    decreases rem(s@, pos as int), 0int,
{
    reveal(crate::grammar::sp_dict);
    reveal(crate::grammar::sp_kwarglist);
    let p = skip_ws(s, pos);
    if p < s.len() && s[p] == LBRACE {
        let (kwargs, e) = parse_kwarglist(s, p + 1, memo, err);
        let q = skip_ws(s, e);
        if q < s.len() && s[q] == RBRACE {
            Some(
                (
                    Node::Dict {
                        inner: Box::new(kwargs),
                        range: LRange { start: p, end: q + 1 },
                    },
                    q + 1,
                ),
            )
        } else {
            err.note(q, Label::Dict);
            None
        }
    } else {
        err.note(p, Label::Dict);
        None
    }
}

/// The part of a function call after its callee, per [`sp_call_after`].
#[verifier::rlimit(100)]
#[verifier::spinoff_prover]
fn parse_call_after(
    s: &[u8],
    pos: usize,
    callee: Node<usize>,
    e1: usize,
    memo: &mut IdentMemo,
    err: &mut ParseFailure,
) -> (r: Option<(Node<usize>, usize)>)
    requires
        pos <= e1 <= s@.len(),
        len_ok(s@),
        old(memo).wf(s@),
    ensures
        final(memo).wf(s@),
        rule_matches(
            s@,
            pos as int,
            r,
            sp_call_after(s@, pos as int, raw_view(callee), (e1 - pos) as nat),
        ),
    decreases rem(s@, pos as int), 1int,
{
    reveal(crate::grammar::sp_call_after);
    reveal(crate::grammar::sp_arglist);
    reveal(crate::grammar::sp_kwarglist);
    let ghost cg = callee;
    let p = skip_ws(s, e1);
    if p < s.len() && s[p] == LPAREN {
        let (args, e2) = parse_arglist(s, p + 1, memo, err);
        let ghost ag = args;
        let p2 = skip_ws(s, e2);
        let has_kw = p2 < s.len() && s[p2] == COMMA;
        let (kwargs, e3) = if has_kw {
            parse_kwarglist(s, p2 + 1, memo, err)
        } else {
            (Node::Empty { range: LRange { start: e2, end: e2 } }, e2)
        };
        let ghost kg = kwargs;
        let q = skip_ws(s, e3);
        if q < s.len() && s[q] == RPAREN {
            let start = node_range(&callee).start;
            let node = Node::Function {
                callee: Box::new(callee),
                args: Box::new(args),
                kwargs: Box::new(kwargs),
                range: LRange { start, end: q + 1 },
            };
            proof {
                assert(raw_view(node) matches SpecNode::Function {
                    callee: c2,
                    args: a2,
                    kwargs: k2,
                    range: rg,
                } && *c2 == raw_view(cg) && *a2 == raw_view(ag) && *k2 == raw_view(kg)
                    && rg.start == start && rg.end == q + 1);
            }
            Some((node, q + 1))
        } else {
            err.note(q, Label::FunctionCall);
            None
        }
    } else {
        err.note(p, Label::FunctionCall);
        None
    }
}

/// A function call, per [`sp_function_call`].
#[verifier::rlimit(60)]
pub fn parse_function_call(s: &[u8], pos: usize, memo: &mut IdentMemo, err: &mut ParseFailure) -> (r: Option<
    (Node<usize>, usize),
>)
    requires
        pos <= s@.len(),
        len_ok(s@),
        old(memo).wf(s@),
    ensures
        final(memo).wf(s@),
        rule_matches(s@, pos as int, r, sp_function_call(s@, pos as int)),
    decreases rem(s@, pos as int), 2int,
{
    reveal(crate::grammar::sp_function_call);
    reveal(crate::grammar::sp_member_access);
    reveal(crate::grammar::sp_identifier);
    reveal(crate::grammar::sp_call_after);
    let callee_r = match parse_member_access(s, pos, memo, err) {
        Some(r) => Some(r),
        None => parse_identifier(s, pos, memo, err),
    };
    match callee_r {
        None => None,
        Some((callee, e1)) => parse_call_after(s, pos, callee, e1, memo, err),
    }
}

/// An assignment, per [`sp_assignment`].
#[verifier::rlimit(60)]
pub fn parse_assignment(s: &[u8], pos: usize, memo: &mut IdentMemo, err: &mut ParseFailure) -> (r: Option<
    (Node<usize>, usize),
>)
    requires
        pos <= s@.len(),
        len_ok(s@),
        old(memo).wf(s@),
    ensures
        final(memo).wf(s@),
        rule_matches(s@, pos as int, r, sp_assignment(s@, pos as int)),
    decreases rem(s@, pos as int), 2int,
{
    reveal(crate::grammar::sp_assignment);
    reveal(crate::grammar::sp_member_access);
    reveal(crate::grammar::sp_identifier);
    reveal(crate::grammar::sp_value);
    let target_r = match parse_member_access(s, pos, memo, err) {
        Some(r) => Some(r),
        None => parse_identifier(s, pos, memo, err),
    };
    match target_r {
        None => None,
        Some((target, e1)) => {
            let p = skip_ws(s, e1);
            if p < s.len() && s[p] == EQUALS {
                match parse_value(s, p + 1, memo, err) {
                    Some((v, e2)) => {
                        let start = node_range(&target).start;
                        Some(
                            (
                                Node::Assignment {
                                    target: Box::new(target),
                                    value: Box::new(v),
                                    range: LRange { start, end: e2 },
                                },
                                e2,
                            ),
                        )
                    },
                    None => None,
                }
            } else {
                err.note(p, Label::Assignment);
                None
            }
        },
    }
}

/// A plus-assignment, per [`sp_plus_assignment`]. A standalone rule: the
/// instruction production does not reach it.
#[verifier::rlimit(60)]
pub fn parse_plus_assignment(s: &[u8], pos: usize, memo: &mut IdentMemo, err: &mut ParseFailure) -> (r: Option<
    (Node<usize>, usize),
>)
    requires
        pos <= s@.len(),
        len_ok(s@),
        old(memo).wf(s@),
    ensures
        final(memo).wf(s@),
        rule_matches(s@, pos as int, r, sp_plus_assignment(s@, pos as int)),
    decreases rem(s@, pos as int), 2int,
{
    reveal(crate::grammar::sp_plus_assignment);
    reveal(crate::grammar::sp_member_access);
    reveal(crate::grammar::sp_identifier);
    reveal(crate::grammar::sp_value);
    let target_r = match parse_member_access(s, pos, memo, err) {
        Some(r) => Some(r),
        None => parse_identifier(s, pos, memo, err),
    };
    match target_r {
        None => None,
        Some((target, e1)) => {
            let p = skip_ws(s, e1);
            if p + 1 < s.len() && s[p] == PLUS && s[p + 1] == EQUALS {
                match parse_value(s, p + 2, memo, err) {
                    Some((v, e2)) => {
                        let start = node_range(&target).start;
                        Some(
                            (
                                Node::PlusAssignment {
                                    target: Box::new(target),
                                    value: Box::new(v),
                                    range: LRange { start, end: e2 },
                                },
                                e2,
                            ),
                        )
                    },
                    None => None,
                }
            } else {
                err.note(p, Label::Assignment);
                None
            }
        },
    }
}

/// An instruction, per [`sp_instruction`].
pub fn parse_instruction(s: &[u8], pos: usize, memo: &mut IdentMemo, err: &mut ParseFailure) -> (r: Option<
    (Node<usize>, usize),
>)
    requires
        pos <= s@.len(),
        len_ok(s@),
        old(memo).wf(s@),
    ensures
        final(memo).wf(s@),
        rule_matches(s@, pos as int, r, sp_instruction(s@, pos as int)),
    decreases rem(s@, pos as int), 8int,
{
    reveal(crate::grammar::sp_instruction);
    reveal(crate::grammar::sp_function_call);
    reveal(crate::grammar::sp_assignment);
    match parse_function_call(s, pos, memo, err) {
        Some(r) => Some(r),
        None => parse_assignment(s, pos, memo, err),
    }
}

/// The entry production, per [`sp_code_block`].
#[verifier::rlimit(60)]
pub fn parse_code_block(s: &[u8], pos: usize, memo: &mut IdentMemo, err: &mut ParseFailure) -> (r: (Node<usize>, usize))
    requires
        pos <= s@.len(),
        len_ok(s@),
        old(memo).wf(s@),
    ensures
        final(memo).wf(s@),
        total_matches(s@, pos as int, r, sp_code_block(s@, pos as int)),
    decreases rem(s@, pos as int), 9int,
{
    reveal(crate::grammar::sp_code_block);
    reveal(crate::grammar::sp_instruction);
    reveal(crate::grammar::sp_block_more);
    let w = skip_ws(s, pos);
    match parse_instruction(s, w, memo, err) {
        Some((i1, e1)) => {
            let ghost ig = i1;
            let (mut rest, e2) = parse_block_more(s, e1, memo, err);
            let start = node_range(&i1).start;
            let ghost old_rest = rest@;
            rest.insert(0, i1);
            proof {
                assert(rest@ =~= seq![ig] + old_rest);
                lemma_cons_view(rest@, ig, old_rest);
            }
            let node = Node::CodeBlock { items: rest, range: LRange { start, end: e2 } };
            proof {
                assert(raw_view(node) matches SpecNode::CodeBlock { items: iv, .. } && iv
                    == seq![raw_view(ig)] + nodes_view(old_rest, raw_rf()));
            }
            (node, e2)
        },
        None => {
            let node = Node::CodeBlock {
                items: Vec::new(),
                range: LRange { start: pos, end: pos },
            };
            proof {
                assert(node->CodeBlock_items@.len() == 0);
                assert(nodes_view(node->CodeBlock_items@, raw_rf()) == Seq::<SpecNode<int>>::empty());
                assert(raw_view(node) matches SpecNode::CodeBlock { items: iv, .. } && iv
                    == Seq::<SpecNode<int>>::empty());
            }
            (node, pos)
        },
    }
}

/// Further newline-separated instructions, per [`sp_block_more`].
#[verifier::rlimit(60)]
pub fn parse_block_more(s: &[u8], pos: usize, memo: &mut IdentMemo, err: &mut ParseFailure) -> (r: (
    Vec<Node<usize>>,
    usize,
))
    requires
        pos <= s@.len(),
        len_ok(s@),
        old(memo).wf(s@),
    ensures
        final(memo).wf(s@),
        list_matches(s@, pos as int, r, sp_block_more(s@, pos as int)),
    decreases rem(s@, pos as int), 1int,
{
    reveal(crate::grammar::sp_block_more);
    reveal(crate::grammar::sp_instruction);
    let p = skip_inline_ws(s, pos);
    if p < s.len() && s[p] == NL {
        let w = skip_ws(s, p + 1);
        match parse_instruction(s, w, memo, err) {
            Some((ins, e)) => {
                let (mut rest, e2) = parse_block_more(s, e, memo, err);
                let ghost old_rest = rest@;
                rest.insert(0, ins);
                proof {
                    assert(rest@ =~= seq![ins] + old_rest);
                    lemma_cons_view(rest@, ins, old_rest);
                }
                (rest, e2)
            },
            None => (Vec::new(), pos),
        }
    } else {
        (Vec::new(), pos)
    }
}

/// Parses a whole buffer: the root code block when the grammar consumes all
/// of `s` (up to trailing whitespace), else the structured failure with the
/// furthest offset reached and the constructs expected there.
pub fn parse(s: &[u8]) -> (r: Result<Node<usize>, ParseFailure>)
    requires
        len_ok(s@),
    ensures
        match r {
            Ok(t) => sp_parse(s@) == Some(raw_view(t)),
            Err(_) => sp_parse(s@) is None,
        },
{
    reveal(crate::grammar::sp_parse);
    reveal(crate::grammar::sp_code_block);
    let mut err = ParseFailure::empty();
    let mut memo = IdentMemo::new(s.len());
    let (root, e) = parse_code_block(s, 0, &mut memo, &mut err);
    let w = skip_ws(s, e);
    if w == s.len() {
        Ok(root)
    } else {
        err.note(w, Label::EndOfInput);
        Err(err)
    }
}

} // verus!
