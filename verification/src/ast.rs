//! The syntax tree: a closed union of node kinds, each carrying a source
//! range, parameterized over the range representation (`usize` byte offsets
//! while parsing, [`Location`] pairs after resolution), together with its
//! ghost mirror used in contracts.

use vstd::prelude::*;

use crate::utils::LRange;
#[allow(unused_imports)]
use crate::utils::Location;

verus! {

broadcast use vstd::std_specs::vec::group_vec_axioms;

/// The four literal number forms the grammar recognizes.
#[derive(Copy, Clone, Debug, PartialEq, Eq, Structural)]
pub enum NumForm {
    Decimal,
    Octal,
    Hex,
    Float,
}

/// A number literal, kept exactly: sign, form, and the raw ASCII digits
/// (integer part and, for floats, fractional part). The digits are stored
/// verbatim so no precision is lost; the mathematical value is defined by
/// [`num_mantissa`] and [`num_denominator`].
#[derive(Clone, Debug, PartialEq, Eq)]
pub struct NumberLit {
    pub neg: bool,
    pub form: NumForm,
    pub int_digits: Vec<u8>,
    pub frac_digits: Vec<u8>,
}

/// Ghost mirror of [`NumberLit`].
pub struct SpecNum {
    pub neg: bool,
    pub form: NumForm,
    pub int_digits: Seq<u8>,
    pub frac_digits: Seq<u8>,
}

impl NumberLit {
    pub open spec fn view(&self) -> SpecNum {
        SpecNum {
            neg: self.neg,
            form: self.form,
            int_digits: self.int_digits@,
            frac_digits: self.frac_digits@,
        }
    }
}

/// A syntax tree node. `L` is the range representation: a raw byte offset
/// directly after parsing, a resolved [`Location`] after resolution.
#[derive(Debug, PartialEq)]
pub enum Node<L> {
    /// A bare name.
    Identifier { text: Vec<u8>, range: LRange<L> },
    /// A string literal, escapes already decoded.
    Str { text: Vec<u8>, range: LRange<L> },
    /// A number literal.
    Number { num: NumberLit, range: LRange<L> },
    /// A positional argument sequence.
    Arglist { items: Vec<Node<L>>, range: LRange<L> },
    /// A `[ ... ]` literal; the inner node is an `Arglist`.
    Array { inner: Box<Node<L>>, range: LRange<L> },
    /// A `key: value` pair.
    KeyValue { key: Box<Node<L>>, value: Box<Node<L>>, range: LRange<L> },
    /// A keyword-argument sequence of `KeyValue` nodes.
    KwargList { items: Vec<Node<L>>, range: LRange<L> },
    /// A `{ ... }` literal; the inner node is a `KwargList`.
    Dict { inner: Box<Node<L>>, range: LRange<L> },
    /// A flattened chain of `+` operands, always holding two or more.
    Addition { operands: Vec<Node<L>>, range: LRange<L> },
    /// A flattened chain of `.` accesses: two or more `Identifier`s.
    MemberAccess { parts: Vec<Node<L>>, range: LRange<L> },
    /// A call: callee, an `Arglist`, and a `KwargList` or `Empty`.
    Function {
        callee: Box<Node<L>>,
        args: Box<Node<L>>,
        kwargs: Box<Node<L>>,
        range: LRange<L>,
    },
    /// `target = value`.
    Assignment { target: Box<Node<L>>, value: Box<Node<L>>, range: LRange<L> },
    /// `target += value`.
    PlusAssignment { target: Box<Node<L>>, value: Box<Node<L>>, range: LRange<L> },
    /// The root production: a sequence of instructions.
    CodeBlock { items: Vec<Node<L>>, range: LRange<L> },
    /// Placeholder for an absent optional sub-tree.
    Empty { range: LRange<L> },
}

/// Ghost mirror of [`Node`], over an arbitrary range representation `B`.
pub enum SpecNode<B> {
    Identifier { text: Seq<u8>, range: LRange<B> },
    Str { text: Seq<u8>, range: LRange<B> },
    Number { num: SpecNum, range: LRange<B> },
    Arglist { items: Seq<SpecNode<B>>, range: LRange<B> },
    Array { inner: Box<SpecNode<B>>, range: LRange<B> },
    KeyValue { key: Box<SpecNode<B>>, value: Box<SpecNode<B>>, range: LRange<B> },
    KwargList { items: Seq<SpecNode<B>>, range: LRange<B> },
    Dict { inner: Box<SpecNode<B>>, range: LRange<B> },
    Addition { operands: Seq<SpecNode<B>>, range: LRange<B> },
    MemberAccess { parts: Seq<SpecNode<B>>, range: LRange<B> },
    Function {
        callee: Box<SpecNode<B>>,
        args: Box<SpecNode<B>>,
        kwargs: Box<SpecNode<B>>,
        range: LRange<B>,
    },
    Assignment { target: Box<SpecNode<B>>, value: Box<SpecNode<B>>, range: LRange<B> },
    PlusAssignment { target: Box<SpecNode<B>>, value: Box<SpecNode<B>>, range: LRange<B> },
    CodeBlock { items: Seq<SpecNode<B>>, range: LRange<B> },
    Empty { range: LRange<B> },
}

pub open spec fn map_lrange<A, B>(r: LRange<A>, f: spec_fn(A) -> B) -> LRange<B> {
    LRange { start: f(r.start), end: f(r.end) }
}

/// The ghost values of a sequence of trees, in order.
pub open spec fn nodes_view<A, B>(ns: Seq<Node<A>>, f: spec_fn(A) -> B) -> Seq<SpecNode<B>>
    decreases ns,
{
    if ns.len() == 0 {
        Seq::empty()
    } else {
        seq![node_view(ns[0], f)] + nodes_view(ns.subrange(1, ns.len() as int), f)
    }
}

/// The ghost value of a tree, with every range mapped through `f`.
pub open spec fn node_view<A, B>(n: Node<A>, f: spec_fn(A) -> B) -> SpecNode<B>
    decreases n,
{
    match n {
        Node::Identifier { text, range } => SpecNode::Identifier {
            text: text@,
            range: map_lrange(range, f),
        },
        Node::Str { text, range } => SpecNode::Str { text: text@, range: map_lrange(range, f) },
        Node::Number { num, range } => SpecNode::Number {
            num: num@,
            range: map_lrange(range, f),
        },
        Node::Arglist { items, range } => SpecNode::Arglist {
            items: nodes_view(items@, f),
            range: map_lrange(range, f),
        },
        Node::Array { inner, range } => SpecNode::Array {
            inner: Box::new(node_view(*inner, f)),
            range: map_lrange(range, f),
        },
        Node::KeyValue { key, value, range } => SpecNode::KeyValue {
            key: Box::new(node_view(*key, f)),
            value: Box::new(node_view(*value, f)),
            range: map_lrange(range, f),
        },
        Node::KwargList { items, range } => SpecNode::KwargList {
            items: nodes_view(items@, f),
            range: map_lrange(range, f),
        },
        Node::Dict { inner, range } => SpecNode::Dict {
            inner: Box::new(node_view(*inner, f)),
            range: map_lrange(range, f),
        },
        Node::Addition { operands, range } => SpecNode::Addition {
            operands: nodes_view(operands@, f),
            range: map_lrange(range, f),
        },
        Node::MemberAccess { parts, range } => SpecNode::MemberAccess {
            parts: nodes_view(parts@, f),
            range: map_lrange(range, f),
        },
        Node::Function { callee, args, kwargs, range } => SpecNode::Function {
            callee: Box::new(node_view(*callee, f)),
            args: Box::new(node_view(*args, f)),
            kwargs: Box::new(node_view(*kwargs, f)),
            range: map_lrange(range, f),
        },
        Node::Assignment { target, value, range } => SpecNode::Assignment {
            target: Box::new(node_view(*target, f)),
            value: Box::new(node_view(*value, f)),
            range: map_lrange(range, f),
        },
        Node::PlusAssignment { target, value, range } => SpecNode::PlusAssignment {
            target: Box::new(node_view(*target, f)),
            value: Box::new(node_view(*value, f)),
            range: map_lrange(range, f),
        },
        Node::CodeBlock { items, range } => SpecNode::CodeBlock {
            items: nodes_view(items@, f),
            range: map_lrange(range, f),
        },
        Node::Empty { range } => SpecNode::Empty { range: map_lrange(range, f) },
    }
}

/// The range mapping of the offset-annotated tree's view: widening to `int`.
pub open spec fn raw_rf() -> spec_fn(usize) -> int {
    |u: usize| u as int
}

/// The range mapping of the resolved tree's view.
pub open spec fn loc_rf() -> spec_fn(Location<usize>) -> Location<int> {
    |l: Location<usize>| Location { line: l.line as int, col: l.col as int }
}

/// The view of an offset-annotated tree: ranges widened to `int`.
pub open spec fn raw_view(n: Node<usize>) -> SpecNode<int> {
    node_view(n, raw_rf())
}

/// The view of a resolved tree: line/column pairs widened to `int`.
pub open spec fn loc_view(n: Node<Location<usize>>) -> SpecNode<Location<int>> {
    node_view(n, loc_rf())
}


/// The value of a digit string read in `base`, by positional notation.
pub open spec fn digits_value(ds: Seq<u8>, base: nat) -> nat
    decreases ds.len(),
{
    if ds.len() == 0 {
        0
    } else {
        digits_value(ds.drop_last(), base) * base + crate::grammar::digit_val(ds.last())
    }
}

/// Ten to the `k`.
pub open spec fn pow10(k: nat) -> nat
    decreases k,
{
    if k == 0 {
        1
    } else {
        10 * pow10((k - 1) as nat)
    }
}

/// The magnitude of a number literal's numerator: all its digits, integer
/// part then fractional part, read in the form's base (the fractional part
/// is empty for the integer forms). The literal's value is this numerator
/// over [`num_denominator`], negated when `neg` is set.
pub open spec fn num_mantissa(n: SpecNum) -> nat {
    digits_value(n.int_digits + n.frac_digits, crate::grammar::form_base(n.form))
}

/// The denominator of a number literal's value: ten to the number of
/// fractional digits (one for the integer forms).
pub open spec fn num_denominator(n: SpecNum) -> nat {
    pow10(n.frac_digits.len())
}

proof fn lemma_digits_value_prefix_le(ds: Seq<u8>, i: int, base: nat)
    requires
        0 <= i <= ds.len(),
        base >= 1,
    ensures
        digits_value(ds.subrange(0, i), base) <= digits_value(ds, base),
    decreases ds.len() - i,
{
    if i == ds.len() {
        assert(ds.subrange(0, i) =~= ds);
    } else {
        lemma_digits_value_prefix_le(ds, i + 1, base);
        let a = digits_value(ds.subrange(0, i), base);
        assert(ds.subrange(0, i + 1).drop_last() =~= ds.subrange(0, i));
        assert(digits_value(ds.subrange(0, i + 1), base) == a * base + crate::grammar::digit_val(
            ds[i],
        ));
        assert(a * base >= a) by (nonlinear_arith)
            requires
                base >= 1,
                a >= 0,
        ;
    }
}

proof fn lemma_pow10_le(j: nat, k: nat)
    requires
        j <= k,
    ensures
        pow10(j) <= pow10(k),
    decreases k,
{
    if j < k {
        lemma_pow10_le(j, (k - 1) as nat);
        assert(pow10((k - 1) as nat) >= 1) by {
            lemma_pow10_pos((k - 1) as nat);
        }
    }
}

proof fn lemma_pow10_pos(k: nat)
    ensures
        pow10(k) >= 1,
    decreases k,
{
    if k > 0 {
        lemma_pow10_pos((k - 1) as nat);
    }
}

impl NumberLit {
    /// The exact value of the literal as a sign, a numerator magnitude, and
    /// a denominator (a power of ten): succeeds exactly when both fit in 64
    /// bits. `"0o644"` yields `(false, 420, 1)`; `"1.5"` yields
    /// `(false, 15, 10)`.
    pub fn value_parts(&self) -> (r: Option<(bool, u64, u64)>)
        ensures
            r matches Some((neg, m, d)) ==> neg == self.neg && m == num_mantissa(self@) && d
                == num_denominator(self@),
            r is Some <==> num_mantissa(self@) <= u64::MAX && num_denominator(self@)
                <= u64::MAX,
    {
        let base: u64 = match self.form {
            NumForm::Decimal => 10,
            NumForm::Octal => 8,
            NumForm::Hex => 16,
            NumForm::Float => 10,
        };
        let mut ds: Vec<u8> = Vec::new();
        let mut i: usize = 0;
        while i < self.int_digits.len()
            invariant
                i <= self.int_digits@.len(),
                ds@ == self.int_digits@.subrange(0, i as int),
            decreases self.int_digits@.len() - i,
        {
            ds.push(self.int_digits[i]);
            i = i + 1;
            proof {
                assert(self.int_digits@.subrange(0, i as int) =~= self.int_digits@.subrange(
                    0,
                    i - 1,
                ).push(self.int_digits@[i - 1]));
            }
        }
        proof {
            assert(ds@ =~= self.int_digits@);
        }
        {
            let mut j: usize = 0;
            while j < self.frac_digits.len()
                invariant
                    j <= self.frac_digits@.len(),
                    ds@ == self.int_digits@ + self.frac_digits@.subrange(0, j as int),
                decreases self.frac_digits@.len() - j,
            {
                ds.push(self.frac_digits[j]);
                j = j + 1;
                proof {
                    assert(self.int_digits@ + self.frac_digits@.subrange(0, j as int)
                        =~= (self.int_digits@ + self.frac_digits@.subrange(0, j - 1)).push(
                        self.frac_digits@[j - 1],
                    ));
                }
            }
            proof {
                assert(ds@ =~= self.int_digits@ + self.frac_digits@);
            }
        }
        let ghost full = ds@;
        let ghost b = base as nat;
        proof {
            assert(full == self@.int_digits + self@.frac_digits);
            assert(b == crate::grammar::form_base(self@.form));
        }
        let mut acc: u64 = 0;
        let mut k: usize = 0;
        while k < ds.len()
            invariant
                k <= ds@.len(),
                ds@ == full,
                base == 8 || base == 10 || base == 16,
                b == base as nat,
                full == self@.int_digits + self@.frac_digits,
                b == crate::grammar::form_base(self@.form),
                acc as nat == digits_value(full.subrange(0, k as int), b),
            decreases ds@.len() - k,
        {
            let d = crate::parse::digit_byte_value(ds[k]);
            let wide: u128 = (acc as u128) * (base as u128) + (d as u128);
            proof {
                assert(full.subrange(0, k as int + 1).drop_last() =~= full.subrange(0, k as int));
                assert(digits_value(full.subrange(0, k as int + 1), b) == (acc as nat) * b
                    + crate::grammar::digit_val(full[k as int]));
            }
            if wide > u64::MAX as u128 {
                proof {
                    lemma_digits_value_prefix_le(full, k as int + 1, b);
                }
                return None;
            }
            acc = wide as u64;
            k = k + 1;
        }
        proof {
            assert(full.subrange(0, full.len() as int) =~= full);
        }
        let scale = self.frac_digits.len();
        let mut den: u64 = 1;
        let mut t: usize = 0;
        while t < scale
            invariant
                t <= scale,
                scale == self@.frac_digits.len(),
                den as nat == pow10(t as nat),
            decreases scale - t,
        {
            let wide: u128 = (den as u128) * 10;
            if wide > u64::MAX as u128 {
                proof {
                    assert(pow10(t as nat + 1) == 10 * pow10(t as nat));
                    lemma_pow10_le(t as nat + 1, scale as nat);
                }
                return None;
            }
            den = wide as u64;
            t = t + 1;
        }
        Some((self.neg, acc, den))
    }
}

} // verus!
