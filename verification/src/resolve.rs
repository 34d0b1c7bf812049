//! Range resolution: a precomputed index of line-start offsets, resolved by
//! binary search, and a structure-preserving traversal that rewrites every
//! raw offset range of a freshly parsed tree into a line/column range.

use vstd::prelude::*;

use crate::ast::{loc_rf, loc_view, node_view, nodes_view, raw_rf, raw_view, Node, SpecNode};
use crate::utils::{
    line_start, nl_count, spec_col, spec_line, LRange, Location, NL,
};

verus! {

broadcast use vstd::std_specs::vec::group_vec_axioms;

/// The line-start offsets of the first `n` bytes of `s`: offset 0, then one
/// entry directly after each line feed.
pub open spec fn line_starts(s: Seq<u8>, n: int) -> Seq<int>
    decreases n,
{
    if n <= 0 {
        seq![0]
    } else if s[n - 1] == NL {
        line_starts(s, n - 1).push(n)
    } else {
        line_starts(s, n - 1)
    }
}

/// The facts binary search needs about [`line_starts`]: its length, its
/// bounds, that it is strictly increasing, and that the entry at index
/// `nl_count(s, off)` is the start of the line containing `off` while the
/// next entry (if any) lies beyond `off`.
pub proof fn lemma_line_starts(s: Seq<u8>, n: int)
    requires
        0 <= n <= s.len(),
    ensures
        line_starts(s, n).len() == nl_count(s, n) + 1,
        forall|j: int| 0 <= j < line_starts(s, n).len() ==> 0 <= #[trigger] line_starts(s, n)[j]
            <= n,
        forall|j1: int, j2: int|
            0 <= j1 < j2 < line_starts(s, n).len() ==> #[trigger] line_starts(s, n)[j1]
                < #[trigger] line_starts(s, n)[j2],
        forall|off: int| 0 <= off <= n ==> #[trigger] line_starts(s, n)[nl_count(s, off) as int]
            == line_start(s, off),
        forall|off: int|
            0 <= off <= n && nl_count(s, off) + 1 < line_starts(s, n).len()
                ==> #[trigger] line_starts(s, n)[nl_count(s, off) as int + 1] > off,
    decreases n,
{
    if n > 0 {
        lemma_line_starts(s, n - 1);
        crate::utils::lemma_nl_count_le(s, n - 1);
        assert forall|off: int| 0 <= off <= n implies #[trigger] line_starts(s, n)[nl_count(
            s,
            off,
        ) as int] == line_start(s, off) by {
            if off < n {
                assert(nl_count(s, off) <= nl_count(s, n - 1)) by {
                    lemma_nl_count_mono(s, off, n - 1);
                }
            }
        }
        assert forall|off: int|
            0 <= off <= n && nl_count(s, off) + 1 < line_starts(s, n).len() implies #[trigger] line_starts(
            s,
            n,
        )[nl_count(s, off) as int + 1] > off by {
            if off < n {
                assert(nl_count(s, off) <= nl_count(s, n - 1)) by {
                    lemma_nl_count_mono(s, off, n - 1);
                }
            }
        }
    }
}

/// `nl_count` does not decrease as the offset grows.
pub proof fn lemma_nl_count_mono(s: Seq<u8>, a: int, b: int)
    requires
        0 <= a <= b,
    ensures
        nl_count(s, a) <= nl_count(s, b),
    decreases b - a,
{
    if a < b {
        lemma_nl_count_mono(s, a, b - 1);
    }
}

/// A precomputed, per-buffer index of line-start offsets: resolving an
/// offset is then a binary search rather than a rescan of the buffer.
pub struct LineIndex {
    pub starts: Vec<usize>,
    pub len: usize,
    pub src: Ghost<Seq<u8>>,
}

impl LineIndex {
    /// The index matches its buffer: one entry per line, each the line's
    /// start offset.
    pub open spec fn wf(&self) -> bool {
        let s = self.src@;
        &&& s.len() < usize::MAX
        &&& self.len == s.len()
        &&& self.starts@.len() == line_starts(s, s.len() as int).len()
        &&& forall|j: int|
            0 <= j < self.starts@.len() ==> #[trigger] self.starts@[j] as int == line_starts(
                s,
                s.len() as int,
            )[j]
    }

    /// Builds the index for `s` in one pass.
    pub fn new(s: &[u8]) -> (r: LineIndex)
        requires
            s@.len() < usize::MAX,
        ensures
            r.wf(),
            r.src@ == s@,
    {
        let mut starts: Vec<usize> = Vec::new();
        starts.push(0);
        let mut i: usize = 0;
        while i < s.len()
            invariant
                i <= s@.len(),
                s@.len() < usize::MAX,
                starts@.len() == line_starts(s@, i as int).len(),
                forall|j: int|
                    0 <= j < starts@.len() ==> #[trigger] starts@[j] as int == line_starts(
                        s@,
                        i as int,
                    )[j],
            decreases s@.len() - i,
        {
            if s[i] == NL {
                starts.push(i + 1);
            }
            i = i + 1;
        }
        LineIndex { starts, len: s.len(), src: Ghost(s@) }
    }

    /// Resolves an offset to its 1-indexed line and column by binary search:
    /// the same result as [`Location::from_offset`], in logarithmic time.
    pub fn resolve(&self, off: usize) -> (r: Location<usize>)
        requires
            self.wf(),
            off <= self.src@.len(),
        ensures
            r.line == spec_line(self.src@, off as int),
            r.col == spec_col(self.src@, off as int),
    {
        let ghost s = self.src@;
        let ghost n = s.len() as int;
        proof {
            lemma_line_starts(s, n);
            crate::utils::lemma_nl_count_le(s, off as int);
            crate::utils::lemma_line_start_bounds(s, off as int);
        }
        let ghost target = nl_count(s, off as int) as int;
        proof {
            lemma_nl_count_mono(s, off as int, n);
            assert(nl_count(s, 0) == 0 && line_start(s, 0) == 0);
            assert(line_starts(s, n)[0] == 0);
        }
        let mut lo: usize = 0;
        let mut hi: usize = self.starts.len();
        while hi - lo > 1
            invariant
                self.wf(),
                off <= self.src@.len(),
                s == self.src@,
                n == s.len() as int,
                lo < hi <= self.starts@.len(),
                self.starts@[lo as int] <= off,
                hi < self.starts@.len() ==> self.starts@[hi as int] > off,
                target == nl_count(s, off as int) as int,
                lo <= target < hi,
            decreases hi - lo,
        {
            let mid = lo + (hi - lo) / 2;
            proof {
                lemma_line_starts(s, n);
                crate::utils::lemma_nl_count_le(s, off as int);
                crate::utils::lemma_line_start_bounds(s, off as int);
                lemma_nl_count_mono(s, off as int, n);
                if self.starts@[mid as int] <= off {
                    assert(line_starts(s, n)[mid as int] <= off);
                    if mid > target {
                        assert(line_starts(s, n)[target + 1] > off);
                        assert(line_starts(s, n)[target + 1] <= line_starts(s, n)[mid as int]) by {
                            if target + 1 < mid {
                                assert(line_starts(s, n)[target + 1] < line_starts(
                                    s,
                                    n,
                                )[mid as int]);
                            }
                        }
                        assert(false);
                    }
                } else {
                    if mid <= target {
                        assert(line_starts(s, n)[mid as int] <= line_starts(s, n)[target]) by {
                            if mid < target {
                                assert(line_starts(s, n)[mid as int] < line_starts(s, n)[target]);
                            }
                        }
                        assert(line_starts(s, n)[target] == line_start(s, off as int));
                        assert(false);
                    }
                }
            }
            if self.starts[mid] <= off {
                lo = mid;
            } else {
                hi = mid;
            }
        }
        proof {
            lemma_line_starts(s, n);
            assert(lo == target);
            assert(self.starts@[lo as int] as int == line_start(s, off as int));
        }
        let base = self.starts[lo];
        Location { line: lo + 1, col: off - base + 1 }
    }
}

/// Every range in the tree is ordered and lies within the buffer.
pub open spec fn ranges_ok(n: SpecNode<int>, len: int) -> bool
    decreases n,
{
    let r = crate::grammar::sn_range(n);
    &&& 0 <= r.start <= r.end <= len
    &&& match n {
        SpecNode::Arglist { items, .. } => all_ranges_ok(items, len),
        SpecNode::Array { inner, .. } => ranges_ok(*inner, len),
        SpecNode::KeyValue { key, value, .. } => ranges_ok(*key, len) && ranges_ok(*value, len),
        SpecNode::KwargList { items, .. } => all_ranges_ok(items, len),
        SpecNode::Dict { inner, .. } => ranges_ok(*inner, len),
        SpecNode::Addition { operands, .. } => all_ranges_ok(operands, len),
        SpecNode::MemberAccess { parts, .. } => all_ranges_ok(parts, len),
        SpecNode::Function { callee, args, kwargs, .. } => ranges_ok(*callee, len) && ranges_ok(
            *args,
            len,
        ) && ranges_ok(*kwargs, len),
        SpecNode::Assignment { target, value, .. } => ranges_ok(*target, len) && ranges_ok(
            *value,
            len,
        ),
        SpecNode::PlusAssignment { target, value, .. } => ranges_ok(*target, len) && ranges_ok(
            *value,
            len,
        ),
        SpecNode::CodeBlock { items, .. } => all_ranges_ok(items, len),
        _ => true,
    }
}

pub open spec fn all_ranges_ok(ns: Seq<SpecNode<int>>, len: int) -> bool
    decreases ns,
{
    if ns.len() == 0 {
        true
    } else {
        ranges_ok(ns[0], len) && all_ranges_ok(ns.subrange(1, ns.len() as int), len)
    }
}

/// The resolved counterpart of a raw offset, as mathematics.
pub open spec fn resolved_loc(s: Seq<u8>, off: int) -> Location<int> {
    Location { line: spec_line(s, off), col: spec_col(s, off) }
}

/// The mapping the Tree Resolver performs: the same tree with every offset
/// replaced by its resolved line/column position in `s`.
pub open spec fn map_node<A, B>(n: SpecNode<A>, f: spec_fn(A) -> B) -> SpecNode<B>
    decreases n,
{
    match n {
        SpecNode::Identifier { text, range } => SpecNode::Identifier {
            text,
            range: crate::ast::map_lrange(range, f),
        },
        SpecNode::Str { text, range } => SpecNode::Str {
            text,
            range: crate::ast::map_lrange(range, f),
        },
        SpecNode::Number { num, range } => SpecNode::Number {
            num,
            range: crate::ast::map_lrange(range, f),
        },
        SpecNode::Arglist { items, range } => SpecNode::Arglist {
            items: map_nodes(items, f),
            range: crate::ast::map_lrange(range, f),
        },
        SpecNode::Array { inner, range } => SpecNode::Array {
            inner: Box::new(map_node(*inner, f)),
            range: crate::ast::map_lrange(range, f),
        },
        SpecNode::KeyValue { key, value, range } => SpecNode::KeyValue {
            key: Box::new(map_node(*key, f)),
            value: Box::new(map_node(*value, f)),
            range: crate::ast::map_lrange(range, f),
        },
        SpecNode::KwargList { items, range } => SpecNode::KwargList {
            items: map_nodes(items, f),
            range: crate::ast::map_lrange(range, f),
        },
        SpecNode::Dict { inner, range } => SpecNode::Dict {
            inner: Box::new(map_node(*inner, f)),
            range: crate::ast::map_lrange(range, f),
        },
        SpecNode::Addition { operands, range } => SpecNode::Addition {
            operands: map_nodes(operands, f),
            range: crate::ast::map_lrange(range, f),
        },
        SpecNode::MemberAccess { parts, range } => SpecNode::MemberAccess {
            parts: map_nodes(parts, f),
            range: crate::ast::map_lrange(range, f),
        },
        SpecNode::Function { callee, args, kwargs, range } => SpecNode::Function {
            callee: Box::new(map_node(*callee, f)),
            args: Box::new(map_node(*args, f)),
            kwargs: Box::new(map_node(*kwargs, f)),
            range: crate::ast::map_lrange(range, f),
        },
        SpecNode::Assignment { target, value, range } => SpecNode::Assignment {
            target: Box::new(map_node(*target, f)),
            value: Box::new(map_node(*value, f)),
            range: crate::ast::map_lrange(range, f),
        },
        SpecNode::PlusAssignment { target, value, range } => SpecNode::PlusAssignment {
            target: Box::new(map_node(*target, f)),
            value: Box::new(map_node(*value, f)),
            range: crate::ast::map_lrange(range, f),
        },
        SpecNode::CodeBlock { items, range } => SpecNode::CodeBlock {
            items: map_nodes(items, f),
            range: crate::ast::map_lrange(range, f),
        },
        SpecNode::Empty { range } => SpecNode::Empty {
            range: crate::ast::map_lrange(range, f),
        },
    }
}

pub open spec fn map_nodes<A, B>(ns: Seq<SpecNode<A>>, f: spec_fn(A) -> B) -> Seq<SpecNode<B>>
    decreases ns,
{
    if ns.len() == 0 {
        Seq::empty()
    } else {
        seq![map_node(ns[0], f)] + map_nodes(ns.subrange(1, ns.len() as int), f)
    }
}

/// The resolver's range mapping for buffer `s`.
pub open spec fn resolve_rf(s: Seq<u8>) -> spec_fn(int) -> Location<int> {
    |off: int| resolved_loc(s, off)
}


pub proof fn lemma_map_nodes<A, B>(ns: Seq<SpecNode<A>>, f: spec_fn(A) -> B)
    ensures
        map_nodes(ns, f).len() == ns.len(),
        forall|k: int| 0 <= k < ns.len() ==> #[trigger] map_nodes(ns, f)[k] == map_node(ns[k], f),
    decreases ns,
{
    if ns.len() > 0 {
        lemma_map_nodes(ns.subrange(1, ns.len() as int), f);
    }
}

pub proof fn lemma_nodes_view<A, B>(ns: Seq<Node<A>>, f: spec_fn(A) -> B)
    ensures
        nodes_view(ns, f).len() == ns.len(),
        forall|k: int| 0 <= k < ns.len() ==> #[trigger] nodes_view(ns, f)[k] == node_view(
            ns[k],
            f,
        ),
    decreases ns,
{
    if ns.len() > 0 {
        lemma_nodes_view(ns.subrange(1, ns.len() as int), f);
    }
}

pub proof fn lemma_all_ranges_ok(ns: Seq<SpecNode<int>>, len: int)
    ensures
        all_ranges_ok(ns, len) <==> (forall|k: int|
            0 <= k < ns.len() ==> ranges_ok(#[trigger] ns[k], len)),
    decreases ns,
{
    if ns.len() > 0 {
        let tail = ns.subrange(1, ns.len() as int);
        lemma_all_ranges_ok(tail, len);
        if all_ranges_ok(ns, len) {
            assert forall|k: int| 0 <= k < ns.len() implies ranges_ok(
                #[trigger] ns[k],
                len,
            ) by {
                if k > 0 {
                    assert(tail[k - 1] == ns[k]);
                }
            }
        }
        if forall|k: int| 0 <= k < ns.len() ==> ranges_ok(#[trigger] ns[k], len) {
            assert forall|k: int| 0 <= k < tail.len() implies ranges_ok(
                #[trigger] tail[k],
                len,
            ) by {
                assert(tail[k] == ns[k + 1]);
            }
            assert(all_ranges_ok(tail, len));
        }
    }
}

fn clone_bytes(v: &Vec<u8>) -> (r: Vec<u8>)
    ensures
        r@ == v@,
{
    let mut out: Vec<u8> = Vec::new();
    let mut i: usize = 0;
    while i < v.len()
        invariant
            i <= v@.len(),
            out@ == v@.subrange(0, i as int),
        decreases v@.len() - i,
    {
        out.push(v[i]);
        i = i + 1;
        proof {
            assert(v@.subrange(0, i as int) =~= v@.subrange(0, i - 1).push(v@[i - 1]));
        }
    }
    proof {
        assert(v@.subrange(0, v@.len() as int) =~= v@);
    }
    out
}

fn clone_num(n: &crate::ast::NumberLit) -> (r: crate::ast::NumberLit)
    ensures
        r@ == n@,
{
    crate::ast::NumberLit {
        neg: n.neg,
        form: n.form,
        int_digits: clone_bytes(&n.int_digits),
        frac_digits: clone_bytes(&n.frac_digits),
    }
}

/// Resolves both ends of a raw range through the index.
fn resolve_range(idx: &LineIndex, rg: LRange<usize>) -> (r: LRange<Location<usize>>)
    requires
        idx.wf(),
        rg.start <= idx.src@.len(),
        rg.end <= idx.src@.len(),
    ensures
        crate::ast::map_lrange(
            LRange { start: rg.start as int, end: rg.end as int },
            resolve_rf(idx.src@),
        ) == (crate::ast::map_lrange(r, loc_rf())),
{
    let start = idx.resolve(rg.start);
    let end = idx.resolve(rg.end);
    LRange { start, end }
}

/// One full traversal of a freshly parsed tree, rewriting every raw offset
/// range into a line/column range: a new tree of identical shape. An offset
/// outside the buffer is a broken invariant, not a parse problem: the
/// traversal then reports that offset instead of a tree.
pub fn resolve_node(n: &Node<usize>, idx: &LineIndex) -> (r: Result<Node<Location<usize>>, usize>)
    requires
        idx.wf(),
    ensures
        match r {
            Ok(t) => ranges_ok(raw_view(*n), idx.src@.len() as int) && loc_view(t) == map_node(
                raw_view(*n),
                resolve_rf(idx.src@),
            ),
            Err(_) => !ranges_ok(raw_view(*n), idx.src@.len() as int),
        },
    decreases *n,
{
    let ghost s = idx.src@;
    let rg = node_range_of(n);
    if rg.start > rg.end || rg.end > idx.len {
        return Err(rg.end);
    }
    let lrg = resolve_range(idx, rg);
    match n {
        Node::Identifier { text, range } => Ok(
            Node::Identifier { text: clone_bytes(text), range: lrg },
        ),
        Node::Str { text, range } => Ok(Node::Str { text: clone_bytes(text), range: lrg }),
        Node::Number { num, range } => Ok(Node::Number { num: clone_num(num), range: lrg }),
        Node::Empty { range } => Ok(Node::Empty { range: lrg }),
        Node::Arglist { items, range } => {
            match resolve_nodes(items, idx) {
                Ok(out) => Ok(Node::Arglist { items: out, range: lrg }),
                Err(o) => Err(o),
            }
        },
        Node::KwargList { items, range } => {
            match resolve_nodes(items, idx) {
                Ok(out) => Ok(Node::KwargList { items: out, range: lrg }),
                Err(o) => Err(o),
            }
        },
        Node::Addition { operands, range } => {
            match resolve_nodes(operands, idx) {
                Ok(out) => Ok(Node::Addition { operands: out, range: lrg }),
                Err(o) => Err(o),
            }
        },
        Node::MemberAccess { parts, range } => {
            match resolve_nodes(parts, idx) {
                Ok(out) => Ok(Node::MemberAccess { parts: out, range: lrg }),
                Err(o) => Err(o),
            }
        },
        Node::CodeBlock { items, range } => {
            match resolve_nodes(items, idx) {
                Ok(out) => Ok(Node::CodeBlock { items: out, range: lrg }),
                Err(o) => Err(o),
            }
        },
        Node::Array { inner, range } => {
            match resolve_node(inner, idx) {
                Ok(t) => Ok(Node::Array { inner: Box::new(t), range: lrg }),
                Err(o) => Err(o),
            }
        },
        Node::Dict { inner, range } => {
            match resolve_node(inner, idx) {
                Ok(t) => Ok(Node::Dict { inner: Box::new(t), range: lrg }),
                Err(o) => Err(o),
            }
        },
        Node::KeyValue { key, value, range } => {
            match resolve_node(key, idx) {
                Ok(k) => match resolve_node(value, idx) {
                    Ok(v) => Ok(
                        Node::KeyValue { key: Box::new(k), value: Box::new(v), range: lrg },
                    ),
                    Err(o) => Err(o),
                },
                Err(o) => Err(o),
            }
        },
        Node::Assignment { target, value, range } => {
            match resolve_node(target, idx) {
                Ok(t) => match resolve_node(value, idx) {
                    Ok(v) => Ok(
                        Node::Assignment { target: Box::new(t), value: Box::new(v), range: lrg },
                    ),
                    Err(o) => Err(o),
                },
                Err(o) => Err(o),
            }
        },
        Node::PlusAssignment { target, value, range } => {
            match resolve_node(target, idx) {
                Ok(t) => match resolve_node(value, idx) {
                    Ok(v) => Ok(
                        Node::PlusAssignment {
                            target: Box::new(t),
                            value: Box::new(v),
                            range: lrg,
                        },
                    ),
                    Err(o) => Err(o),
                },
                Err(o) => Err(o),
            }
        },
        Node::Function { callee, args, kwargs, range } => {
            match resolve_node(callee, idx) {
                Ok(c) => match resolve_node(args, idx) {
                    Ok(a) => match resolve_node(kwargs, idx) {
                        Ok(k) => Ok(
                            Node::Function {
                                callee: Box::new(c),
                                args: Box::new(a),
                                kwargs: Box::new(k),
                                range: lrg,
                            },
                        ),
                        Err(o) => Err(o),
                    },
                    Err(o) => Err(o),
                },
                Err(o) => Err(o),
            }
        },
    }
}

/// Resolves a sequence of sibling nodes in order.
fn resolve_nodes(items: &Vec<Node<usize>>, idx: &LineIndex) -> (r: Result<
    Vec<Node<Location<usize>>>,
    usize,
>)
    requires
        idx.wf(),
    ensures
        match r {
            Ok(out) => all_ranges_ok(nodes_view(items@, raw_rf()), idx.src@.len() as int)
                && nodes_view(out@, loc_rf()) == map_nodes(
                nodes_view(items@, raw_rf()),
                resolve_rf(idx.src@),
            ),
            Err(_) => !all_ranges_ok(nodes_view(items@, raw_rf()), idx.src@.len() as int),
        },
    decreases *items,
{
    let ghost s = idx.src@;
    let ghost len = s.len() as int;
    let mut out: Vec<Node<Location<usize>>> = Vec::new();
    let mut i: usize = 0;
    proof {
        lemma_nodes_view(items@, raw_rf());
    }
    while i < items.len()
        invariant
            idx.wf(),
            s == idx.src@,
            len == s.len() as int,
            i <= items@.len(),
            out@.len() == i,
            forall|k: int|
                0 <= k < i ==> ranges_ok(
                    #[trigger] node_view(items@[k], raw_rf()),
                    len,
                ),
            forall|k: int|
                0 <= k < i ==> node_view(#[trigger] out@[k], loc_rf()) == map_node(
                    node_view(items@[k], raw_rf()),
                    resolve_rf(s),
                ),
        decreases items@.len() - i,
    {
        match resolve_node(&items[i], idx) {
            Ok(t) => {
                out.push(t);
            },
            Err(o) => {
                proof {
                    lemma_nodes_view(items@, raw_rf());
                    lemma_all_ranges_ok(nodes_view(items@, raw_rf()), len);
                    assert(!ranges_ok(nodes_view(items@, raw_rf())[i as int], len));
                }
                return Err(o);
            },
        }
        i = i + 1;
    }
    proof {
        lemma_nodes_view(items@, raw_rf());
        lemma_nodes_view(out@, loc_rf());
        lemma_all_ranges_ok(nodes_view(items@, raw_rf()), len);
        lemma_map_nodes(nodes_view(items@, raw_rf()), resolve_rf(s));
        assert(nodes_view(out@, loc_rf()) =~= map_nodes(
            nodes_view(items@, raw_rf()),
            resolve_rf(s),
        ));
    }
    Ok(out)
}

/// The source range a node carries (shared with the engine).
fn node_range_of(n: &Node<usize>) -> (r: LRange<usize>)
    ensures
        r.start as int == crate::grammar::sn_range(raw_view(*n)).start,
        r.end as int == crate::grammar::sn_range(raw_view(*n)).end,
{
    crate::parse::node_range(n)
}

/// Parses a buffer and resolves the tree's ranges in one step: the resolved
/// tree exactly when the grammar accepts the buffer, else the structured
/// failure. The parser never produces an offset outside the buffer it
/// parsed (see [`crate::laws::lemma_parse_ranges_ok`]), so resolution of a
/// fresh parse cannot fail.
pub fn parse_resolved(s: &[u8]) -> (r: Result<
    Node<Location<usize>>,
    crate::parse::ParseFailure,
>)
    requires
        crate::parse::len_ok(s@),
    ensures
        match r {
            Ok(t) => crate::grammar::sp_parse(s@) matches Some(root) && loc_view(t) == map_node(
                root,
                resolve_rf(s@),
            ),
            Err(_) => crate::grammar::sp_parse(s@) is None,
        },
{
    match crate::parse::parse(s) {
        Ok(root) => {
            proof {
                crate::laws::lemma_parse_ranges_ok(s@);
            }
            let idx = LineIndex::new(s);
            match resolve_node(&root, &idx) {
                Ok(t) => Ok(t),
                Err(o) => {
                    proof {
                        assert(false);
                    }
                    Err(crate::parse::ParseFailure { at: o, expected: Vec::new() })
                },
            }
        },
        Err(f) => Err(f),
    }
}

} // verus!
