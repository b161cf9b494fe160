//! The formatter: renders a [`TreeView`] back to the canonical textual form.
//!
//! Each node is one line `<indent><name> [<marker><seconds>s]`, indented two
//! spaces per depth level, with children emitted sorted ascending by elapsed
//! time (a presentation-only, stable reordering).  After the root block, each
//! detached subtree renders as a `[Detached <id>]` header followed by the
//! subtree at depth one.
use vstd::prelude::*;

use crate::chars::chars_to_string;
use crate::time::dec_digits;
use crate::time::push_dec_digits;
use crate::time::push_secs_literal;
use crate::time::spec_secs_literal;
use crate::time::STALL_THRESHOLD_NS;
use crate::tree::lemma_nodes_view;
use crate::tree::lemma_nodes_view_push;
use crate::tree::nodes_view;
use crate::tree::node_view;
use crate::tree::SpanNodeData;
use crate::tree::SpanNodeView;
use crate::tree::TreeData;
use crate::tree::TreeView;

verus! {

/// Stable insertion of `x` into `s` by elapsed time: `x` lands after every
/// element with an equal or smaller key.
pub open spec fn spec_insert_by_elapsed(s: Seq<SpanNodeData>, x: SpanNodeData) -> Seq<
    SpanNodeData,
>
    decreases s.len(),
{
    if s.len() == 0 {
        seq![x]
    } else if s.last().elapsed_ns <= x.elapsed_ns {
        s.push(x)
    } else {
        spec_insert_by_elapsed(s.drop_last(), x).push(s.last())
    }
}

/// Stable sort of span nodes by elapsed time (insertion sort).
pub open spec fn spec_sort_by_elapsed(s: Seq<SpanNodeData>) -> Seq<SpanNodeData>
    decreases s.len(),
{
    if s.len() == 0 {
        s
    } else {
        spec_insert_by_elapsed(spec_sort_by_elapsed(s.drop_last()), s.last())
    }
}

/// The node with all child lists recursively sorted by elapsed time.
pub open spec fn sort_tree(n: SpanNodeData) -> SpanNodeData
    decreases n,
{
    SpanNodeData {
        id: n.id,
        span: n.span,
        elapsed_ns: n.elapsed_ns,
        children: spec_sort_by_elapsed(sort_trees(n.children)),
    }
}

/// `sort_tree` applied to each element.
pub open spec fn sort_trees(s: Seq<SpanNodeData>) -> Seq<SpanNodeData>
    decreases s,
{
    if s.len() == 0 {
        Seq::empty()
    } else {
        sort_trees(s.drop_last()).push(sort_tree(s.last()))
    }
}

/// Two spaces per depth level.
pub open spec fn spec_indent(depth: nat) -> Seq<char>
    decreases depth,
{
    if depth == 0 {
        Seq::empty()
    } else {
        spec_indent((depth - 1) as nat) + seq![' ', ' ']
    }
}

/// Is this span flagged with the stall marker when rendered?
pub open spec fn is_stalled(n: SpanNodeData) -> bool {
    !n.span.is_long_running && n.elapsed_ns >= STALL_THRESHOLD_NS
}

/// The line a node renders to, newline included.
pub open spec fn spec_render_line(n: SpanNodeData, depth: nat, current: usize) -> Seq<char> {
    let marker: Seq<char> = if is_stalled(n) {
        seq!['!', '!', '!', ' ']
    } else {
        Seq::empty()
    };
    let cur: Seq<char> = if depth > 0 && n.id == current {
        seq![' ', ' ', '<', '=', '=', ' ', 'c', 'u', 'r', 'r', 'e', 'n', 't']
    } else {
        Seq::empty()
    };
    spec_indent(depth) + n.span.name + seq![' ', '['] + marker + spec_secs_literal(n.elapsed_ns)
        + seq![']'] + cur + seq!['\n']
}

/// Text of a node whose children are already in display order: its own line,
/// then each child subtree at the next depth.
pub open spec fn render_plain(n: SpanNodeData, depth: nat, current: usize) -> Seq<char>
    decreases n,
{
    spec_render_line(n, depth, current) + render_nodes(n.children, (depth + 1) as nat, current)
}

/// Concatenated rendering of a sequence of sibling nodes.
pub open spec fn render_nodes(s: Seq<SpanNodeData>, depth: nat, current: usize) -> Seq<char>
    decreases s,
{
    if s.len() == 0 {
        Seq::empty()
    } else {
        render_nodes(s.drop_last(), depth, current) + render_plain(s.last(), depth, current)
    }
}

/// The header line of one detached subtree.
pub open spec fn spec_detached_header(id: usize) -> Seq<char> {
    seq!['[', 'D', 'e', 't', 'a', 'c', 'h', 'e', 'd', ' '] + dec_digits(id as nat) + seq![
        ']',
        '\n',
    ]
}

/// Concatenated rendering of the detached blocks.
pub open spec fn render_detached(s: Seq<SpanNodeData>, current: usize) -> Seq<char>
    decreases s,
{
    if s.len() == 0 {
        Seq::empty()
    } else {
        render_detached(s.drop_last(), current) + spec_detached_header(s.last().id)
            + render_plain(sort_tree(s.last()), 1, current)
    }
}

/// The canonical text of a whole snapshot: the root block at depth zero,
/// then each detached subtree under its header at depth one.
pub open spec fn spec_render_tree(t: TreeData) -> Seq<char> {
    render_plain(sort_tree(t.tree), 0, t.current) + render_detached(t.detached, t.current)
}

/// `sort_trees` distributes over `push`.
pub proof fn lemma_sort_trees_push(s: Seq<SpanNodeData>, x: SpanNodeData)
    ensures
        sort_trees(s.push(x)) == sort_trees(s).push(sort_tree(x)),
{
    assert(s.push(x).drop_last() =~= s);
    assert(s.push(x).last() == x);
}

/// `sort_trees` maps `sort_tree` over the sequence, element by element.
pub proof fn lemma_sort_trees(s: Seq<SpanNodeData>)
    ensures
        sort_trees(s).len() == s.len(),
        forall|i: int| 0 <= i < s.len() ==> sort_trees(s)[i] == sort_tree(#[trigger] s[i]),
    decreases s.len(),
{
    if s.len() > 0 {
        lemma_sort_trees(s.drop_last());
        assert forall|i: int| 0 <= i < s.len() implies sort_trees(s)[i] == sort_tree(
            #[trigger] s[i],
        ) by {
            if i < s.len() - 1 {
                assert(s.drop_last()[i] == s[i]);
                assert(sort_trees(s)[i] == sort_trees(s.drop_last())[i]);
            } else {
                assert(s.last() == s[i]);
            }
        }
    }
}

/// Mapping an elapsed-preserving transformation commutes with stable
/// insertion.
pub proof fn lemma_sort_trees_insert(s: Seq<SpanNodeData>, x: SpanNodeData)
    ensures
        sort_trees(spec_insert_by_elapsed(s, x)) == spec_insert_by_elapsed(
            sort_trees(s),
            sort_tree(x),
        ),
    decreases s.len(),
{
    if s.len() == 0 {
        assert(seq![x].drop_last() =~= Seq::<SpanNodeData>::empty());
        assert(seq![x].last() == x);
        reveal_with_fuel(sort_trees, 3);
        assert(sort_trees(seq![x]) =~= seq![sort_tree(x)]);
    } else if s.last().elapsed_ns <= x.elapsed_ns {
        lemma_sort_trees_push(s, x);
        assert(sort_trees(s).last() == sort_tree(s.last()));
    } else {
        lemma_sort_trees_insert(s.drop_last(), x);
        lemma_sort_trees_push(spec_insert_by_elapsed(s.drop_last(), x), s.last());
        assert(sort_trees(s).drop_last() =~= sort_trees(s.drop_last()));
        assert(sort_trees(s).last() == sort_tree(s.last()));
        lemma_sort_trees_push(
            spec_insert_by_elapsed(sort_trees(s.drop_last()), sort_tree(x)),
            sort_tree(s.last()),
        );
    }
}

/// Recursive sorting commutes with sorting one level of siblings.
pub proof fn lemma_sort_commutes(s: Seq<SpanNodeData>)
    ensures
        spec_sort_by_elapsed(sort_trees(s)) == sort_trees(spec_sort_by_elapsed(s)),
    decreases s.len(),
{
    if s.len() > 0 {
        lemma_sort_commutes(s.drop_last());
        assert(sort_trees(s).drop_last() =~= sort_trees(s.drop_last()));
        assert(sort_trees(s).last() == sort_tree(s.last()));
        lemma_sort_trees_insert(spec_sort_by_elapsed(s.drop_last()), s.last());
    }
}

/// Inserting at the scanned position realizes `spec_insert_by_elapsed`.
pub proof fn lemma_insert_at(s: Seq<SpanNodeData>, x: SpanNodeData, j: int)
    requires
        0 <= j <= s.len(),
        forall|k: int| j <= k < s.len() ==> #[trigger] s[k].elapsed_ns > x.elapsed_ns,
        j > 0 ==> s[j - 1].elapsed_ns <= x.elapsed_ns,
    ensures
        spec_insert_by_elapsed(s, x) == s.subrange(0, j) + seq![x] + s.subrange(j, s.len() as int),
    decreases s.len(),
{
    if j == s.len() {
        if s.len() == 0 {
            assert(spec_insert_by_elapsed(s, x) =~= s.subrange(0, j) + seq![x] + s.subrange(
                j,
                s.len() as int,
            ));
        } else {
            assert(spec_insert_by_elapsed(s, x) == s.push(x));
            assert(s.push(x) =~= s.subrange(0, j) + seq![x] + s.subrange(j, s.len() as int));
        }
    } else {
        assert(s.last().elapsed_ns > x.elapsed_ns);
        lemma_insert_at(s.drop_last(), x, j);
        assert(s.drop_last().subrange(0, j) =~= s.subrange(0, j));
        assert(s.drop_last().subrange(j, s.len() - 1) =~= s.subrange(j, s.len() - 1));
        assert((s.subrange(0, j) + seq![x] + s.subrange(j, s.len() - 1)).push(s.last()) =~= s
            .subrange(0, j) + seq![x] + s.subrange(j, s.len() as int));
    }
}

/// The sequence of node views selected by an index list.
pub open spec fn views_at(v: Seq<SpanNodeView>, idx: Seq<usize>) -> Seq<SpanNodeData> {
    Seq::new(idx.len(), |q: int| node_view(v[idx[q] as int]))
}

/// The positions `0..v.len()`, stably sorted by the elapsed time of the
/// nodes they point at.
fn sort_indices(v: &Vec<SpanNodeView>) -> (idx: Vec<usize>)
    ensures
        idx@.len() == v@.len(),
        forall|q: int| 0 <= q < idx@.len() ==> idx@[q] < v@.len(),
        views_at(v@, idx@) == spec_sort_by_elapsed(nodes_view(v@)),
{
    let mut idx: Vec<usize> = Vec::new();
    let mut i: usize = 0;
    proof {
        assert(v@.subrange(0, 0) =~= Seq::<SpanNodeView>::empty());
        assert(views_at(v@, idx@) =~= Seq::<SpanNodeData>::empty());
    }
    while i < v.len()
        invariant
            0 <= i <= v@.len(),
            idx@.len() == i,
            forall|q: int| 0 <= q < idx@.len() ==> idx@[q] < i,
            views_at(v@, idx@) == spec_sort_by_elapsed(nodes_view(v@.subrange(0, i as int))),
        decreases v@.len() - i,
    {
        let ghost xv = node_view(v@[i as int]);
        let mut j: usize = idx.len();
        while j > 0 && v[idx[j - 1]].elapsed_ns > v[i].elapsed_ns
            invariant
                0 <= j <= idx@.len(),
                idx@.len() == i < v@.len(),
                forall|q: int| 0 <= q < idx@.len() ==> idx@[q] < i,
                forall|k: int|
                    j <= k < idx@.len() ==> v@[#[trigger] idx@[k] as int].elapsed_ns
                        > v@[i as int].elapsed_ns,
            decreases j,
        {
            j = j - 1;
        }
        let ghost idx0 = idx@;
        let ghost sorted0 = views_at(v@, idx0);
        idx.insert(j, i);
        proof {
            assert forall|k: int| j <= k < sorted0.len() implies #[trigger] sorted0[k].elapsed_ns
                > xv.elapsed_ns by {
                assert(sorted0[k] == node_view(v@[idx0[k] as int]));
                assert(node_view(v@[idx0[k] as int]).elapsed_ns == v@[idx0[k] as int].elapsed_ns);
            }
            if j > 0 {
                assert(sorted0[j - 1] == node_view(v@[idx0[j - 1] as int]));
                assert(sorted0[j - 1].elapsed_ns == v@[idx0[j - 1] as int].elapsed_ns);
            }
            lemma_insert_at(sorted0, xv, j as int);
            let target = sorted0.subrange(0, j as int) + seq![xv] + sorted0.subrange(
                j as int,
                sorted0.len() as int,
            );
            assert forall|k: int| 0 <= k < views_at(v@, idx@).len() implies views_at(v@, idx@)[k]
                == target[k] by {
                if k < j {
                    assert(idx@[k] == idx0[k]);
                } else if k == j {
                    assert(idx@[k] == i);
                } else {
                    assert(idx@[k] == idx0[k - 1]);
                    assert(sorted0[k - 1] == node_view(v@[idx0[k - 1] as int]));
                }
            }
            assert(views_at(v@, idx@) =~= target);
            let pre = nodes_view(v@.subrange(0, i as int));
            lemma_nodes_view_push(v@.subrange(0, i as int), v@[i as int]);
            assert(v@.subrange(0, i as int).push(v@[i as int]) =~= v@.subrange(0, i + 1));
            assert(spec_sort_by_elapsed(pre.push(xv)) == spec_insert_by_elapsed(
                spec_sort_by_elapsed(pre),
                xv,
            )) by {
                assert(pre.push(xv).drop_last() =~= pre);
                assert(pre.push(xv).last() == xv);
            }
        }
        i = i + 1;
    }
    proof {
        assert(v@.subrange(0, v@.len() as int) =~= v@);
    }
    idx
}

/// Appends `indent` to `out`, then two more spaces if `extra` is set.
fn push_indent(indent: &Vec<char>, extra: bool, out: &mut Vec<char>)
    ensures
        final(out)@ == old(out)@ + indent@ + (if extra {
            seq![' ', ' ']
        } else {
            Seq::<char>::empty()
        }),
{
    let mut k: usize = 0;
    while k < indent.len()
        invariant
            0 <= k <= indent@.len(),
            out@ == old(out)@ + indent@.subrange(0, k as int),
        decreases indent@.len() - k,
    {
        out.push(indent[k]);
        proof {
            assert(indent@.subrange(0, k + 1) =~= indent@.subrange(0, k as int).push(
                indent@[k as int],
            ));
        }
        k = k + 1;
    }
    proof {
        assert(indent@.subrange(0, indent@.len() as int) =~= indent@);
    }
    if extra {
        out.push(' ');
        out.push(' ');
    }
    proof {
        assert(out@ =~= old(out)@ + indent@ + (if extra {
            seq![' ', ' ']
        } else {
            Seq::<char>::empty()
        }));
    }
}

/// Appends the single rendered line of `n` to `out`.
#[verifier::rlimit(100)]
fn push_node_line(
    n: &SpanNodeView,
    indent: &Vec<char>,
    at_root: bool,
    current: usize,
    out: &mut Vec<char>,
    Ghost(depth): Ghost<nat>,
)
    requires
        indent@ == spec_indent(depth),
        at_root <==> depth == 0,
    ensures
        final(out)@ == old(out)@ + spec_render_line(node_view(*n), depth, current),
{
    push_indent(indent, false, out);
    let mut k: usize = 0;
    while k < n.span.name.len()
        invariant
            0 <= k <= n.span.name@.len(),
            out@ == old(out)@ + spec_indent(depth) + n.span.name@.subrange(0, k as int),
        decreases n.span.name@.len() - k,
    {
        out.push(n.span.name[k]);
        proof {
            assert(n.span.name@.subrange(0, k + 1) =~= n.span.name@.subrange(0, k as int).push(
                n.span.name@[k as int],
            ));
        }
        k = k + 1;
    }
    proof {
        assert(n.span.name@.subrange(0, n.span.name@.len() as int) =~= n.span.name@);
    }
    out.push(' ');
    out.push('[');
    if !n.span.is_long_running && n.elapsed_ns >= STALL_THRESHOLD_NS {
        out.push('!');
        out.push('!');
        out.push('!');
        out.push(' ');
    }
    push_secs_literal(out, n.elapsed_ns);
    out.push(']');
    if !at_root && n.id == current {
        out.push(' ');
        out.push(' ');
        out.push('<');
        out.push('=');
        out.push('=');
        out.push(' ');
        out.push('c');
        out.push('u');
        out.push('r');
        out.push('r');
        out.push('e');
        out.push('n');
        out.push('t');
    }
    out.push('\n');
    proof {
        assert(out@ =~= old(out)@ + spec_render_line(node_view(*n), depth, current));
    }
}

/// Appends the rendering of `n` (children displayed in elapsed order) to
/// `out`.
#[verifier::rlimit(60)]
fn render_node_into(
    n: &SpanNodeView,
    indent: &Vec<char>,
    at_root: bool,
    current: usize,
    out: &mut Vec<char>,
    Ghost(depth): Ghost<nat>,
)
    requires
        indent@ == spec_indent(depth),
        at_root <==> depth == 0,
    ensures
        final(out)@ == old(out)@ + render_plain(sort_tree(node_view(*n)), depth, current),
    decreases *n,
{
    let ghost sorted_node = sort_tree(node_view(*n));
    push_node_line(n, indent, at_root, current, out, Ghost(depth));
    proof {
        assert(spec_render_line(node_view(*n), depth, current) == spec_render_line(
            sorted_node,
            depth,
            current,
        ));
    }
    let idx = sort_indices(&n.children);
    let ghost target = sorted_node.children;
    proof {
        lemma_sort_commutes(nodes_view(n.children@));
        assert(target == sort_trees(views_at(n.children@, idx@)));
        lemma_sort_trees(views_at(n.children@, idx@));
        assert(target.subrange(0, 0) =~= Seq::<SpanNodeData>::empty());
    }
    let mut ind2: Vec<char> = Vec::new();
    push_indent(indent, true, &mut ind2);
    proof {
        assert(ind2@ =~= spec_indent((depth + 1) as nat));
    }
    let mut i: usize = 0;
    while i < idx.len()
        invariant
            0 <= i <= idx@.len(),
            idx@.len() == n.children@.len(),
            forall|q: int| 0 <= q < idx@.len() ==> idx@[q] < n.children@.len(),
            ind2@ == spec_indent((depth + 1) as nat),
            target == sort_trees(views_at(n.children@, idx@)),
            target.len() == idx@.len(),
            forall|q: int|
                0 <= q < idx@.len() ==> target[q] == sort_tree(
                    #[trigger] views_at(n.children@, idx@)[q],
                ),
            out@ == old(out)@ + spec_render_line(sorted_node, depth, current) + render_nodes(
                target.subrange(0, i as int),
                (depth + 1) as nat,
                current,
            ),
        decreases idx@.len() - i,
    {
        let c = idx[i];
        render_node_into(&n.children[c], &ind2, false, current, out, Ghost((depth + 1) as nat));
        proof {
            assert(views_at(n.children@, idx@)[i as int] == node_view(n.children@[c as int]));
            assert(target[i as int] == sort_tree(node_view(n.children@[c as int])));
            assert(target.subrange(0, i + 1).drop_last() =~= target.subrange(0, i as int));
            assert(target.subrange(0, i + 1).last() == target[i as int]);
            assert(render_nodes(target.subrange(0, i + 1), (depth + 1) as nat, current)
                == render_nodes(target.subrange(0, i as int), (depth + 1) as nat, current)
                + render_plain(target[i as int], (depth + 1) as nat, current));
        }
        i = i + 1;
    }
    proof {
        assert(target.subrange(0, target.len() as int) =~= target);
        assert(render_plain(sorted_node, depth, current) == spec_render_line(
            sorted_node,
            depth,
            current,
        ) + render_nodes(target, (depth + 1) as nat, current));
    }
}

impl TreeView {
    /// Renders this snapshot to its canonical textual form.
    pub fn render(&self) -> (r: String)
        ensures
            r@ == spec_render_tree(self@),
    {
        let mut out: Vec<char> = Vec::new();
        let ind0: Vec<char> = Vec::new();
        proof {
            assert(ind0@ =~= spec_indent(0));
        }
        render_node_into(&self.tree, &ind0, true, self.current, &mut out, Ghost(0nat));
        let mut ind1: Vec<char> = Vec::new();
        ind1.push(' ');
        ind1.push(' ');
        proof {
            assert(ind1@ =~= spec_indent(1));
            lemma_nodes_view(self.detached@);
        }
        let ghost dviews = nodes_view(self.detached@);
        proof {
            assert(dviews.subrange(0, 0) =~= Seq::<SpanNodeData>::empty());
            assert(render_detached(dviews.subrange(0, 0), self.current) =~= Seq::<char>::empty());
        }
        let mut i: usize = 0;
        while i < self.detached.len()
            invariant
                0 <= i <= self.detached@.len(),
                dviews == nodes_view(self.detached@),
                dviews.len() == self.detached@.len(),
                forall|q: int|
                    0 <= q < self.detached@.len() ==> dviews[q] == node_view(
                        #[trigger] self.detached@[q],
                    ),
                ind1@ == spec_indent(1),
                out@ == render_plain(sort_tree(node_view(self.tree)), 0, self.current)
                    + render_detached(dviews.subrange(0, i as int), self.current),
            decreases self.detached@.len() - i,
        {
            out.push('[');
            out.push('D');
            out.push('e');
            out.push('t');
            out.push('a');
            out.push('c');
            out.push('h');
            out.push('e');
            out.push('d');
            out.push(' ');
            push_dec_digits(&mut out, self.detached[i].id as u128);
            out.push(']');
            out.push('\n');
            proof {
                assert(out@ =~= render_plain(sort_tree(node_view(self.tree)), 0, self.current)
                    + render_detached(dviews.subrange(0, i as int), self.current)
                    + spec_detached_header(dviews[i as int].id));
            }
            render_node_into(&self.detached[i], &ind1, false, self.current, &mut out, Ghost(1nat));
            proof {
                assert(dviews.subrange(0, i + 1).drop_last() =~= dviews.subrange(0, i as int));
                assert(dviews.subrange(0, i + 1).last() == dviews[i as int]);
                assert(out@ =~= render_plain(sort_tree(node_view(self.tree)), 0, self.current)
                    + render_detached(dviews.subrange(0, i + 1), self.current));
            }
            i = i + 1;
        }
        proof {
            assert(dviews.subrange(0, dviews.len() as int) =~= dviews);
            assert(out@ =~= spec_render_tree(self@));
        }
        chars_to_string(&out)
    }
}

/// Appends the canonical text of a snapshot to `out`.
pub fn render_tree_into(t: &TreeView, out: &mut Vec<char>)
    ensures
        final(out)@ == old(out)@ + spec_render_tree(t@),
{
    let s = t.render();
    let v = crate::chars::str_to_chars(s.as_str());
    let mut k: usize = 0;
    while k < v.len()
        invariant
            0 <= k <= v@.len(),
            out@ == old(out)@ + v@.subrange(0, k as int),
        decreases v@.len() - k,
    {
        out.push(v[k]);
        proof {
            assert(v@.subrange(0, k + 1) =~= v@.subrange(0, k as int).push(v@[k as int]));
        }
        k = k + 1;
    }
    proof {
        assert(v@.subrange(0, v@.len() as int) =~= v@);
    }
}

} // verus!
