//! The bottleneck classifier and the multi-actor analyzer.
//!
//! Two heuristic detectors run over one actor's tree: the "slow parent, fast
//! children" pattern (a stalled non-epoch span whose direct children average
//! less than a fifth of its own elapsed time) and the "I/O bound" pattern (a
//! stalled span whose name marks a storage or block-fetch operation).  The
//! analyzer runs both over every actor's trace and aggregates the findings
//! into an [`AnalyzeSummary`], rendered as a plain-text report.
use vstd::prelude::*;

use crate::chars::chars_to_string;
use crate::chars::contains_seq;
use crate::chars::copy_range;
use crate::chars::range_starts_with;
use crate::chars::starts_with_seq;
use crate::chars::str_to_chars;
use crate::chars::vec_contains;
use crate::parse::spec_parse_tree;
use crate::render::render_tree_into;
use crate::render::spec_render_tree;
use crate::time::dec_digits;
use crate::time::push_dec_digits;
use crate::time::STALL_THRESHOLD_NS;
use crate::tree::lemma_nodes_view;
use crate::tree::nodes_view;
use crate::tree::node_view;
use crate::tree::SpanNodeData;
use crate::tree::SpanNodeView;
use crate::tree::TraceError;
use crate::tree::TreeData;
use crate::tree::TreeView;
use crate::wide::wide_add;
use crate::wide::wide_lt;
use crate::wide::wide_mul;
use crate::wide::wide_val;
use crate::wide::wide_zero;
use crate::wide::Wide;

verus! {

/// A span is stalled when it is not long-running and has been active for at
/// least the stall threshold.
pub open spec fn is_slow_span(n: SpanNodeData) -> bool {
    !n.span.is_long_running && n.elapsed_ns >= STALL_THRESHOLD_NS
}

/// Total elapsed time of a list of nodes, in nanoseconds.
pub open spec fn sum_elapsed(s: Seq<SpanNodeData>) -> int
    decreases s.len(),
{
    if s.len() == 0 {
        0
    } else {
        sum_elapsed(s.drop_last()) + s.last().elapsed_ns
    }
}

/// Does this node alone exhibit "slow parent, fast children"?  It must be
/// stalled, not an epoch-boundary span, have at least one child, and its
/// children's mean elapsed time, multiplied by five, must still be below its
/// own elapsed time.
pub open spec fn fast_children_trigger(n: SpanNodeData) -> bool {
    &&& is_slow_span(n)
    &&& !starts_with_seq(n.span.name, "Epoch"@)
    &&& n.children.len() > 0
    &&& 5 * sum_elapsed(n.children) < n.children.len() * n.elapsed_ns
}

/// Does any node of the subtree trigger the fast-children pattern?
pub open spec fn subtree_has_fast_children(n: SpanNodeData) -> bool
    decreases n,
{
    fast_children_trigger(n) || exists|i: int|
        0 <= i < n.children.len() && subtree_has_fast_children(#[trigger] n.children[i])
}

/// Does the span name mark an I/O operation?
pub open spec fn is_io_span(n: SpanNodeData) -> bool {
    starts_with_seq(n.span.name, "store_"@) || contains_seq(n.span.name, "fetch_block"@)
}

/// Does any node of the subtree match the I/O-bound pattern?
pub open spec fn subtree_has_io(n: SpanNodeData) -> bool
    decreases n,
{
    (is_io_span(n) && is_slow_span(n)) || exists|i: int|
        0 <= i < n.children.len() && subtree_has_io(#[trigger] n.children[i])
}

/// `id` inserted into an ascending list of identifiers, keeping it ascending
/// and duplicate-free.
pub open spec fn ids_insert(ids: Seq<u32>, id: u32) -> Seq<u32>
    decreases ids.len(),
{
    if ids.len() == 0 {
        seq![id]
    } else if ids.first() == id {
        ids
    } else if id < ids.first() {
        seq![id] + ids
    } else {
        seq![ids.first()] + ids_insert(ids.drop_first(), id)
    }
}

/// Lexicographic order on character sequences, by code point.
pub open spec fn seq_lt_chars(a: Seq<char>, b: Seq<char>) -> bool
    decreases a.len(),
{
    if b.len() == 0 {
        false
    } else if a.len() == 0 {
        true
    } else if (a.first() as u32) < (b.first() as u32) {
        true
    } else if (b.first() as u32) < (a.first() as u32) {
        false
    } else {
        seq_lt_chars(a.drop_first(), b.drop_first())
    }
}

/// One actor recorded under one operation label: the entry list stays keyed
/// by label (lexicographically ordered, inserted if absent), and the actor
/// joins that label's ascending identifier list.
pub open spec fn io_add(
    m: Seq<(Seq<char>, Seq<u32>)>,
    name: Seq<char>,
    id: u32,
) -> Seq<(Seq<char>, Seq<u32>)>
    decreases m.len(),
{
    if m.len() == 0 {
        seq![(name, seq![id])]
    } else if m.first().0 == name {
        seq![(name, ids_insert(m.first().1, id))] + m.drop_first()
    } else if seq_lt_chars(name, m.first().0) {
        seq![(name, seq![id])] + m
    } else {
        seq![m.first()] + io_add(m.drop_first(), name, id)
    }
}

/// Every stalled I/O span of the subtree recorded for `id`, depth-first.
pub open spec fn io_collect(
    m: Seq<(Seq<char>, Seq<u32>)>,
    n: SpanNodeData,
    id: u32,
) -> Seq<(Seq<char>, Seq<u32>)>
    decreases n,
{
    let m1 = if is_io_span(n) && is_slow_span(n) {
        io_add(m, n.span.name, id)
    } else {
        m
    };
    io_collect_seq(m1, n.children, id)
}

/// [`io_collect`] folded over siblings, left to right.
pub open spec fn io_collect_seq(
    m: Seq<(Seq<char>, Seq<u32>)>,
    s: Seq<SpanNodeData>,
    id: u32,
) -> Seq<(Seq<char>, Seq<u32>)>
    decreases s,
{
    if s.len() == 0 {
        m
    } else {
        io_collect_seq(io_collect(m, s.first(), id), s.drop_first(), id)
    }
}

/// A tree recorded under an actor identifier: the entry list stays keyed by
/// identifier (ascending), a later tree replacing an earlier one.
pub open spec fn fast_add(
    m: Seq<(u32, TreeData)>,
    id: u32,
    t: TreeData,
) -> Seq<(u32, TreeData)>
    decreases m.len(),
{
    if m.len() == 0 {
        seq![(id, t)]
    } else if m.first().0 == id {
        seq![(id, t)] + m.drop_first()
    } else if id < m.first().0 {
        seq![(id, t)] + m
    } else {
        seq![m.first()] + fast_add(m.drop_first(), id, t)
    }
}

/// Abstract value of the fast-children entry list.
pub open spec fn fast_pairs_view(s: Seq<(u32, TreeView)>) -> Seq<(u32, TreeData)> {
    Seq::new(s.len(), |i: int| (s[i].0, s[i].1@))
}

/// Abstract value of the I/O-bound entry list.
pub open spec fn io_pairs_view(s: Seq<(Vec<char>, Vec<u32>)>) -> Seq<(Seq<char>, Seq<u32>)> {
    Seq::new(s.len(), |i: int| (s[i].0@, s[i].1@))
}

/// The analyzer's fold over a list of `(actor, trace text)` pairs: parse each
/// trace, record the tree under its actor if the fast-children pattern fires,
/// record every stalled I/O span, and abort with the offending actor's
/// identifier on the first malformed trace.
pub open spec fn spec_analyze_from(
    fast: Seq<(u32, TreeData)>,
    io: Seq<(Seq<char>, Seq<u32>)>,
    items: Seq<(u32, Seq<char>)>,
) -> Result<(Seq<(u32, TreeData)>, Seq<(Seq<char>, Seq<u32>)>), u32>
    decreases items.len(),
{
    if items.len() == 0 {
        Ok((fast, io))
    } else {
        match spec_parse_tree(items.first().1) {
            Err(_) => Err(items.first().0),
            Ok(t) => spec_analyze_from(
                if subtree_has_fast_children(t.tree) {
                    fast_add(fast, items.first().0, t)
                } else {
                    fast
                },
                io_collect(io, t.tree, items.first().0),
                items.drop_first(),
            ),
        }
    }
}

/// Result of analyzing many actors' traces: the actors whose trees match the
/// fast-children pattern, and for each I/O operation label the set of actors
/// stalled in it.
pub struct AnalyzeSummary {
    /// Actor identifier (ascending, unique) to offending tree.
    pub has_fast_children_actors: Vec<(u32, TreeView)>,
    /// Operation label (lexicographic, unique) to ascending actor ids.
    pub io_bound_actors: Vec<(Vec<char>, Vec<u32>)>,
}

/// Failure of a multi-actor analysis: the first actor whose trace could not
/// be reconstructed.
#[derive(PartialEq, Eq, Structural, Clone, Copy, Debug)]
pub struct AnalyzeError {
    /// The offending actor.
    pub actor_id: u32,
    /// What went wrong with its trace.
    pub error: TraceError,
}

/// Do `a` and `b` hold the same characters?
fn chars_eq(a: &Vec<char>, b: &Vec<char>) -> (r: bool)
    ensures
        r == (a@ == b@),
{
    if a.len() != b.len() {
        return false;
    }
    let mut i: usize = 0;
    while i < a.len()
        invariant
            a@.len() == b@.len(),
            0 <= i <= a@.len(),
            forall|j: int| 0 <= j < i ==> a@[j] == b@[j],
        decreases a@.len() - i,
    {
        if a[i] != b[i] {
            return false;
        }
        i = i + 1;
    }
    proof {
        assert(a@ =~= b@);
    }
    true
}

/// Is `a` lexicographically before `b`?
fn chars_lt(a: &Vec<char>, b: &Vec<char>) -> (r: bool)
    ensures
        r == seq_lt_chars(a@, b@),
{
    let mut i: usize = 0;
    proof {
        assert(a@.skip(0) =~= a@);
        assert(b@.skip(0) =~= b@);
    }
    while i < a.len() && i < b.len()
        invariant
            0 <= i <= a@.len(),
            0 <= i <= b@.len(),
            seq_lt_chars(a@, b@) == seq_lt_chars(a@.skip(i as int), b@.skip(i as int)),
        decreases a@.len() - i,
    {
        let ca = a[i];
        let cb = b[i];
        proof {
            assert(a@.skip(i as int).first() == a@[i as int]);
            assert(b@.skip(i as int).first() == b@[i as int]);
            assert(a@.skip(i as int).drop_first() =~= a@.skip(i + 1));
            assert(b@.skip(i as int).drop_first() =~= b@.skip(i + 1));
        }
        if (ca as u32) < (cb as u32) {
            return true;
        }
        if (cb as u32) < (ca as u32) {
            return false;
        }
        i = i + 1;
    }
    proof {
        if i < b.len() {
            assert(a@.skip(i as int).len() == 0);
            assert(b@.skip(i as int).len() > 0);
        } else if i < a.len() {
            assert(b@.skip(i as int).len() == 0);
        } else {
            assert(b@.skip(i as int).len() == 0);
        }
    }
    i < b.len()
}

/// Does any node of this subtree trigger the fast-children pattern?
fn node_has_fast_children(n: &SpanNodeView) -> (r: bool)
    ensures
        r == subtree_has_fast_children(node_view(*n)),
    decreases *n,
{
    let ghost cv = nodes_view(n.children@);
    proof {
        lemma_nodes_view(n.children@);
    }
    let slow = !n.span.is_long_running && n.elapsed_ns >= STALL_THRESHOLD_NS;
    let epoch_pat = str_to_chars("Epoch");
    let nlen = n.span.name.len();
    let is_epoch = range_starts_with(&n.span.name, 0, nlen, &epoch_pat);
    proof {
        assert(n.span.name@.subrange(0, n.span.name@.len() as int) =~= n.span.name@);
    }
    let mut fires = false;
    if slow && !is_epoch && n.children.len() > 0 {
        let mut acc: Wide = wide_zero();
        let mut i: usize = 0;
        proof {
            assert(cv.subrange(0, 0) =~= Seq::<SpanNodeData>::empty());
        }
        while i < n.children.len()
            invariant
                0 <= i <= n.children@.len(),
                cv == nodes_view(n.children@),
                cv.len() == n.children@.len(),
                forall|q: int|
                    0 <= q < n.children@.len() ==> cv[q] == node_view(#[trigger] n.children@[q]),
                wide_val(acc) == 5 * sum_elapsed(cv.subrange(0, i as int)),
                acc.hi <= 5 * i,
            decreases n.children@.len() - i,
        {
            let e = n.children[i].elapsed_ns;
            let part = wide_mul(5, e);
            proof {
                crate::wide::lemma_wide_hi_bound(part, 5);
            }
            acc = wide_add(acc, part);
            proof {
                assert(cv.subrange(0, i + 1).drop_last() =~= cv.subrange(0, i as int));
                assert(cv.subrange(0, i + 1).last() == cv[i as int]);
                assert(cv[i as int].elapsed_ns == n.children@[i as int].elapsed_ns);
            }
            i = i + 1;
        }
        proof {
            assert(cv.subrange(0, cv.len() as int) =~= cv);
        }
        let rhs = wide_mul(n.children.len() as u128, n.elapsed_ns);
        fires = wide_lt(&acc, &rhs);
        proof {
            assert(fires == fast_children_trigger(node_view(*n)));
        }
    }
    proof {
        if !(slow && !is_epoch && n.children.len() > 0) {
            assert(!fast_children_trigger(node_view(*n)));
        }
    }
    if fires {
        return true;
    }
    let mut i: usize = 0;
    while i < n.children.len()
        invariant
            0 <= i <= n.children@.len(),
            cv == nodes_view(n.children@),
            cv.len() == n.children@.len(),
            forall|q: int|
                0 <= q < n.children@.len() ==> cv[q] == node_view(#[trigger] n.children@[q]),
            forall|q: int| 0 <= q < i ==> !subtree_has_fast_children(#[trigger] cv[q]),
            !fast_children_trigger(node_view(*n)),
        decreases n.children@.len() - i,
    {
        if node_has_fast_children(&n.children[i]) {
            proof {
                assert(subtree_has_fast_children(node_view(*n).children[i as int]));
            }
            return true;
        }
        i = i + 1;
    }
    false
}

/// Does any node of this subtree match the I/O-bound pattern?
fn node_has_io(n: &SpanNodeView) -> (r: bool)
    ensures
        r == subtree_has_io(node_view(*n)),
    decreases *n,
{
    let ghost cv = nodes_view(n.children@);
    proof {
        lemma_nodes_view(n.children@);
        assert(n.span.name@.subrange(0, n.span.name@.len() as int) =~= n.span.name@);
    }
    let slow = !n.span.is_long_running && n.elapsed_ns >= STALL_THRESHOLD_NS;
    let store_pat = str_to_chars("store_");
    let fetch_pat = str_to_chars("fetch_block");
    let nlen = n.span.name.len();
    let io_name = range_starts_with(&n.span.name, 0, nlen, &store_pat) || vec_contains(
        &n.span.name,
        &fetch_pat,
    );
    if io_name && slow {
        return true;
    }
    let mut i: usize = 0;
    while i < n.children.len()
        invariant
            0 <= i <= n.children@.len(),
            cv == nodes_view(n.children@),
            cv.len() == n.children@.len(),
            forall|q: int|
                0 <= q < n.children@.len() ==> cv[q] == node_view(#[trigger] n.children@[q]),
            forall|q: int| 0 <= q < i ==> !subtree_has_io(#[trigger] cv[q]),
            !(is_io_span(node_view(*n)) && is_slow_span(node_view(*n))),
        decreases n.children@.len() - i,
    {
        if node_has_io(&n.children[i]) {
            proof {
                assert(subtree_has_io(node_view(*n).children[i as int]));
            }
            return true;
        }
        i = i + 1;
    }
    false
}

/// Unchanged entries before `i` pass through `io_add` untouched.
proof fn lemma_io_add_skip(m: Seq<(Seq<char>, Seq<u32>)>, name: Seq<char>, id: u32, i: int)
    requires
        0 <= i <= m.len(),
        forall|j: int| 0 <= j < i ==> (#[trigger] m[j].0) != name && !seq_lt_chars(name, m[j].0),
    ensures
        io_add(m, name, id) == m.subrange(0, i) + io_add(m.subrange(i, m.len() as int), name, id),
    decreases i,
{
    if i == 0 {
        assert(m.subrange(0, m.len() as int) =~= m);
        assert(m.subrange(0, 0) + io_add(m, name, id) =~= io_add(m, name, id));
    } else {
        assert(m[0].0 != name && !seq_lt_chars(name, m[0].0));
        assert(io_add(m, name, id) == seq![m.first()] + io_add(m.drop_first(), name, id));
        assert forall|j: int| 0 <= j < i - 1 implies (#[trigger] m.drop_first()[j].0) != name
            && !seq_lt_chars(name, m.drop_first()[j].0) by {
            assert(m.drop_first()[j] == m[j + 1]);
        }
        lemma_io_add_skip(m.drop_first(), name, id, i - 1);
        assert(m.drop_first().subrange(0, i - 1) =~= m.subrange(1, i));
        assert(m.drop_first().subrange(i - 1, m.len() - 1) =~= m.subrange(i, m.len() as int));
        assert(seq![m.first()] + (m.subrange(1, i) + io_add(
            m.subrange(i, m.len() as int),
            name,
            id,
        )) =~= m.subrange(0, i) + io_add(m.subrange(i, m.len() as int), name, id));
    }
}

/// Unchanged identifiers before `i` pass through `ids_insert` untouched.
proof fn lemma_ids_insert_skip(ids: Seq<u32>, id: u32, i: int)
    requires
        0 <= i <= ids.len(),
        forall|j: int| 0 <= j < i ==> (#[trigger] ids[j]) != id && ids[j] < id,
    ensures
        ids_insert(ids, id) == ids.subrange(0, i) + ids_insert(
            ids.subrange(i, ids.len() as int),
            id,
        ),
    decreases i,
{
    if i == 0 {
        assert(ids.subrange(0, ids.len() as int) =~= ids);
        assert(ids.subrange(0, 0) + ids_insert(ids, id) =~= ids_insert(ids, id));
    } else {
        assert(ids[0] != id && ids[0] < id);
        assert(ids_insert(ids, id) == seq![ids.first()] + ids_insert(ids.drop_first(), id));
        assert forall|j: int| 0 <= j < i - 1 implies (#[trigger] ids.drop_first()[j]) != id
            && ids.drop_first()[j] < id by {
            assert(ids.drop_first()[j] == ids[j + 1]);
        }
        lemma_ids_insert_skip(ids.drop_first(), id, i - 1);
        assert(ids.drop_first().subrange(0, i - 1) =~= ids.subrange(1, i));
        assert(ids.drop_first().subrange(i - 1, ids.len() - 1) =~= ids.subrange(
            i,
            ids.len() as int,
        ));
        assert(seq![ids.first()] + (ids.subrange(1, i) + ids_insert(
            ids.subrange(i, ids.len() as int),
            id,
        )) =~= ids.subrange(0, i) + ids_insert(ids.subrange(i, ids.len() as int), id));
    }
}

/// Unchanged entries before `i` pass through `fast_add` untouched.
proof fn lemma_fast_add_skip(m: Seq<(u32, TreeData)>, id: u32, t: TreeData, i: int)
    requires
        0 <= i <= m.len(),
        forall|j: int| 0 <= j < i ==> (#[trigger] m[j].0) != id && m[j].0 < id,
    ensures
        fast_add(m, id, t) == m.subrange(0, i) + fast_add(m.subrange(i, m.len() as int), id, t),
    decreases i,
{
    if i == 0 {
        assert(m.subrange(0, m.len() as int) =~= m);
        assert(m.subrange(0, 0) + fast_add(m, id, t) =~= fast_add(m, id, t));
    } else {
        assert(m[0].0 != id && m[0].0 < id);
        assert(fast_add(m, id, t) == seq![m.first()] + fast_add(m.drop_first(), id, t));
        assert forall|j: int| 0 <= j < i - 1 implies (#[trigger] m.drop_first()[j].0) != id
            && m.drop_first()[j].0 < id by {
            assert(m.drop_first()[j] == m[j + 1]);
        }
        lemma_fast_add_skip(m.drop_first(), id, t, i - 1);
        assert(m.drop_first().subrange(0, i - 1) =~= m.subrange(1, i));
        assert(m.drop_first().subrange(i - 1, m.len() - 1) =~= m.subrange(i, m.len() as int));
        assert(seq![m.first()] + (m.subrange(1, i) + fast_add(
            m.subrange(i, m.len() as int),
            id,
            t,
        )) =~= m.subrange(0, i) + fast_add(m.subrange(i, m.len() as int), id, t));
    }
}

/// Inserts `id` into an ascending identifier list.
fn ids_insert_exec(ids: &mut Vec<u32>, id: u32)
    ensures
        final(ids)@ == ids_insert(old(ids)@, id),
{
    let ghost v0 = ids@;
    let mut i: usize = 0;
    while i < ids.len()
        invariant
            0 <= i <= ids@.len(),
            ids@ == v0,
            v0 == old(ids)@,
            forall|j: int| 0 <= j < i ==> (#[trigger] v0[j]) != id && v0[j] < id,
        decreases ids@.len() - i,
    {
        if ids[i] == id {
            proof {
                lemma_ids_insert_skip(v0, id, i as int);
                assert(v0.subrange(i as int, v0.len() as int).first() == v0[i as int]);
                assert(ids_insert(v0.subrange(i as int, v0.len() as int), id) == v0.subrange(
                    i as int,
                    v0.len() as int,
                ));
                assert(v0.subrange(0, i as int) + v0.subrange(i as int, v0.len() as int) =~= v0);
                assert(ids@ == ids_insert(v0, id));
            }
            return ;
        }
        if id < ids[i] {
            ids.insert(i, id);
            proof {
                lemma_ids_insert_skip(v0, id, i as int);
                let rest = v0.subrange(i as int, v0.len() as int);
                assert(rest.first() == v0[i as int]);
                assert(ids_insert(rest, id) == seq![id] + rest);
                assert(ids@ =~= v0.subrange(0, i as int) + (seq![id] + rest));
                assert(ids@ =~= v0.subrange(0, i as int) + ids_insert(rest, id));
                assert(ids@ == ids_insert(v0, id));
            }
            return ;
        }
        i = i + 1;
    }
    ids.push(id);
    proof {
        lemma_ids_insert_skip(v0, id, v0.len() as int);
        let rest = v0.subrange(v0.len() as int, v0.len() as int);
        assert(rest.len() == 0);
        assert(ids_insert(rest, id) == seq![id]);
        assert(v0.subrange(0, v0.len() as int) =~= v0);
        assert(ids@ =~= v0 + seq![id]);
        assert(v0 + seq![id] =~= v0.subrange(0, v0.len() as int) + ids_insert(rest, id));
    }
}

/// Records `actor` under the operation label `name`.
fn io_add_exec(io: &mut Vec<(Vec<char>, Vec<u32>)>, name: Vec<char>, actor: u32)
    ensures
        io_pairs_view(final(io)@) == io_add(io_pairs_view(old(io)@), name@, actor),
{
    let ghost v0 = io_pairs_view(io@);
    let mut i: usize = 0;
    while i < io.len()
        invariant
            0 <= i <= io@.len(),
            io@ == old(io)@,
            io_pairs_view(io@) == v0,
            io@.len() == v0.len(),
            forall|j: int| 0 <= j < i ==> (#[trigger] v0[j].0) != name@ && !seq_lt_chars(
                name@,
                v0[j].0,
            ),
            forall|j: int| 0 <= j < io@.len() ==> (#[trigger] v0[j]) == (io@[j].0@, io@[j].1@),
        decreases io@.len() - i,
    {
        if chars_eq(&io[i].0, &name) {
            let ghost pre = io@;
            let mut entry = io.remove(i);
            ids_insert_exec(&mut entry.1, actor);
            let ghost new_ids = entry.1@;
            io.insert(i, entry);
            proof {
                lemma_io_add_skip(v0, name@, actor, i as int);
                let rest = v0.subrange(i as int, v0.len() as int);
                assert(rest.first() == v0[i as int]);
                assert(v0[i as int].0 == name@);
                assert(io_add(rest, name@, actor) == seq![(name@, ids_insert(v0[i as int].1, actor))]
                    + rest.drop_first());
                assert(new_ids == ids_insert(v0[i as int].1, actor));
                assert forall|k: int| 0 <= k < io_pairs_view(io@).len() implies io_pairs_view(
                    io@,
                )[k] == (v0.subrange(0, i as int) + io_add(rest, name@, actor))[k] by {
                    if k < i {
                        assert(io@[k] == pre[k]);
                    } else if k == i {
                    } else {
                        assert(io@[k] == pre[k]);
                        assert(rest.drop_first()[k - i - 1] == v0[k]);
                    }
                }
                assert(io_pairs_view(io@) =~= v0.subrange(0, i as int) + io_add(
                    rest,
                    name@,
                    actor,
                ));
            }
            return ;
        }
        if chars_lt(&name, &io[i].0) {
            let ghost pre = io@;
            let mut ids: Vec<u32> = Vec::new();
            ids.push(actor);
            let ghost namev = name@;
            io.insert(i, (name, ids));
            proof {
                lemma_io_add_skip(v0, namev, actor, i as int);
                let rest = v0.subrange(i as int, v0.len() as int);
                assert(rest.first() == v0[i as int]);
                assert(io_add(rest, namev, actor) == seq![(namev, seq![actor])] + rest);
                assert forall|k: int| 0 <= k < io_pairs_view(io@).len() implies io_pairs_view(
                    io@,
                )[k] == (v0.subrange(0, i as int) + io_add(rest, namev, actor))[k] by {
                    if k < i {
                        assert(io@[k] == pre[k]);
                    } else if k == i {
                    } else {
                        assert(io@[k] == pre[k - 1]);
                        assert(rest[k - i - 1] == v0[k - 1]);
                    }
                }
                assert(io_pairs_view(io@) =~= v0.subrange(0, i as int) + io_add(
                    rest,
                    namev,
                    actor,
                ));
            }
            return ;
        }
        proof {
            assert(v0[i as int].0 == io@[i as int].0@);
        }
        i = i + 1;
    }
    let ghost pre = io@;
    let mut ids: Vec<u32> = Vec::new();
    ids.push(actor);
    let ghost namev = name@;
    io.push((name, ids));
    proof {
        lemma_io_add_skip(v0, namev, actor, v0.len() as int);
        let rest = v0.subrange(v0.len() as int, v0.len() as int);
        assert(rest.len() == 0);
        assert(io_add(rest, namev, actor) == seq![(namev, seq![actor])]);
        assert forall|k: int| 0 <= k < io_pairs_view(io@).len() implies io_pairs_view(io@)[k] == (
        v0.subrange(0, v0.len() as int) + io_add(rest, namev, actor))[k] by {
            if k < v0.len() {
                assert(io@[k] == pre[k]);
            }
        }
        assert(io_pairs_view(io@) =~= v0.subrange(0, v0.len() as int) + io_add(
            rest,
            namev,
            actor,
        ));
    }
}

/// Records `id -> t`, replacing an earlier tree for the same actor.
fn fast_add_exec(m: &mut Vec<(u32, TreeView)>, id: u32, t: TreeView)
    ensures
        fast_pairs_view(final(m)@) == fast_add(fast_pairs_view(old(m)@), id, t@),
{
    let ghost v0 = fast_pairs_view(m@);
    let ghost tv = t@;
    let mut i: usize = 0;
    while i < m.len()
        invariant
            0 <= i <= m@.len(),
            m@ == old(m)@,
            fast_pairs_view(m@) == v0,
            m@.len() == v0.len(),
            tv == t@,
            forall|j: int| 0 <= j < i ==> (#[trigger] v0[j].0) != id && v0[j].0 < id,
            forall|j: int| 0 <= j < m@.len() ==> (#[trigger] v0[j]) == (m@[j].0, m@[j].1@),
        decreases m@.len() - i,
    {
        if m[i].0 == id {
            let ghost pre = m@;
            let _old = m.remove(i);
            m.insert(i, (id, t));
            proof {
                lemma_fast_add_skip(v0, id, tv, i as int);
                let rest = v0.subrange(i as int, v0.len() as int);
                assert(rest.first() == v0[i as int]);
                assert(fast_add(rest, id, tv) == seq![(id, tv)] + rest.drop_first());
                assert forall|k: int| 0 <= k < fast_pairs_view(m@).len() implies fast_pairs_view(
                    m@,
                )[k] == (v0.subrange(0, i as int) + fast_add(rest, id, tv))[k] by {
                    if k < i {
                        assert(m@[k] == pre[k]);
                    } else if k == i {
                    } else {
                        assert(m@[k] == pre[k]);
                        assert(rest.drop_first()[k - i - 1] == v0[k]);
                    }
                }
                assert(fast_pairs_view(m@) =~= v0.subrange(0, i as int) + fast_add(rest, id, tv));
            }
            return ;
        }
        if id < m[i].0 {
            let ghost pre = m@;
            m.insert(i, (id, t));
            proof {
                lemma_fast_add_skip(v0, id, tv, i as int);
                let rest = v0.subrange(i as int, v0.len() as int);
                assert(rest.first() == v0[i as int]);
                assert(fast_add(rest, id, tv) == seq![(id, tv)] + rest);
                assert forall|k: int| 0 <= k < fast_pairs_view(m@).len() implies fast_pairs_view(
                    m@,
                )[k] == (v0.subrange(0, i as int) + fast_add(rest, id, tv))[k] by {
                    if k < i {
                        assert(m@[k] == pre[k]);
                    } else if k == i {
                    } else {
                        assert(m@[k] == pre[k - 1]);
                        assert(rest[k - i - 1] == v0[k - 1]);
                    }
                }
                assert(fast_pairs_view(m@) =~= v0.subrange(0, i as int) + fast_add(rest, id, tv));
            }
            return ;
        }
        proof {
            assert(v0[i as int].0 == m@[i as int].0);
        }
        i = i + 1;
    }
    let ghost pre = m@;
    m.push((id, t));
    proof {
        lemma_fast_add_skip(v0, id, tv, v0.len() as int);
        let rest = v0.subrange(v0.len() as int, v0.len() as int);
        assert(rest.len() == 0);
        assert(fast_add(rest, id, tv) == seq![(id, tv)]);
        assert forall|k: int| 0 <= k < fast_pairs_view(m@).len() implies fast_pairs_view(m@)[k] == (
        v0.subrange(0, v0.len() as int) + fast_add(rest, id, tv))[k] by {
            if k < v0.len() {
                assert(m@[k] == pre[k]);
            }
        }
        assert(fast_pairs_view(m@) =~= v0.subrange(0, v0.len() as int) + fast_add(rest, id, tv));
    }
}

impl TreeView {
    /// Does any node of this tree trigger the fast-children pattern?
    pub fn has_fast_children(&self) -> (r: bool)
        ensures
            r == subtree_has_fast_children(node_view(self.tree)),
    {
        node_has_fast_children(&self.tree)
    }

    /// Does any node of this tree match the I/O-bound pattern?
    pub fn is_io_bound(&self) -> (r: bool)
        ensures
            r == subtree_has_io(node_view(self.tree)),
    {
        node_has_io(&self.tree)
    }

    /// Is this tree a bottleneck: does either detector fire on it?
    pub fn is_bottleneck(&self) -> (r: bool)
        ensures
            r == (subtree_has_fast_children(node_view(self.tree)) || subtree_has_io(
                node_view(self.tree),
            )),
    {
        self.has_fast_children() || self.is_io_bound()
    }

    /// Records, for every stalled I/O span of this tree, the actor under
    /// that span's operation label.
    pub fn find_io_bound(&self, actor_id: u32, io_bound_actors: &mut Vec<(Vec<char>, Vec<u32>)>)
        ensures
            io_pairs_view(final(io_bound_actors)@) == io_collect(
                io_pairs_view(old(io_bound_actors)@),
                node_view(self.tree),
                actor_id,
            ),
    {
        collect_io(&self.tree, actor_id, io_bound_actors);
    }
}

/// Records every stalled I/O span of the subtree for `actor`, depth-first.
fn collect_io(n: &SpanNodeView, actor: u32, io: &mut Vec<(Vec<char>, Vec<u32>)>)
    ensures
        io_pairs_view(final(io)@) == io_collect(io_pairs_view(old(io)@), node_view(*n), actor),
    decreases *n,
{
    let ghost cv = nodes_view(n.children@);
    proof {
        lemma_nodes_view(n.children@);
        assert(n.span.name@.subrange(0, n.span.name@.len() as int) =~= n.span.name@);
    }
    let slow = !n.span.is_long_running && n.elapsed_ns >= STALL_THRESHOLD_NS;
    let store_pat = str_to_chars("store_");
    let fetch_pat = str_to_chars("fetch_block");
    let nlen = n.span.name.len();
    let io_name = range_starts_with(&n.span.name, 0, nlen, &store_pat) || vec_contains(
        &n.span.name,
        &fetch_pat,
    );
    if io_name && slow {
        let name = copy_range(&n.span.name, 0, nlen);
        io_add_exec(io, name, actor);
    }
    let ghost mid = io_pairs_view(io@);
    proof {
        assert(cv.skip(0) =~= cv);
    }
    let mut i: usize = 0;
    while i < n.children.len()
        invariant
            0 <= i <= n.children@.len(),
            cv == nodes_view(n.children@),
            cv.len() == n.children@.len(),
            forall|q: int|
                0 <= q < n.children@.len() ==> cv[q] == node_view(#[trigger] n.children@[q]),
            io_collect_seq(mid, cv, actor) == io_collect_seq(
                io_pairs_view(io@),
                cv.skip(i as int),
                actor,
            ),
        decreases n.children@.len() - i,
    {
        proof {
            assert(cv.skip(i as int).first() == cv[i as int]);
            assert(cv.skip(i as int).drop_first() =~= cv.skip(i + 1));
        }
        collect_io(&n.children[i], actor, io);
        i = i + 1;
    }
    proof {
        assert(cv.skip(cv.len() as int).len() == 0);
    }
}

impl AnalyzeSummary {
    /// Abstract value of the fast-children entries.
    pub open spec fn fast_view(&self) -> Seq<(u32, TreeData)> {
        fast_pairs_view(self.has_fast_children_actors@)
    }

    /// Abstract value of the I/O-bound entries.
    pub open spec fn io_view(&self) -> Seq<(Seq<char>, Seq<u32>)> {
        io_pairs_view(self.io_bound_actors@)
    }

    /// An empty summary.
    pub fn new() -> (r: AnalyzeSummary)
        ensures
            r.fast_view() == Seq::<(u32, TreeData)>::empty(),
            r.io_view() == Seq::<(Seq<char>, Seq<u32>)>::empty(),
    {
        let r = AnalyzeSummary {
            has_fast_children_actors: Vec::new(),
            io_bound_actors: Vec::new(),
        };
        proof {
            assert(r.fast_view() =~= Seq::<(u32, TreeData)>::empty());
            assert(r.io_view() =~= Seq::<(Seq<char>, Seq<u32>)>::empty());
        }
        r
    }

    /// Analyzes every actor's trace text and aggregates the findings.
    ///
    /// The first actor whose trace does not reconstruct aborts the whole
    /// analysis, its identifier attached to the error.
    pub fn from_traces(actor_traces: &Vec<(u32, String)>) -> (r: Result<
        AnalyzeSummary,
        AnalyzeError,
    >)
        ensures
            ({
                let items = Seq::new(
                    actor_traces@.len(),
                    |i: int| (actor_traces@[i].0, actor_traces@[i].1@),
                );
                (forall|q: int|
                    0 <= q < items.len() ==> !crate::parse::is_structured_input(
                        #[trigger] items[q].1,
                    )) ==> match r {
                    Ok(s) => spec_analyze_from(
                        Seq::empty(),
                        Seq::empty(),
                        items,
                    ) == Ok::<(Seq<(u32, TreeData)>, Seq<(Seq<char>, Seq<u32>)>), u32>(
                        (s.fast_view(), s.io_view()),
                    ),
                    Err(e) => spec_analyze_from(Seq::empty(), Seq::empty(), items) == Err::<
                        (Seq<(u32, TreeData)>, Seq<(Seq<char>, Seq<u32>)>),
                        u32,
                    >(e.actor_id) && e.error == TraceError::MalformedTrace,
                }
            }),
    {
        let ghost items = Seq::new(
            actor_traces@.len(),
            |i: int| (actor_traces@[i].0, actor_traces@[i].1@),
        );
        let mut fast: Vec<(u32, TreeView)> = Vec::new();
        let mut io: Vec<(Vec<char>, Vec<u32>)> = Vec::new();
        let mut i: usize = 0;
        proof {
            assert(fast_pairs_view(fast@) =~= Seq::<(u32, TreeData)>::empty());
            assert(io_pairs_view(io@) =~= Seq::<(Seq<char>, Seq<u32>)>::empty());
            assert(items.skip(0) =~= items);
        }
        while i < actor_traces.len()
            invariant
                0 <= i <= actor_traces@.len(),
                items == Seq::new(
                    actor_traces@.len(),
                    |i: int| (actor_traces@[i].0, actor_traces@[i].1@),
                ),
                (forall|q: int|
                    0 <= q < items.len() ==> !crate::parse::is_structured_input(
                        #[trigger] items[q].1,
                    )) ==> spec_analyze_from(Seq::empty(), Seq::empty(), items)
                    == spec_analyze_from(
                    fast_pairs_view(fast@),
                    io_pairs_view(io@),
                    items.skip(i as int),
                ),
            decreases actor_traces@.len() - i,
        {
            let actor_id = actor_traces[i].0;
            proof {
                assert(items.skip(i as int).first() == items[i as int]);
                assert(items.skip(i as int).drop_first() =~= items.skip(i + 1));
            }
            let tree = match crate::parse::reconstruct(actor_traces[i].1.as_str()) {
                Ok(t) => t,
                Err(e) => {
                    return Err(AnalyzeError { actor_id, error: e });
                },
            };
            tree.find_io_bound(actor_id, &mut io);
            if tree.has_fast_children() {
                fast_add_exec(&mut fast, actor_id, tree);
            }
            i = i + 1;
        }
        proof {
            assert(items.skip(items.len() as int).len() == 0);
        }
        Ok(AnalyzeSummary { has_fast_children_actors: fast, io_bound_actors: io })
    }
}

/// [`fast_add`] folded over a list of entries, left to right: entries of `b`
/// replace entries of `a` for a shared actor.
pub open spec fn merge_fast(
    a: Seq<(u32, TreeData)>,
    b: Seq<(u32, TreeData)>,
) -> Seq<(u32, TreeData)>
    decreases b.len(),
{
    if b.len() == 0 {
        a
    } else {
        merge_fast(fast_add(a, b.first().0, b.first().1), b.drop_first())
    }
}

/// [`io_add`] folded over one label's identifier list.
pub open spec fn ids_fold(
    m: Seq<(Seq<char>, Seq<u32>)>,
    name: Seq<char>,
    ids: Seq<u32>,
) -> Seq<(Seq<char>, Seq<u32>)>
    decreases ids.len(),
{
    if ids.len() == 0 {
        m
    } else {
        ids_fold(io_add(m, name, ids.first()), name, ids.drop_first())
    }
}

/// [`ids_fold`] folded over a list of entries: the merged map unites the
/// actor sets label by label.
pub open spec fn merge_io(
    a: Seq<(Seq<char>, Seq<u32>)>,
    b: Seq<(Seq<char>, Seq<u32>)>,
) -> Seq<(Seq<char>, Seq<u32>)>
    decreases b.len(),
{
    if b.len() == 0 {
        a
    } else {
        merge_io(ids_fold(a, b.first().0, b.first().1), b.drop_first())
    }
}

/// The identifier list rendered as `1, 2, 3`.
pub open spec fn spec_render_ids(ids: Seq<u32>) -> Seq<char>
    decreases ids.len(),
{
    if ids.len() == 0 {
        Seq::empty()
    } else if ids.len() == 1 {
        dec_digits(ids[0] as nat)
    } else {
        spec_render_ids(ids.drop_last()) + ", "@ + dec_digits(ids.last() as nat)
    }
}

/// The fast-children section body: each actor's identifier, then its tree.
pub open spec fn spec_render_fast(s: Seq<(u32, TreeData)>) -> Seq<char>
    decreases s.len(),
{
    if s.len() == 0 {
        Seq::empty()
    } else {
        spec_render_fast(s.drop_last()) + ">> Actor "@ + dec_digits(s.last().0 as nat) + "\n"@
            + spec_render_tree(s.last().1) + "\n"@
    }
}

/// The I/O-bound section body: each operation label, then its actors.
pub open spec fn spec_render_io(s: Seq<(Seq<char>, Seq<u32>)>) -> Seq<char>
    decreases s.len(),
{
    if s.len() == 0 {
        Seq::empty()
    } else {
        spec_render_io(s.drop_last()) + ">> IO Info: `"@ + s.last().0 + "`\n  Actors: ["@
            + spec_render_ids(s.last().1) + "]\n"@
    }
}

/// The whole report: a header, the fast-children section, the I/O-bound
/// section, or a single no-bottleneck line if both are empty.
pub open spec fn spec_render_summary(
    fast: Seq<(u32, TreeData)>,
    io: Seq<(Seq<char>, Seq<u32>)>,
) -> Seq<char> {
    "------ Analyze Summary ------\n"@ + (if fast.len() > 0 {
        "\n--- Fast Children Actors ---\n"@ + spec_render_fast(fast)
    } else {
        Seq::<char>::empty()
    }) + (if io.len() > 0 {
        "\n--- IO Bound Actors ---\n"@ + spec_render_io(io)
    } else {
        Seq::<char>::empty()
    }) + (if fast.len() == 0 && io.len() == 0 {
        "No bottleneck actors detected.\n"@
    } else {
        Seq::<char>::empty()
    })
}

impl Default for AnalyzeSummary {
    /// An empty summary.
    fn default() -> (r: AnalyzeSummary)
        ensures
            r.fast_view() == Seq::<(u32, TreeData)>::empty(),
            r.io_view() == Seq::<(Seq<char>, Seq<u32>)>::empty(),
    {
        AnalyzeSummary::new()
    }
}

/// Appends the characters of `s` to `out`.
fn push_lit(out: &mut Vec<char>, s: &str)
    ensures
        final(out)@ == old(out)@ + s@,
{
    let v = str_to_chars(s);
    let mut k: usize = 0;
    while k < v.len()
        invariant
            0 <= k <= v@.len(),
            v@ == s@,
            out@ == old(out)@ + v@.subrange(0, k as int),
        decreases v@.len() - k,
    {
        out.push(v[k]);
        proof {
            assert(v@.subrange(0, k + 1) =~= v@.subrange(0, k as int).push(v@[k as int]));
        }
        k = k + 1;
    }
    proof {
        assert(v@.subrange(0, v@.len() as int) =~= v@);
    }
}

impl AnalyzeSummary {
    /// Adds `b`'s findings to this summary: `b`'s fast-children trees replace
    /// this summary's on a shared actor, and the I/O-bound actor sets are
    /// united label by label.
    pub fn merge_other(&mut self, b: &AnalyzeSummary)
        ensures
            final(self).fast_view() == merge_fast(old(self).fast_view(), b.fast_view()),
            final(self).io_view() == merge_io(old(self).io_view(), b.io_view()),
    {
        let ghost bf = b.fast_view();
        let mut i: usize = 0;
        proof {
            assert(bf.skip(0) =~= bf);
        }
        while i < b.has_fast_children_actors.len()
            invariant
                0 <= i <= b.has_fast_children_actors@.len(),
                bf == b.fast_view(),
                bf.len() == b.has_fast_children_actors@.len(),
                self.io_bound_actors@ == old(self).io_bound_actors@,
                merge_fast(old(self).fast_view(), bf) == merge_fast(
                    self.fast_view(),
                    bf.skip(i as int),
                ),
            decreases b.has_fast_children_actors@.len() - i,
        {
            proof {
                assert(bf.skip(i as int).first() == bf[i as int]);
                assert(bf.skip(i as int).drop_first() =~= bf.skip(i + 1));
            }
            let id = b.has_fast_children_actors[i].0;
            let t = b.has_fast_children_actors[i].1.deep_clone();
            fast_add_exec(&mut self.has_fast_children_actors, id, t);
            i = i + 1;
        }
        proof {
            assert(bf.skip(bf.len() as int).len() == 0);
        }
        let ghost fast_done = self.has_fast_children_actors@;
        let ghost bio = b.io_view();
        let mut j: usize = 0;
        proof {
            assert(bio.skip(0) =~= bio);
        }
        while j < b.io_bound_actors.len()
            invariant
                0 <= j <= b.io_bound_actors@.len(),
                bio == b.io_view(),
                bio.len() == b.io_bound_actors@.len(),
                self.has_fast_children_actors@ == fast_done,
                fast_pairs_view(fast_done) == merge_fast(old(self).fast_view(), b.fast_view()),
                merge_io(old(self).io_view(), bio) == merge_io(self.io_view(), bio.skip(j as int)),
            decreases b.io_bound_actors@.len() - j,
        {
            proof {
                assert(bio.skip(j as int).first() == bio[j as int]);
                assert(bio.skip(j as int).drop_first() =~= bio.skip(j + 1));
            }
            let ghost namev = bio[j as int].0;
            let ghost idsv = bio[j as int].1;
            let ghost m_entry = self.io_view();
            let mut k: usize = 0;
            proof {
                assert(idsv.skip(0) =~= idsv);
            }
            while k < b.io_bound_actors[j].1.len()
                invariant
                    0 <= j < b.io_bound_actors@.len(),
                    0 <= k <= b.io_bound_actors@[j as int].1@.len(),
                    bio == b.io_view(),
                    namev == bio[j as int].0,
                    idsv == bio[j as int].1,
                    namev == b.io_bound_actors@[j as int].0@,
                    idsv == b.io_bound_actors@[j as int].1@,
                    self.has_fast_children_actors@ == fast_done,
                    ids_fold(m_entry, namev, idsv) == ids_fold(
                        self.io_view(),
                        namev,
                        idsv.skip(k as int),
                    ),
                decreases b.io_bound_actors@[j as int].1@.len() - k,
            {
                proof {
                    assert(idsv.skip(k as int).first() == idsv[k as int]);
                    assert(idsv.skip(k as int).drop_first() =~= idsv.skip(k + 1));
                }
                let blen = b.io_bound_actors[j].0.len();
                let name = copy_range(&b.io_bound_actors[j].0, 0, blen);
                proof {
                    assert(b.io_bound_actors@[j as int].0@.subrange(
                        0,
                        b.io_bound_actors@[j as int].0@.len() as int,
                    ) =~= b.io_bound_actors@[j as int].0@);
                }
                let id = b.io_bound_actors[j].1[k];
                io_add_exec(&mut self.io_bound_actors, name, id);
                k = k + 1;
            }
            proof {
                assert(idsv.skip(idsv.len() as int).len() == 0);
            }
            j = j + 1;
        }
        proof {
            assert(bio.skip(bio.len() as int).len() == 0);
        }
    }

    /// Renders this summary as a plain-text report.
    pub fn render_summary(&self) -> (r: String)
        ensures
            r@ == spec_render_summary(self.fast_view(), self.io_view()),
    {
        let ghost fv = self.fast_view();
        let ghost iv = self.io_view();
        let mut out: Vec<char> = Vec::new();
        push_lit(&mut out, "------ Analyze Summary ------\n");
        let ghost head = "------ Analyze Summary ------\n"@;
        if self.has_fast_children_actors.len() > 0 {
            push_lit(&mut out, "\n--- Fast Children Actors ---\n");
            let ghost head2 = head + "\n--- Fast Children Actors ---\n"@;
            proof {
                assert(fv.subrange(0, 0) =~= Seq::<(u32, TreeData)>::empty());
                assert(out@ =~= head2 + spec_render_fast(fv.subrange(0, 0)));
            }
            let mut i: usize = 0;
            while i < self.has_fast_children_actors.len()
                invariant
                    0 <= i <= self.has_fast_children_actors@.len(),
                    fv == self.fast_view(),
                    fv.len() == self.has_fast_children_actors@.len(),
                    head2 == head + "\n--- Fast Children Actors ---\n"@,
                    out@ == head2 + spec_render_fast(fv.subrange(0, i as int)),
                decreases self.has_fast_children_actors@.len() - i,
            {
                push_lit(&mut out, ">> Actor ");
                push_dec_digits(&mut out, self.has_fast_children_actors[i].0 as u128);
                push_lit(&mut out, "\n");
                render_tree_into(&self.has_fast_children_actors[i].1, &mut out);
                push_lit(&mut out, "\n");
                proof {
                    assert(fv.subrange(0, i + 1).drop_last() =~= fv.subrange(0, i as int));
                    assert(fv.subrange(0, i + 1).last() == fv[i as int]);
                    assert(fv[i as int].0 as u128 as nat == fv[i as int].0 as nat);
                    assert(out@ =~= head2 + spec_render_fast(fv.subrange(0, i + 1)));
                }
                i = i + 1;
            }
            proof {
                assert(fv.subrange(0, fv.len() as int) =~= fv);
            }
        }
        let ghost mid = head + (if fv.len() > 0 {
            "\n--- Fast Children Actors ---\n"@ + spec_render_fast(fv)
        } else {
            Seq::<char>::empty()
        });
        proof {
            assert(out@ =~= mid);
        }
        if self.io_bound_actors.len() > 0 {
            push_lit(&mut out, "\n--- IO Bound Actors ---\n");
            let ghost mid2 = mid + "\n--- IO Bound Actors ---\n"@;
            proof {
                assert(iv.subrange(0, 0) =~= Seq::<(Seq<char>, Seq<u32>)>::empty());
                assert(out@ =~= mid2 + spec_render_io(iv.subrange(0, 0)));
            }
            let mut j: usize = 0;
            while j < self.io_bound_actors.len()
                invariant
                    0 <= j <= self.io_bound_actors@.len(),
                    iv == self.io_view(),
                    iv.len() == self.io_bound_actors@.len(),
                    mid2 == mid + "\n--- IO Bound Actors ---\n"@,
                    out@ == mid2 + spec_render_io(iv.subrange(0, j as int)),
                decreases self.io_bound_actors@.len() - j,
            {
                push_lit(&mut out, ">> IO Info: `");
                let blen = self.io_bound_actors[j].0.len();
                let ghost before = out@;
                let mut c: usize = 0;
                while c < blen
                    invariant
                        0 <= c <= self.io_bound_actors@[j as int].0@.len(),
                        0 <= j < self.io_bound_actors@.len(),
                        blen == self.io_bound_actors@[j as int].0@.len(),
                        out@ == before + self.io_bound_actors@[j as int].0@.subrange(0, c as int),
                    decreases blen - c,
                {
                    out.push(self.io_bound_actors[j].0[c]);
                    proof {
                        let nm = self.io_bound_actors@[j as int].0@;
                        assert(nm.subrange(0, c + 1) =~= nm.subrange(0, c as int).push(
                            nm[c as int],
                        ));
                    }
                    c = c + 1;
                }
                proof {
                    let nm = self.io_bound_actors@[j as int].0@;
                    assert(nm.subrange(0, nm.len() as int) =~= nm);
                }
                push_lit(&mut out, "`\n  Actors: [");
                let ghost idsv = iv[j as int].1;
                let ghost before_ids = out@;
                let mut k: usize = 0;
                proof {
                    assert(idsv.subrange(0, 0) =~= Seq::<u32>::empty());
                }
                while k < self.io_bound_actors[j].1.len()
                    invariant
                        0 <= k <= self.io_bound_actors@[j as int].1@.len(),
                        0 <= j < self.io_bound_actors@.len(),
                        iv == self.io_view(),
                        idsv == iv[j as int].1,
                        idsv == self.io_bound_actors@[j as int].1@,
                        out@ == before_ids + spec_render_ids(idsv.subrange(0, k as int)),
                    decreases self.io_bound_actors@[j as int].1@.len() - k,
                {
                    if k > 0 {
                        push_lit(&mut out, ", ");
                    }
                    push_dec_digits(&mut out, self.io_bound_actors[j].1[k] as u128);
                    proof {
                        assert(idsv.subrange(0, k + 1).drop_last() =~= idsv.subrange(0, k as int));
                        assert(idsv.subrange(0, k + 1).last() == idsv[k as int]);
                        assert(idsv[k as int] as u128 as nat == idsv[k as int] as nat);
                        assert(out@ =~= before_ids + spec_render_ids(idsv.subrange(0, k + 1)));
                    }
                    k = k + 1;
                }
                proof {
                    assert(idsv.subrange(0, idsv.len() as int) =~= idsv);
                }
                push_lit(&mut out, "]\n");
                proof {
                    assert(iv.subrange(0, j + 1).drop_last() =~= iv.subrange(0, j as int));
                    assert(iv.subrange(0, j + 1).last() == iv[j as int]);
                    assert(out@ =~= mid2 + spec_render_io(iv.subrange(0, j + 1)));
                }
                j = j + 1;
            }
            proof {
                assert(iv.subrange(0, iv.len() as int) =~= iv);
            }
        }
        if self.has_fast_children_actors.len() == 0 && self.io_bound_actors.len() == 0 {
            push_lit(&mut out, "No bottleneck actors detected.\n");
        }
        proof {
            assert(out@ =~= spec_render_summary(fv, iv));
        }
        chars_to_string(&out)
    }
}

} // verus!
