//! The tree data model: one span per traced execution point, one tree per
//! actor snapshot, plus the abstract (mathematical) view of both.
use vstd::prelude::*;

verus! {

/// Sentinel stored in `TreeView::current` when the identifier of the active
/// span cannot be recovered (the textual format does not carry it).
pub const UNKNOWN_CURRENT: usize = usize::MAX;

/// Immutable descriptor of one traced execution point.
pub struct SpanView {
    /// Text label; never empty for trees built by the text parser.
    pub name: Vec<char>,
    /// Whether the span was declared verbose.
    pub is_verbose: bool,
    /// Whether the span is expected to run indefinitely, which exempts it
    /// from stall flagging regardless of its elapsed time.
    pub is_long_running: bool,
}

/// One node of an actor's execution tree.
pub struct SpanNodeView {
    /// Arena-local identifier; not stable across a render/reparse cycle.
    pub id: usize,
    /// Span metadata.
    pub span: SpanView,
    /// How long the span has been active, in nanoseconds.
    pub elapsed_ns: u128,
    /// Ordered, exclusively owned children.
    pub children: Vec<SpanNodeView>,
}

/// An actor's full trace snapshot.
pub struct TreeView {
    /// Identifier of the span active at capture time, or
    /// [`UNKNOWN_CURRENT`].
    pub current: usize,
    /// The root span tree.
    pub tree: SpanNodeView,
    /// Subtrees severed from their original parent context, each formatted
    /// as its own top-level block.
    pub detached: Vec<SpanNodeView>,
}

/// Abstract value of a [`SpanView`].
pub struct SpanData {
    pub name: Seq<char>,
    pub is_verbose: bool,
    pub is_long_running: bool,
}

/// Abstract value of a [`SpanNodeView`].
pub struct SpanNodeData {
    pub id: usize,
    pub span: SpanData,
    pub elapsed_ns: u128,
    pub children: Seq<SpanNodeData>,
}

/// Abstract value of a [`TreeView`].
pub struct TreeData {
    pub current: usize,
    pub tree: SpanNodeData,
    pub detached: Seq<SpanNodeData>,
}

/// Abstract value of a span node, recursively.
pub open spec fn node_view(n: SpanNodeView) -> SpanNodeData
    decreases n,
{
    SpanNodeData {
        id: n.id,
        span: SpanData {
            name: n.span.name@,
            is_verbose: n.span.is_verbose,
            is_long_running: n.span.is_long_running,
        },
        elapsed_ns: n.elapsed_ns,
        children: nodes_view(n.children@),
    }
}

/// Abstract values of a sequence of span nodes.
pub open spec fn nodes_view(s: Seq<SpanNodeView>) -> Seq<SpanNodeData>
    decreases s,
{
    if s.len() == 0 {
        Seq::empty()
    } else {
        nodes_view(s.drop_last()).push(node_view(s.last()))
    }
}

/// `nodes_view` maps `node_view` over the sequence, element by element.
pub proof fn lemma_nodes_view(s: Seq<SpanNodeView>)
    ensures
        nodes_view(s).len() == s.len(),
        forall|i: int| 0 <= i < s.len() ==> nodes_view(s)[i] == node_view(#[trigger] s[i]),
    decreases s.len(),
{
    if s.len() > 0 {
        lemma_nodes_view(s.drop_last());
        assert forall|i: int| 0 <= i < s.len() implies nodes_view(s)[i] == node_view(
            #[trigger] s[i],
        ) by {
            if i < s.len() - 1 {
                assert(s.drop_last()[i] == s[i]);
                assert(nodes_view(s)[i] == nodes_view(s.drop_last())[i]);
            } else {
                assert(s.last() == s[i]);
            }
        }
    }
}

/// `nodes_view` distributes over `push`.
pub proof fn lemma_nodes_view_push(s: Seq<SpanNodeView>, n: SpanNodeView)
    ensures
        nodes_view(s.push(n)) == nodes_view(s).push(node_view(n)),
{
    assert(s.push(n).drop_last() =~= s);
    assert(s.push(n).last() == n);
}

impl View for SpanView {
    type V = SpanData;

    open spec fn view(&self) -> SpanData {
        SpanData {
            name: self.name@,
            is_verbose: self.is_verbose,
            is_long_running: self.is_long_running,
        }
    }
}

impl View for SpanNodeView {
    type V = SpanNodeData;

    open spec fn view(&self) -> SpanNodeData {
        node_view(*self)
    }
}

impl View for TreeView {
    type V = TreeData;

    open spec fn view(&self) -> TreeData {
        TreeData { current: self.current, tree: node_view(self.tree), detached: nodes_view(self.detached@) }
    }
}

impl SpanNodeView {
    /// A structurally identical copy of this node and all its descendants.
    pub fn deep_clone(&self) -> (r: SpanNodeView)
        ensures
            r@ == self@,
        decreases *self,
    {
        let mut children: Vec<SpanNodeView> = Vec::new();
        let mut i: usize = 0;
        while i < self.children.len()
            invariant
                0 <= i <= self.children@.len(),
                children@.len() == i,
                nodes_view(children@) == nodes_view(self.children@.subrange(0, i as int)),
            decreases self.children@.len() - i,
        {
            let c = self.children[i].deep_clone();
            proof {
                lemma_nodes_view_push(children@, c);
                lemma_nodes_view_push(self.children@.subrange(0, i as int), self.children@[i as int]);
                assert(self.children@.subrange(0, i as int).push(self.children@[i as int])
                    =~= self.children@.subrange(0, i + 1));
            }
            children.push(c);
            i = i + 1;
        }
        proof {
            assert(self.children@.subrange(0, self.children@.len() as int) =~= self.children@);
        }
        let mut name: Vec<char> = Vec::new();
        let mut j: usize = 0;
        while j < self.span.name.len()
            invariant
                0 <= j <= self.span.name@.len(),
                name@ == self.span.name@.subrange(0, j as int),
            decreases self.span.name@.len() - j,
        {
            name.push(self.span.name[j]);
            proof {
                assert(self.span.name@.subrange(0, j + 1) =~= self.span.name@.subrange(
                    0,
                    j as int,
                ).push(self.span.name@[j as int]));
            }
            j = j + 1;
        }
        proof {
            assert(self.span.name@.subrange(0, self.span.name@.len() as int) =~= self.span.name@);
        }
        SpanNodeView {
            id: self.id,
            span: SpanView {
                name,
                is_verbose: self.span.is_verbose,
                is_long_running: self.span.is_long_running,
            },
            elapsed_ns: self.elapsed_ns,
            children,
        }
    }
}

impl TreeView {
    /// A structurally identical copy of this snapshot.
    pub fn deep_clone(&self) -> (r: TreeView)
        ensures
            r@ == self@,
    {
        let mut detached: Vec<SpanNodeView> = Vec::new();
        let mut i: usize = 0;
        while i < self.detached.len()
            invariant
                0 <= i <= self.detached@.len(),
                nodes_view(detached@) == nodes_view(self.detached@.subrange(0, i as int)),
            decreases self.detached@.len() - i,
        {
            let d = self.detached[i].deep_clone();
            proof {
                lemma_nodes_view_push(detached@, d);
                lemma_nodes_view_push(self.detached@.subrange(0, i as int), self.detached@[i as int]);
                assert(self.detached@.subrange(0, i as int).push(self.detached@[i as int])
                    =~= self.detached@.subrange(0, i + 1));
            }
            detached.push(d);
            i = i + 1;
        }
        proof {
            assert(self.detached@.subrange(0, self.detached@.len() as int) =~= self.detached@);
        }
        TreeView { current: self.current, tree: self.tree.deep_clone(), detached }
    }
}

/// Failure of a single trace reconstruction.
#[derive(PartialEq, Eq, Structural, Clone, Copy, Debug)]
pub enum TraceError {
    /// No root span could be recovered from the input (or, for structured
    /// input, the document does not decode to the expected schema).
    MalformedTrace,
}

} // verus!
