//! The textual-format parser: reconstructs a [`TreeView`] from an
//! indentation-based trace dump (two spaces per nesting level).
//!
//! Reconstruction runs a stack machine over the input lines: a deeper line
//! pushes a new open node, a shallower line closes open nodes by attaching
//! each popped node as the last child of the node below it, a line beginning
//! with `[Detached ` files the completed top-level block into the detached
//! list, and a second depth-0 block likewise files the previous block into
//! the detached list.  Node identifiers and the current-span marker cannot be
//! recovered from this format; identifiers parse as zero and `current` is set
//! to [`crate::tree::UNKNOWN_CURRENT`].
use vstd::prelude::*;

use crate::chars::copy_range;
use crate::chars::count_leading_char;
use crate::chars::ends_with_seq;
use crate::chars::find_char_in_range;
use crate::chars::range_ends_with;
use crate::chars::range_starts_with;
use crate::chars::starts_with_seq;
use crate::chars::str_to_chars;
use crate::chars::trim_end_range;
use crate::chars::trim_end_spec;
use crate::chars::trim_spec;
use crate::chars::trim_start_range;
use crate::time::first_index_of;
use crate::time::lemma_first_index_of_subrange;
use crate::time::parse_elapsed_range;
use crate::time::spec_parse_elapsed;
use crate::time::STALL_THRESHOLD_NS;
use crate::tree::lemma_nodes_view;
use crate::tree::lemma_nodes_view_push;
use crate::tree::nodes_view;
use crate::tree::node_view;
use crate::tree::SpanData;
use crate::tree::SpanNodeData;
use crate::tree::SpanNodeView;
use crate::tree::SpanView;
use crate::tree::TraceError;
use crate::tree::TreeData;
use crate::tree::TreeView;
use crate::tree::UNKNOWN_CURRENT;

verus! {

/// The header marking a detached-subtree block.
pub open spec fn detached_prefix() -> Seq<char> {
    seq!['[', 'D', 'e', 't', 'a', 'c', 'h', 'e', 'd', ' ']
}

/// The suffix marking the span active at capture time.
pub open spec fn current_suffix() -> Seq<char> {
    seq!['<', '=', '=', ' ', 'c', 'u', 'r', 'r', 'e', 'n', 't']
}

/// Number of spaces at the start of `s`.
pub open spec fn leading_spaces(s: Seq<char>) -> int
    decreases s.len(),
{
    if s.len() == 0 || s.first() != ' ' {
        0
    } else {
        1 + leading_spaces(s.drop_first())
    }
}

/// The input split at newlines (no line ending kept; a trailing newline
/// yields no extra line).
pub open spec fn split_lines(s: Seq<char>) -> Seq<Seq<char>>
    decreases s.len(),
{
    if s.len() == 0 {
        Seq::empty()
    } else {
        let i = first_index_of(s, '\n');
        if 0 <= i < s.len() {
            seq![s.take(i)] + split_lines(s.skip(i + 1))
        } else {
            seq![s]
        }
    }
}

/// The stack with its top node attached as the last child of the node below.
pub open spec fn attach_top(st: Seq<SpanNodeData>) -> Seq<SpanNodeData>
    recommends
        st.len() >= 2,
{
    let top = st.last();
    let parent = st[st.len() - 2];
    st.drop_last().update(
        st.len() - 2,
        SpanNodeData {
            id: parent.id,
            span: parent.span,
            elapsed_ns: parent.elapsed_ns,
            children: parent.children.push(top),
        },
    )
}

/// Closes open nodes until the stack is no deeper than `d` (never below one
/// entry): each closed node becomes the last child of the node below it.
pub open spec fn spec_pop_to(st: Seq<SpanNodeData>, d: int) -> Seq<SpanNodeData>
    decreases st.len(),
{
    if st.len() <= d || st.len() <= 1 {
        st
    } else {
        spec_pop_to(attach_top(st), d)
    }
}

/// The single node a non-empty stack collapses to.
pub open spec fn spec_drain(st: Seq<SpanNodeData>) -> SpanNodeData
    recommends
        st.len() >= 1,
{
    spec_pop_to(st, 1).first()
}

/// Collapsing to depth `d >= 1` leaves `min(d, len)` entries.
pub proof fn lemma_pop_to_len(st: Seq<SpanNodeData>, d: int)
    requires
        d >= 1,
    ensures
        st.len() >= d ==> spec_pop_to(st, d).len() == d,
        st.len() < d ==> spec_pop_to(st, d) == st,
    decreases st.len(),
{
    if st.len() > d && st.len() > 1 {
        lemma_pop_to_len(attach_top(st), d);
    }
}

/// One step of the line machine: the effect of `raw` on the open-node stack
/// and the detached list.
pub open spec fn step_line(
    stack: Seq<SpanNodeData>,
    detached: Seq<SpanNodeData>,
    raw: Seq<char>,
) -> (Seq<SpanNodeData>, Seq<SpanNodeData>) {
    let l = trim_end_spec(raw);
    if starts_with_seq(l, detached_prefix()) {
        if stack.len() == 0 {
            (stack, detached)
        } else {
            (Seq::empty(), detached.push(spec_drain(stack)))
        }
    } else {
        let l2 = if ends_with_seq(l, current_suffix()) {
            trim_end_spec(l.take(l.len() - 11))
        } else {
            l
        };
        content_step(stack, detached, l2)
    }
}

/// The effect of a candidate content line `<name>[<elapsed>]` (already
/// stripped of the current-span marker).  Lines without a bracketed literal
/// or without a name are skipped.
pub open spec fn content_step(
    stack: Seq<SpanNodeData>,
    detached: Seq<SpanNodeData>,
    l2: Seq<char>,
) -> (Seq<SpanNodeData>, Seq<SpanNodeData>) {
    let b = first_index_of(l2, '[');
    if b == l2.len() || b + 1 == l2.len() || l2.last() != ']' {
        (stack, detached)
    } else {
        let name = trim_spec(l2.take(b));
        if name.len() == 0 {
            (stack, detached)
        } else {
            let lit = l2.subrange(b + 1, l2.len() - 1);
            let elapsed = spec_parse_elapsed(trim_spec(lit));
            let lr = elapsed >= STALL_THRESHOLD_NS && !starts_with_seq(
                lit,
                seq!['!', '!', '!'],
            );
            let node = SpanNodeData {
                id: 0,
                span: SpanData { name, is_verbose: false, is_long_running: lr },
                elapsed_ns: elapsed,
                children: Seq::empty(),
            };
            let depth = leading_spaces(l2) / 2;
            if depth == 0 {
                if stack.len() == 0 {
                    (seq![node], detached)
                } else {
                    (seq![node], detached.push(spec_drain(stack)))
                }
            } else {
                (spec_pop_to(stack, depth).push(node), detached)
            }
        }
    }
}

/// The line machine run over a whole sequence of lines.
pub open spec fn run_lines(
    stack: Seq<SpanNodeData>,
    detached: Seq<SpanNodeData>,
    lines: Seq<Seq<char>>,
) -> (Seq<SpanNodeData>, Seq<SpanNodeData>)
    decreases lines.len(),
{
    if lines.len() == 0 {
        (stack, detached)
    } else {
        let st = step_line(stack, detached, lines.first());
        run_lines(st.0, st.1, lines.drop_first())
    }
}

/// The tree a trace text reconstructs to: the last top-level block becomes
/// the root, earlier blocks the detached list; with no content line at all
/// the trace is malformed.
pub open spec fn spec_parse_tree(s: Seq<char>) -> Result<TreeData, TraceError> {
    let st = run_lines(Seq::empty(), Seq::empty(), split_lines(s));
    if st.0.len() == 0 {
        Err(TraceError::MalformedTrace)
    } else {
        Ok(
            TreeData {
                current: UNKNOWN_CURRENT,
                tree: spec_drain(st.0),
                detached: st.1,
            },
        )
    }
}

/// Closes open nodes until the stack is no deeper than `depth`.
fn pop_to(stack: &mut Vec<SpanNodeView>, depth: usize)
    ensures
        nodes_view(final(stack)@) == spec_pop_to(nodes_view(old(stack)@), depth as int),
{
    proof {
        lemma_nodes_view(stack@);
    }
    while stack.len() > depth && stack.len() >= 2
        invariant
            spec_pop_to(nodes_view(stack@), depth as int) == spec_pop_to(
                nodes_view(old(stack)@),
                depth as int,
            ),
        decreases stack@.len(),
    {
        let ghost s0 = stack@;
        let ghost views0 = nodes_view(s0);
        proof {
            lemma_nodes_view(s0);
        }
        let top = stack.pop().unwrap();
        let mut parent = stack.pop().unwrap();
        parent.children.push(top);
        stack.push(parent);
        proof {
            lemma_nodes_view_push(parent.children@.drop_last(), top);
            assert(parent.children@.drop_last() =~= s0[s0.len() - 2].children@);
            assert(node_view(parent).children =~= views0[s0.len() - 2].children.push(
                node_view(top),
            ));
            assert(node_view(parent) == attach_top(views0)[s0.len() - 2]);
            lemma_nodes_view(stack@);
            lemma_nodes_view(s0.drop_last());
            assert forall|i: int| 0 <= i < s0.len() - 1 implies nodes_view(stack@)[i]
                == attach_top(views0)[i] by {
                if i < s0.len() - 2 {
                    assert(stack@[i] == s0[i]);
                    assert(attach_top(views0)[i] == views0[i]);
                    assert(views0[i] == node_view(s0[i]));
                }
            }
            assert(nodes_view(stack@) =~= attach_top(views0));
        }
    }
    proof {
        lemma_nodes_view(stack@);
        assert(spec_pop_to(nodes_view(stack@), depth as int) == nodes_view(stack@));
    }
}

/// Collapses a non-empty stack into its root node and hands it out.
fn drain_stack(stack: &mut Vec<SpanNodeView>) -> (r: SpanNodeView)
    requires
        old(stack)@.len() >= 1,
    ensures
        node_view(r) == spec_drain(nodes_view(old(stack)@)),
        final(stack)@.len() == 0,
{
    proof {
        lemma_nodes_view(stack@);
        lemma_pop_to_len(nodes_view(stack@), 1);
    }
    pop_to(stack, 1);
    proof {
        lemma_nodes_view(stack@);
    }
    let r = stack.pop().unwrap();
    r
}

/// Applies one raw input line to the parser state.
#[verifier::rlimit(60)]
fn process_line(
    v: &Vec<char>,
    lo: usize,
    hi: usize,
    stack: &mut Vec<SpanNodeView>,
    detached: &mut Vec<SpanNodeView>,
)
    requires
        lo <= hi <= v@.len(),
    ensures
        (nodes_view(final(stack)@), nodes_view(final(detached)@)) == step_line(
            nodes_view(old(stack)@),
            nodes_view(old(detached)@),
            v@.subrange(lo as int, hi as int),
        ),
{
    let ghost raw = v@.subrange(lo as int, hi as int);
    let ghost stack0 = nodes_view(old(stack)@);
    let ghost det0 = nodes_view(old(detached)@);
    let le = trim_end_range(v, lo, hi);
    let ghost l = trim_end_spec(raw);
    proof {
        assert(v@.subrange(lo as int, le as int) == l);
    }
    let mut det_pat: Vec<char> = Vec::new();
    det_pat.push('[');
    det_pat.push('D');
    det_pat.push('e');
    det_pat.push('t');
    det_pat.push('a');
    det_pat.push('c');
    det_pat.push('h');
    det_pat.push('e');
    det_pat.push('d');
    det_pat.push(' ');
    proof {
        assert(det_pat@ =~= detached_prefix());
    }
    if range_starts_with(v, lo, le, &det_pat) {
        if stack.len() > 0 {
            proof {
                lemma_nodes_view(stack@);
            }
            let root = drain_stack(stack);
            detached.push(root);
            proof {
                lemma_nodes_view_push(old(detached)@, root);
                assert(nodes_view(stack@) =~= Seq::<SpanNodeData>::empty());
            }
        }
        return ;
    }
    let mut cur_pat: Vec<char> = Vec::new();
    cur_pat.push('<');
    cur_pat.push('=');
    cur_pat.push('=');
    cur_pat.push(' ');
    cur_pat.push('c');
    cur_pat.push('u');
    cur_pat.push('r');
    cur_pat.push('r');
    cur_pat.push('e');
    cur_pat.push('n');
    cur_pat.push('t');
    proof {
        assert(cur_pat@ =~= current_suffix());
    }
    let l2e: usize = if range_ends_with(v, lo, le, &cur_pat) {
        let e = trim_end_range(v, lo, le - 11);
        proof {
            assert(l.take(l.len() - 11) =~= v@.subrange(lo as int, le - 11));
        }
        e
    } else {
        le
    };
    let ghost l2 = if ends_with_seq(l, current_suffix()) {
        trim_end_spec(l.take(l.len() - 11))
    } else {
        l
    };
    proof {
        assert(v@.subrange(lo as int, l2e as int) == l2);
    }
    // Locate the bracketed elapsed literal.
    let b = match find_char_in_range(v, lo, l2e, '[') {
        None => {
            proof {
                lemma_first_index_of_subrange(v@, lo as int, l2e as int, '[', None);
            }
            return ;
        },
        Some(b) => b,
    };
    proof {
        lemma_first_index_of_subrange(v@, lo as int, l2e as int, '[', Some(b));
        assert(first_index_of(l2, '[') == b - lo);
    }
    if b + 1 == l2e {
        return ;
    }
    if v[l2e - 1] != ']' {
        proof {
            assert(l2.last() == v@[l2e - 1]);
        }
        return ;
    }
    proof {
        assert(l2.last() == v@[l2e - 1]);
    }
    // The span name: everything before the bracket, trimmed.
    let nte = trim_end_range(v, lo, b);
    let nts = trim_start_range(v, lo, nte);
    proof {
        assert(l2.take(b - lo) =~= v@.subrange(lo as int, b as int));
        assert(v@.subrange(nts as int, nte as int) == trim_spec(l2.take(b - lo)));
    }
    if nts == nte {
        return ;
    }
    let name = copy_range(v, nts, nte);
    // The elapsed literal between the brackets.
    let lit_lo = b + 1;
    let lit_hi = l2e - 1;
    let ghost lit = l2.subrange(b - lo + 1, l2.len() - 1);
    proof {
        assert(lit =~= v@.subrange(lit_lo as int, lit_hi as int));
    }
    let tle = trim_end_range(v, lit_lo, lit_hi);
    let tls = trim_start_range(v, lit_lo, tle);
    proof {
        assert(v@.subrange(tls as int, tle as int) == trim_spec(lit));
    }
    let elapsed = parse_elapsed_range(v, tls, tle);
    let mut bang_pat: Vec<char> = Vec::new();
    bang_pat.push('!');
    bang_pat.push('!');
    bang_pat.push('!');
    proof {
        assert(bang_pat@ =~= seq!['!', '!', '!']);
    }
    let bang = range_starts_with(v, lit_lo, lit_hi, &bang_pat);
    let lr = elapsed >= STALL_THRESHOLD_NS && !bang;
    let node = SpanNodeView {
        id: 0,
        span: SpanView { name, is_verbose: false, is_long_running: lr },
        elapsed_ns: elapsed,
        children: Vec::new(),
    };
    let ghost node_data = SpanNodeData {
        id: 0,
        span: SpanData {
            name: trim_spec(l2.take(b - lo)),
            is_verbose: false,
            is_long_running: lr,
        },
        elapsed_ns: elapsed,
        children: Seq::empty(),
    };
    proof {
        assert(node_view(node) == node_data);
    }
    // Indentation: two spaces per nesting level.
    let sp = count_leading_char(v, lo, l2e, ' ');
    proof {
        lemma_leading_spaces_subrange(v@, lo as int, l2e as int, sp as int);
    }
    let depth = (sp - lo) / 2;
    if depth == 0 {
        if stack.len() > 0 {
            proof {
                lemma_nodes_view(stack@);
            }
            let root = drain_stack(stack);
            detached.push(root);
            proof {
                lemma_nodes_view_push(old(detached)@, root);
            }
        }
        stack.push(node);
        proof {
            lemma_nodes_view_push(Seq::<SpanNodeView>::empty(), node);
            assert(stack@.drop_last() =~= Seq::<SpanNodeView>::empty());
            assert(nodes_view(stack@) =~= seq![node_data]);
        }
    } else {
        pop_to(stack, depth);
        let ghost mid = stack@;
        stack.push(node);
        proof {
            lemma_nodes_view_push(mid, node);
        }
    }
}

/// `count_leading_char`'s result pinpoints `leading_spaces` of the subrange.
proof fn lemma_leading_spaces_subrange(v: Seq<char>, lo: int, hi: int, m: int)
    requires
        0 <= lo <= m <= hi <= v.len(),
        forall|j: int| lo <= j < m ==> v[j] == ' ',
        m < hi ==> v[m] != ' ',
    ensures
        leading_spaces(v.subrange(lo, hi)) == m - lo,
    decreases hi - lo,
{
    let s = v.subrange(lo, hi);
    if s.len() == 0 {
    } else if s.first() != ' ' {
        assert(v[lo] != ' ');
        assert(m == lo);
    } else {
        assert(v[lo] == ' ');
        assert(m > lo);
        assert(s.drop_first() =~= v.subrange(lo + 1, hi));
        lemma_leading_spaces_subrange(v, lo + 1, hi, m);
    }
}

/// `run_lines` distributes over concatenation of line sequences.
proof fn lemma_run_lines_concat(
    stack: Seq<SpanNodeData>,
    detached: Seq<SpanNodeData>,
    a: Seq<Seq<char>>,
    b: Seq<Seq<char>>,
)
    ensures
        run_lines(stack, detached, a + b) == ({
            let st = run_lines(stack, detached, a);
            run_lines(st.0, st.1, b)
        }),
    decreases a.len(),
{
    if a.len() == 0 {
        assert(a + b =~= b);
    } else {
        assert((a + b).first() == a.first());
        assert((a + b).drop_first() =~= a.drop_first() + b);
        let st = step_line(stack, detached, a.first());
        lemma_run_lines_concat(st.0, st.1, a.drop_first(), b);
    }
}

impl TreeView {
    /// Reconstructs a tree from its indentation-based textual rendering.
    ///
    /// Fails with [`TraceError::MalformedTrace`] exactly when no root span
    /// can be recovered (no content line at all); blank and unparseable
    /// lines are skipped rather than rejected.
    pub fn from_text(s: &str) -> (r: Result<TreeView, TraceError>)
        ensures
            match r {
                Ok(t) => spec_parse_tree(s@) == Ok::<TreeData, TraceError>(t@),
                Err(e) => spec_parse_tree(s@) == Err::<TreeData, TraceError>(e),
            },
    {
        let v = str_to_chars(s);
        let n = v.len();
        let mut stack: Vec<SpanNodeView> = Vec::new();
        let mut detached: Vec<SpanNodeView> = Vec::new();
        let mut pos: usize = 0;
        proof {
            assert(v@.skip(0) =~= v@);
        }
        while pos < n
            invariant
                pos <= n == v@.len(),
                v@ == s@,
                run_lines(Seq::empty(), Seq::empty(), split_lines(v@)) == run_lines(
                    nodes_view(stack@),
                    nodes_view(detached@),
                    split_lines(v@.skip(pos as int)),
                ),
            decreases n - pos,
        {
            let ghost rem = v@.skip(pos as int);
            let nl = find_char_in_range(&v, pos, n, '\n');
            let (le, next): (usize, usize) = match nl {
                Some(i) => (i, i + 1),
                None => (n, n),
            };
            proof {
                lemma_first_index_of_subrange(v@, pos as int, n as int, '\n', nl);
                assert(rem =~= v@.subrange(pos as int, n as int));
                assert(first_index_of(rem, '\n') == le - pos);
                assert(rem.take(le - pos) =~= v@.subrange(pos as int, le as int));
                if nl is Some {
                    assert(rem.skip(le - pos + 1) =~= v@.skip(next as int));
                    assert(split_lines(rem) == seq![v@.subrange(pos as int, le as int)]
                        + split_lines(v@.skip(next as int)));
                } else {
                    assert(rem =~= v@.subrange(pos as int, le as int));
                    assert(split_lines(rem) == seq![v@.subrange(pos as int, le as int)]);
                    assert(v@.skip(next as int) =~= Seq::<char>::empty());
                    assert(split_lines(rem) =~= seq![v@.subrange(pos as int, le as int)]
                        + split_lines(v@.skip(next as int)));
                }
            }
            let ghost st_before = (nodes_view(stack@), nodes_view(detached@));
            process_line(&v, pos, le, &mut stack, &mut detached);
            proof {
                let line = v@.subrange(pos as int, le as int);
                lemma_run_lines_concat(
                    st_before.0,
                    st_before.1,
                    seq![line],
                    split_lines(v@.skip(next as int)),
                );
                assert(seq![line].drop_first() =~= Seq::<Seq<char>>::empty());
                reveal_with_fuel(run_lines, 3);
                let one = run_lines(st_before.0, st_before.1, seq![line]);
                let stepped = step_line(st_before.0, st_before.1, line);
                assert(seq![line].first() == line);
                assert(one.0 == stepped.0 && one.1 == stepped.1);
                assert(stepped.0 == nodes_view(stack@) && stepped.1 == nodes_view(detached@));
            }
            pos = next;
        }
        proof {
            assert(v@.skip(pos as int) =~= Seq::<char>::empty());
            lemma_nodes_view(stack@);
            lemma_nodes_view(detached@);
        }
        if stack.len() == 0 {
            return Err(TraceError::MalformedTrace);
        }
        let root = drain_stack(&mut stack);
        let t = TreeView { current: UNKNOWN_CURRENT, tree: root, detached };
        Ok(t)
    }
}

/// Is this raw trace a structured (JSON) document rather than text?  The
/// dispatch rule: the trimmed input begins with `{`.
pub open spec fn is_structured_input(s: Seq<char>) -> bool {
    trim_spec(s).len() > 0 && trim_spec(s).first() == '{'
}

/// Reconstructs a tree from one worker's raw trace: a trimmed input starting
/// with `{` decodes as structured JSON, anything else parses as text.
///
/// For textual input, fails with [`TraceError::MalformedTrace`] exactly when
/// no root span can be recovered.  What a structured document decodes to
/// cannot be stated here: the parsed document is opaque to the verifier.
pub fn reconstruct(s: &str) -> (r: Result<TreeView, TraceError>)
    ensures
        !is_structured_input(s@) ==> match r {
            Ok(t) => spec_parse_tree(s@) == Ok::<TreeData, TraceError>(t@),
            Err(e) => spec_parse_tree(s@) == Err::<TreeData, TraceError>(e),
        },
{
    let v = str_to_chars(s);
    let n = v.len();
    proof {
        assert(v@.subrange(0, n as int) =~= v@);
    }
    let te = trim_end_range(&v, 0, n);
    let ts = trim_start_range(&v, 0, te);
    proof {
        assert(v@.subrange(ts as int, te as int) == trim_spec(s@));
    }
    if ts < te && v[ts] == '{' {
        proof {
            assert(trim_spec(s@).first() == v@[ts as int]);
        }
        TreeView::from_json(s)
    } else {
        proof {
            if ts < te {
                assert(trim_spec(s@).first() == v@[ts as int]);
            }
        }
        TreeView::from_text(s)
    }
}

} // verus!
