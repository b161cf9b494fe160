//! Round-trip law: rendering and reparsing a single-span snapshot is
//! faithful up to the documented information loss (node identity, the
//! current-span marker, and truncation of elapsed times to whole
//! milliseconds), so a second render reproduces the text exactly.
use vstd::prelude::*;

use crate::chars::is_trace_space;
use crate::chars::ends_with_seq;
use crate::chars::starts_with_seq;
use crate::chars::trim_end_spec;
use crate::chars::trim_spec;
use crate::chars::trim_start_spec;
use crate::parse::content_step;
use crate::parse::leading_spaces;
use crate::parse::run_lines;
use crate::parse::spec_drain;
use crate::parse::spec_parse_tree;
use crate::parse::spec_pop_to;
use crate::parse::split_lines;
use crate::parse::step_line;
use crate::render::is_stalled;
use crate::render::render_detached;
use crate::render::render_nodes;
use crate::render::sort_tree;
use crate::render::sort_trees;
use crate::render::spec_indent;
use crate::render::spec_render_line;
use crate::render::spec_render_tree;
use crate::render::spec_sort_by_elapsed;
use crate::time::dec_digits;
use crate::time::first_index_of;
use crate::time::is_digit_char;
use crate::time::lemma_dec_digits;
use crate::time::lemma_first_index_of_at;
use crate::time::lemma_time_literal_inverse;
use crate::time::spec_parse_elapsed;
use crate::time::spec_render_time;
use crate::time::spec_secs_literal;
use crate::time::NS_PER_MS;
use crate::time::STALL_THRESHOLD_NS;
use crate::tree::SpanData;
use crate::tree::SpanNodeData;
use crate::tree::TraceError;
use crate::tree::TreeData;
use crate::tree::UNKNOWN_CURRENT;

verus! {

/// A span name as the text parser itself produces it: non-empty, free of
/// brackets and line breaks, and trimmed.
pub open spec fn canonical_name(s: Seq<char>) -> bool {
    &&& s.len() > 0
    &&& !is_trace_space(s.first())
    &&& !is_trace_space(s.last())
    &&& forall|i: int| 0 <= i < s.len() ==> #[trigger] s[i] != '[' && s[i] != '\n'
}

/// Law: for a snapshot of one span with no children and no detached
/// subtrees, reparsing the rendered text succeeds, and rendering the result
/// reproduces the text exactly.  (With detached subtrees the reconstruction
/// algorithm rotates the top-level blocks, so the law cannot extend to them.)
#[verifier::rlimit(100)]
pub proof fn lemma_round_trip_single_span(t: TreeData)
    requires
        t.detached.len() == 0,
        t.tree.children.len() == 0,
        canonical_name(t.tree.span.name),
    ensures
        spec_parse_tree(spec_render_tree(t)) is Ok,
        spec_render_tree(spec_parse_tree(spec_render_tree(t))->Ok_0) == spec_render_tree(t),
{
    let nm = t.tree.span.name;
    let e = t.tree.elapsed_ns;
    let stalled = is_stalled(t.tree);
    let st = sort_tree(t.tree);
    assert(sort_trees(t.tree.children) =~= Seq::<SpanNodeData>::empty());
    assert(st.children =~= Seq::<SpanNodeData>::empty());
    assert(st.span == t.tree.span && st.elapsed_ns == e && st.id == t.tree.id);
    let lit = spec_render_time(e, stalled);
    let line = spec_render_line(st, 0, t.current);
    assert(spec_indent(0) =~= Seq::<char>::empty());
    assert(render_nodes(st.children, 1, t.current) =~= Seq::<char>::empty());
    assert(render_detached(t.detached, t.current) =~= Seq::<char>::empty());
    let text = spec_render_tree(t);
    assert(text =~= line);
    let content = nm + seq![' ', '['] + lit + seq![']'];
    assert(line =~= content + seq!['\n']);
    // Facts about the literal's characters.
    lemma_dec_digits((e / 1000000000) as nat);
    lemma_literal_chars(e, stalled);
    // One line: the trailing newline is the only line break.
    assert forall|j: int| 0 <= j < content.len() implies #[trigger] content[j] != '\n' by {
        lemma_content_char(nm, lit, j);
    }
    assert(text[content.len() as int] == '\n');
    lemma_first_index_of_at(text, '\n', content.len() as int);
    assert(split_lines(text) == seq![content] + split_lines(text.skip(content.len() as int + 1))) by {
        assert(text.take(content.len() as int) =~= content);
    }
    assert(text.skip(content.len() as int + 1) =~= Seq::<char>::empty());
    assert(split_lines(Seq::<char>::empty()) =~= Seq::<Seq<char>>::empty());
    let lines = split_lines(text);
    assert(lines =~= seq![content]);
    // Run the single line through the machine.
    let st0: Seq<SpanNodeData> = Seq::empty();
    let stepped = step_line(st0, st0, content);
    reveal_with_fuel(run_lines, 3);
    assert(seq![content].first() == content);
    assert(seq![content].drop_first() =~= Seq::<Seq<char>>::empty());
    assert(run_lines(st0, st0, lines) == run_lines(stepped.0, stepped.1, Seq::empty()));
    // The line is a content line for the very node.
    assert(trim_end_spec(content) == content) by {
        assert(content.last() == ']');
    }
    assert(!starts_with_seq(content, crate::parse::detached_prefix())) by {
        if starts_with_seq(content, crate::parse::detached_prefix()) {
            assert(content.subrange(0, 10)[0] == '[');
            assert(content[0] == nm[0]);
        }
    }
    assert(!ends_with_seq(content, crate::parse::current_suffix())) by {
        if ends_with_seq(content, crate::parse::current_suffix()) {
            let n = content.len() as int;
            assert(content.subrange(n - 11, n)[10] == 't');
            assert(content[n - 1] == ']');
        }
    }
    assert(stepped == content_step(st0, st0, content));
    // The bracket after the name is the first.
    let b = nm.len() as int + 1;
    assert(content[b] == '[');
    assert forall|j: int| 0 <= j < b implies #[trigger] content[j] != '[' by {
        if j < nm.len() {
            assert(content[j] == nm[j]);
        } else {
            assert(content[j] == ' ');
        }
    }
    lemma_first_index_of_at(content, '[', b);
    assert(first_index_of(content, '[') == b);
    assert(content.last() == ']');
    assert(b + 1 < content.len());
    // The recovered name is the original one.
    assert(content.take(b) =~= nm + seq![' ']);
    assert((nm + seq![' ']).last() == ' ');
    assert((nm + seq![' ']).drop_last() =~= nm);
    assert(trim_end_spec(nm) == nm);
    assert(trim_end_spec(nm + seq![' ']) == nm);
    assert(trim_start_spec(nm) == nm);
    assert(trim_spec(content.take(b)) == nm);
    // The recovered elapsed time: the literal truncated to milliseconds.
    assert(content.subrange(b + 1, content.len() - 1) =~= lit);
    assert(trim_spec(lit) == lit) by {
        assert(trim_end_spec(lit) == lit);
        assert(trim_start_spec(lit) == lit);
    }
    lemma_time_literal_inverse(e, stalled);
    let e2 = spec_parse_elapsed(lit);
    assert(e2 as int == (e as int / 1000000) * 1000000);
    vstd::arithmetic::div_mod::lemma_fundamental_div_mod(e as int, 1000000);
    assert(e2 <= e);
    // Threshold crossing is preserved by millisecond truncation.
    assert(e >= STALL_THRESHOLD_NS ==> e2 >= STALL_THRESHOLD_NS) by {
        if e >= STALL_THRESHOLD_NS {
            vstd::arithmetic::div_mod::lemma_div_is_ordered(
                STALL_THRESHOLD_NS as int,
                e as int,
                1000000,
            );
            assert(e as int / 1000000 >= 10000);
        }
    }
    let lr2 = e2 >= STALL_THRESHOLD_NS && !starts_with_seq(lit, seq!['!', '!', '!']);
    assert(starts_with_seq(lit, seq!['!', '!', '!']) == stalled) by {
        if stalled {
            assert(lit.subrange(0, 3) =~= seq!['!', '!', '!']);
        } else {
            if starts_with_seq(lit, seq!['!', '!', '!']) {
                assert(lit.subrange(0, 3)[0] == lit[0]);
            }
        }
    }
    // Depth zero: the line starts with the name, not a space.
    assert(content[0] == nm[0]);
    assert(leading_spaces(content) == 0);
    let node2 = SpanNodeData {
        id: 0,
        span: SpanData { name: nm, is_verbose: false, is_long_running: lr2 },
        elapsed_ns: e2,
        children: Seq::empty(),
    };
    assert(stepped.0 =~= seq![node2] && stepped.1 =~= st0);
    assert(run_lines(st0, st0, lines).0 =~= seq![node2]);
    assert(run_lines(st0, st0, lines).1 =~= st0);
    // One node on the stack: it becomes the root.
    assert(spec_pop_to(seq![node2], 1) == seq![node2]);
    assert(spec_drain(seq![node2]) == node2);
    let t2 = TreeData { current: UNKNOWN_CURRENT, tree: node2, detached: st0 };
    assert(spec_parse_tree(text) == Ok::<TreeData, TraceError>(t2));
    // Rendering the reparse reproduces the text.
    let st2 = sort_tree(node2);
    assert(sort_trees(node2.children) =~= Seq::<SpanNodeData>::empty());
    assert(spec_sort_by_elapsed(Seq::<SpanNodeData>::empty()) =~= Seq::<SpanNodeData>::empty());
    assert(st2 == node2);
    assert(render_nodes(node2.children, 1, t2.current) =~= Seq::<char>::empty());
    assert(render_detached(t2.detached, t2.current) =~= Seq::<char>::empty());
    // The stall marker and the seconds literal agree after truncation.
    assert(is_stalled(node2) == stalled) by {
        if stalled {
            assert(!t.tree.span.is_long_running && e >= STALL_THRESHOLD_NS);
            assert(e2 >= STALL_THRESHOLD_NS);
            assert(!lr2);
        } else {
            if e2 >= STALL_THRESHOLD_NS {
                assert(lr2);
            }
        }
    }
    lemma_secs_literal_truncates(e);
    assert(spec_render_time(e2, stalled) == lit) by {
        assert(spec_secs_literal(e2) == spec_secs_literal(e));
    }
    assert(spec_render_line(node2, 0, t2.current) =~= line);
    assert(spec_render_tree(t2) =~= text);
}

/// No character of a rendered content line (name, space, bracketed literal)
/// is a line break.
proof fn lemma_content_char(nm: Seq<char>, lit: Seq<char>, j: int)
    requires
        canonical_name(nm),
        forall|i: int| 0 <= i < lit.len() ==> #[trigger] lit[i] != '\n',
        0 <= j < (nm + seq![' ', '['] + lit + seq![']']).len(),
    ensures
        (nm + seq![' ', '['] + lit + seq![']'])[j] != '\n',
{
    let content = nm + seq![' ', '['] + lit + seq![']'];
    if j < nm.len() {
        assert(content[j] == nm[j]);
    } else if j < nm.len() + 2 {
    } else if j < nm.len() + 2 + lit.len() {
        assert(content[j] == lit[j - nm.len() - 2]);
    } else {
        assert(content[j] == ']');
    }
}

/// Every character of a rendered time literal is a bang, a space, a digit, a
/// point or the `s` suffix — never a line break.
proof fn lemma_literal_chars(ns: u128, stalled: bool)
    ensures
        forall|i: int|
            0 <= i < spec_render_time(ns, stalled).len() ==> #[trigger] spec_render_time(
                ns,
                stalled,
            )[i] != '\n',
        spec_render_time(ns, stalled)[0] == (if stalled {
            '!'
        } else {
            dec_digits((ns / 1000000000) as nat)[0]
        }),
        spec_render_time(ns, stalled).last() == 's',
        !is_trace_space(spec_render_time(ns, stalled)[0]),
        !is_trace_space(spec_render_time(ns, stalled).last()),
        spec_render_time(ns, stalled).len() > 3,
{
    let q = (ns / 1000000000) as nat;
    lemma_dec_digits(q);
    let dd = dec_digits(q);
    let m = ((ns / NS_PER_MS) % 1000) as nat;
    let p3 = seq![
        crate::time::digit_char((m / 100) as int),
        crate::time::digit_char(((m / 10) % 10) as int),
        crate::time::digit_char((m % 10) as int),
    ];
    let body = spec_secs_literal(ns);
    assert(body =~= dd + seq!['.'] + p3 + seq!['s']);
    let r = spec_render_time(ns, stalled);
    assert forall|i: int| 0 <= i < body.len() implies #[trigger] body[i] != '\n' by {
        if i < dd.len() {
            assert(body[i] == dd[i]);
            assert(is_digit_char(dd[i]));
        } else if i == dd.len() {
        } else if i < dd.len() + 4 {
            assert(body[i] == p3[i - dd.len() - 1]);
        } else {
            assert(body[i] == 's');
        }
    }
    assert(body[0] == dd[0]);
    assert(is_digit_char(dd[0]));
    assert(body.last() == 's');
    if stalled {
        assert(r =~= seq!['!', '!', '!', ' '] + body);
        assert forall|i: int| 0 <= i < r.len() implies #[trigger] r[i] != '\n' by {
            if i >= 4 {
                assert(r[i] == body[i - 4]);
            }
        }
        assert(r.last() == body.last());
    } else {
        assert(r == body);
    }
}

/// The canonical seconds literal does not change when its duration is
/// truncated to whole milliseconds.
proof fn lemma_secs_literal_truncates(ns: u128)
    ensures
        spec_secs_literal(((ns as int / 1000000) * 1000000) as u128) == spec_secs_literal(ns),
{
    let e2i = (ns as int / 1000000) * 1000000;
    vstd::arithmetic::div_mod::lemma_fundamental_div_mod(ns as int, 1000000);
    assert(0 <= e2i <= ns as int);
    let e2 = e2i as u128;
    // The truncated value has the same whole milliseconds.
    vstd::arithmetic::div_mod::lemma_div_multiples_vanish(ns as int / 1000000, 1000000);
    assert(e2 as int / 1000000 == ns as int / 1000000);
    // Hence the same whole seconds ...
    vstd::arithmetic::div_mod::lemma_div_denominator(e2 as int, 1000000, 1000);
    vstd::arithmetic::div_mod::lemma_div_denominator(ns as int, 1000000, 1000);
    assert(e2 as int / 1000000000 == ns as int / 1000000000);
}

} // verus!
