use vstd::prelude::*;

use crate::graph::label_spec;
use crate::parser::{
    ImportTimeError, lemma_find_char_bounds, line_kind, parse_import_time_spec, scan_lines,
    LineKind, marker, name_indent, parse_line_spec, RecordView,
};
use crate::text::{
    all_digits, back_ws, digits_value, find_char, is_ws, lemma_back_ws_bounds, lemma_find_char_at,
    lemma_parse_u64_shift, lemma_skip_spaces_at, lemma_skip_spaces_bounds, lemma_skip_ws_at,
    parse_u64_spec, skip_ws,
};
use crate::tree::{
    build_from, build_step, build_tree_spec, children_total, node_total, self_name, tree_shape, NodeView, Tree,
};

verus! {

/// What node `j` adds to the leaf sum: its own time if it is a leaf, else nothing.
pub open spec fn leaf_value(a: Seq<NodeView>, j: int) -> nat {
    if a[j].children.len() == 0 {
        a[j].cumulative_us as nat
    } else {
        0
    }
}

/// The own times of the leaves among the first `hi` nodes.
pub open spec fn leaf_sum(a: Seq<NodeView>, hi: int) -> nat
    decreases hi,
{
    if hi <= 0 {
        0
    } else {
        leaf_sum(a, hi - 1) + leaf_value(a, hi - 1)
    }
}

/// The parent's index, or -1 for the root.
spec fn parent_of(a: Seq<NodeView>, j: int) -> int {
    match a[j].parent {
        Some(p) => p as int,
        None => -1,
    }
}

/// The totals of nodes in `[lo, hi)` whose parent index is below `m`.
spec fn sum_parent_below(a: Seq<NodeView>, m: int, lo: int, hi: int) -> nat
    decreases hi - lo,
{
    if hi <= lo {
        0
    } else {
        sum_parent_below(a, m, lo, hi - 1) + if parent_of(a, hi - 1) < m {
            node_total(a, hi - 1)
        } else {
            0
        }
    }
}

/// The totals of nodes in `[lo, hi)` whose parent is `i`.
spec fn sum_parent_is(a: Seq<NodeView>, i: int, lo: int, hi: int) -> nat
    decreases hi - lo,
{
    if hi <= lo {
        0
    } else {
        sum_parent_is(a, i, lo, hi - 1) + if parent_of(a, hi - 1) == i {
            node_total(a, hi - 1)
        } else {
            0
        }
    }
}

proof fn lemma_split_below(a: Seq<NodeView>, m: int, lo: int, hi: int)
    requires
        lo <= hi,
    ensures
        sum_parent_below(a, m + 1, lo, hi) == sum_parent_below(a, m, lo, hi) + sum_parent_is(
            a,
            m,
            lo,
            hi,
        ),
    decreases hi - lo,
{
    if lo < hi {
        lemma_split_below(a, m, lo, hi - 1);
    }
}

proof fn lemma_peel_below(a: Seq<NodeView>, m: int, lo: int, hi: int)
    requires
        lo < hi,
    ensures
        sum_parent_below(a, m, lo, hi) == sum_parent_below(a, m, lo + 1, hi) + if parent_of(a, lo)
            < m {
            node_total(a, lo)
        } else {
            0
        },
    decreases hi - lo,
{
    if lo + 1 < hi {
        lemma_peel_below(a, m, lo, hi - 1);
    } else {
        assert(sum_parent_below(a, m, lo, lo) == 0);
        assert(sum_parent_below(a, m, lo + 1, hi) == 0);
    }
}

proof fn lemma_split_is(a: Seq<NodeView>, i: int, lo: int, mid: int, hi: int)
    requires
        lo <= mid <= hi,
    ensures
        sum_parent_is(a, i, lo, hi) == sum_parent_is(a, i, lo, mid) + sum_parent_is(a, i, mid, hi),
    decreases hi - mid,
{
    if mid < hi {
        lemma_split_is(a, i, lo, mid, hi - 1);
    }
}

proof fn lemma_is_zero(a: Seq<NodeView>, i: int, lo: int, hi: int)
    requires
        forall|j: int| lo <= j < hi ==> parent_of(a, j) != i,
    ensures
        sum_parent_is(a, i, lo, hi) == 0,
    decreases hi - lo,
{
    if lo < hi {
        lemma_is_zero(a, i, lo, hi - 1);
    }
}

/// The end of the index range that the first `k` children of node `i` cover.
spec fn prefix_end(a: Seq<NodeView>, i: int, k: int) -> int {
    if k == 0 {
        i + 1
    } else {
        a[i].children[k - 1] + 1
    }
}

proof fn lemma_children_prefix(a: Seq<NodeView>, i: int, k: int)
    requires
        tree_shape(a),
        0 <= i < a.len(),
        0 <= k <= a[i].children.len(),
    ensures
        i + 1 <= prefix_end(a, i, k) <= a.len(),
        children_total(a, i, k) == sum_parent_is(a, i, i + 1, prefix_end(a, i, k)),
    decreases k,
{
    let cs = a[i].children;
    if k > 0 {
        lemma_children_prefix(a, i, k - 1);
        let e = prefix_end(a, i, k - 1);
        let c = cs[k - 1] as int;
        assert(i < c < a.len());
        if k > 1 {
            assert(cs[k - 2] < cs[k - 1]);
        }
        assert forall|j: int| e <= j < c implies parent_of(a, j) != i by {
            if parent_of(a, j) == i {
                assert(a[j].parent matches Some(p) && a[p as int].children.contains(j as usize));
                let t = choose|t: int| 0 <= t < cs.len() && cs[t] == j;
                if t < k - 1 {
                    if t < k - 2 {
                        assert(cs[t] < cs[k - 2]);
                    }
                } else if t > k - 1 {
                    assert(cs[k - 1] < cs[t]);
                }
            }
        }
        lemma_is_zero(a, i, e, c);
        lemma_split_is(a, i, i + 1, e, c);
        assert(a[c].parent == Some(i as usize));
    }
}

/// A node's children are exactly the later nodes that name it as parent.
proof fn lemma_children_total_by_parent(a: Seq<NodeView>, i: int)
    requires
        tree_shape(a),
        0 <= i < a.len(),
    ensures
        children_total(a, i, a[i].children.len() as int) == sum_parent_is(
            a,
            i,
            i + 1,
            a.len() as int,
        ),
{
    let cs = a[i].children;
    let n = a.len() as int;
    lemma_children_prefix(a, i, cs.len() as int);
    let e = prefix_end(a, i, cs.len() as int);
    assert forall|j: int| e <= j < n implies parent_of(a, j) != i by {
        if parent_of(a, j) == i {
            assert(a[j].parent matches Some(p) && a[p as int].children.contains(j as usize));
            assert(cs.contains(j as usize));
            let t = choose|t: int| 0 <= t < cs.len() && cs[t] == j as usize;
            let last = cs.len() - 1;
            assert(e == cs[last] + 1);
            if t < last {
                assert(a[i].children[t] < a[i].children[last]);
            }
        }
    }
    lemma_is_zero(a, i, e, n);
    lemma_split_is(a, i, i + 1, e, n);
}

/// Cutting the arena at `m`: the totals of the nodes at or after `m` that hang from a
/// node before `m`, plus the leaves before `m`, make up all the leaves.
proof fn lemma_cut(a: Seq<NodeView>, m: int)
    requires
        tree_shape(a),
        1 <= m <= a.len(),
    ensures
        sum_parent_below(a, m, m, a.len() as int) + leaf_sum(a, m) == leaf_sum(a, a.len() as int),
    decreases a.len() - m,
{
    let n = a.len() as int;
    if m < n {
        lemma_cut(a, m + 1);
        lemma_split_below(a, m, m + 1, n);
        lemma_peel_below(a, m, m, n);
        assert(a[m].parent matches Some(q) && q < m);
        lemma_children_total_by_parent(a, m);
    }
}

/// The sum of the leaves' own times over an arena shaped as a tree is the root's total.
pub proof fn lemma_root_total_is_leaf_sum(a: Seq<NodeView>)
    requires
        tree_shape(a),
    ensures
        node_total(a, 0) == leaf_sum(a, a.len() as int),
{
    let n = a.len() as int;
    lemma_cut(a, 1);
    lemma_split_below(a, 0, 1, n);
    assert forall|j: int| 1 <= j < n implies parent_of(a, j) >= 0 by {
        assert(a[j].parent is Some);
    }
    lemma_below_zero(a, 1, n);
    lemma_children_total_by_parent(a, 0);
    assert(leaf_sum(a, 0) == 0);
    assert(leaf_sum(a, 1) == leaf_value(a, 0));
    assert(children_total(a, 0, 0) == 0);
}

proof fn lemma_below_zero(a: Seq<NodeView>, lo: int, hi: int)
    requires
        forall|j: int| lo <= j < hi ==> parent_of(a, j) >= 0,
    ensures
        sum_parent_below(a, 0, lo, hi) == 0,
    decreases hi - lo,
{
    if lo < hi {
        lemma_below_zero(a, lo, hi - 1);
    }
}

/// The total that a tree reports for its root is the sum of the own times of its
/// leaves, self leaves included: no time is counted twice or lost.
pub proof fn lemma_total_is_sum_of_leaves(tree: &Tree)
    requires
        tree.wf(),
    ensures
        tree.totals@[tree.root as int] == leaf_sum(tree.nodes(), tree.nodes().len() as int),
{
    lemma_root_total_is_leaf_sum(tree.nodes());
}

/// Later records leave the name, time, parent and self mark of every node already built unchanged.
proof fn lemma_prefix_kept(rs: Seq<RecordView>, k: int)
    requires
        0 <= k <= rs.len(),
    ensures
        build_from(rs.take(k)).arena.len() <= build_from(rs).arena.len(),
        forall|j: int|
            0 <= j < build_from(rs.take(k)).arena.len() ==> {
                let x = #[trigger] build_from(rs).arena[j];
                let y = build_from(rs.take(k)).arena[j];
                x.name == y.name && x.cumulative_us == y.cumulative_us && x.parent == y.parent
                    && x.is_self == y.is_self
            },
    decreases rs.len(),
{
    if k == rs.len() {
        assert(rs.take(k) =~= rs);
    } else {
        let prev = rs.drop_last();
        lemma_prefix_kept(prev, k);
        assert(prev.take(k) =~= rs.take(k));
        let st = build_from(prev);
        let out = build_from(rs);
        assert(out == build_step(st, rs.last()));
        assert forall|j: int| 0 <= j < st.arena.len() implies {
            let x = #[trigger] out.arena[j];
            let y = st.arena[j];
            x.name == y.name && x.cumulative_us == y.cumulative_us && x.parent == y.parent
                    && x.is_self == y.is_self
        } by {}
    }
}

/// Each record with self time gets a synthesised leaf holding that time, and the
/// rectangle of that leaf is labelled with the record's own name and flagged as self time.
pub proof fn lemma_self_leaf_label(rs: Seq<RecordView>, k: int)
    requires
        0 <= k < rs.len(),
        rs[k].self_us > 0,
        build_from(rs).arena.len() <= usize::MAX,
    ensures
        exists|s: int|
            0 < s < build_from(rs).arena.len() && build_from(rs).arena[s].name == self_name()
                && build_from(rs).arena[s].is_self && build_from(rs).arena[s].cumulative_us == rs[k].self_us && #[trigger] label_spec(
                build_from(rs).arena,
                s,
            ) == (rs[k].name, true),
{
    let pre = rs.take(k + 1);
    assert(pre.drop_last() =~= rs.take(k));
    assert(pre.last() == rs[k]);
    let st = build_from(rs.take(k));
    let b = build_from(pre).arena;
    let n = st.arena.len() as int;
    assert(b.len() == n + 2);
    assert(b[n + 1].name == self_name());
    assert(b[n + 1].parent == Some(n as usize));
    assert(b[n].name == rs[k].name);
    lemma_prefix_kept(rs, k + 1);
    let a = build_from(rs).arena;
    assert(a[n + 1].name == b[n + 1].name && a[n + 1].is_self == b[n + 1].is_self);
    assert(a[n].name == b[n].name);
    assert(a[n + 1].parent == Some(n as usize));
    assert((n as usize) as int == n);
    assert(label_spec(a, n + 1) == (rs[k].name, true));
}

/// A name indented by exactly `2 * k` spaces is read at depth `k`; in general the depth
/// is the indent plus one, halved.
pub proof fn lemma_depth_of_indent(line: Seq<char>, k: nat)
    requires
        line.len() <= usize::MAX,
        parse_line_spec(line, 0, line.len() as int) is Some,
        name_indent(line, 0, line.len() as int) == 2 * k,
    ensures
        parse_line_spec(line, 0, line.len() as int)->0.depth == k,
{
    let hi = line.len() as int;
    let f = marker().len() as int;
    let b0 = find_char(line, '|', f, hi);
    lemma_find_char_bounds(line, '|', f, hi);
    let b1 = find_char(line, '|', b0 + 1, hi);
    lemma_find_char_bounds(line, '|', b0 + 1, hi);
    let b2 = find_char(line, '|', b1 + 1, hi);
    lemma_find_char_bounds(line, '|', b1 + 1, hi);
    lemma_back_ws_bounds(line, b1 + 1, b2);
    let module_end = back_ws(line, b1 + 1, b2);
    lemma_skip_spaces_bounds(line, b1 + 1, module_end);
    assert((2 * k + 1) / 2 == k) by (nonlinear_arith);
}

/// The node built for each record is a real node: its rectangle carries the record's own
/// name and is not flagged as self time, whatever that name is (`self` included).
pub proof fn lemma_record_node_label(rs: Seq<RecordView>, k: int)
    requires
        0 <= k < rs.len(),
        build_from(rs).arena.len() <= usize::MAX,
    ensures
        exists|n: int|
            0 < n < build_from(rs).arena.len() && build_from(rs).arena[n].cumulative_us
                == rs[k].cumulative_us && #[trigger] label_spec(build_from(rs).arena, n) == (
                rs[k].name,
                false,
            ),
{
    let pre = rs.take(k + 1);
    assert(pre.drop_last() =~= rs.take(k));
    assert(pre.last() == rs[k]);
    let st = build_from(rs.take(k));
    let b = build_from(pre).arena;
    let n = st.arena.len() as int;
    assert(b.len() >= n + 1);
    assert(b[n].name == rs[k].name && !b[n].is_self);
    lemma_prefix_kept(rs, k + 1);
    let a = build_from(rs).arena;
    assert(a[n].name == b[n].name && a[n].is_self == b[n].is_self);
    assert(label_spec(a, n) == (rs[k].name, false));
}

/// Building twice from the same trace gives the same outcome: the same error, or trees
/// with the same nodes, the same root and the same totals.
pub proof fn lemma_build_deterministic(
    text: Seq<char>,
    r1: Result<Tree, ImportTimeError>,
    r2: Result<Tree, ImportTimeError>,
)
    requires
        build_tree_spec(text, r1),
        build_tree_spec(text, r2),
    ensures
        match (r1, r2) {
            (Ok(t1), Ok(t2)) => t1.nodes() == t2.nodes() && t1.root == t2.root && t1.totals@
                == t2.totals@,
            (Err(e1), Err(e2)) => e1 == e2,
            _ => false,
        },
{
    if r1 is Ok && r2 is Ok {
        let t1 = r1->Ok_0;
        let t2 = r2->Ok_0;
        let rs = parse_import_time_spec(text)->Ok_0;
        assert(t1.wf() && t1.nodes() == build_from(rs.reverse()).arena);
        assert(t2.wf() && t2.nodes() == build_from(rs.reverse()).arena);
        assert forall|j: int| 0 <= j < t1.totals@.len() implies t1.totals@[j] == t2.totals@[j] by {
            assert(t1.totals@[j] == node_total(t1.nodes(), j));
            assert(t2.totals@[j] == node_total(t2.nodes(), j));
        }
        assert(t1.totals@ =~= t2.totals@);
    }
}

/// `k` spaces.
pub open spec fn spaces(k: nat) -> Seq<char> {
    Seq::new(k, |i: int| ' ')
}

/// A trace line written from two decimal times and a name indented by `2 * k` spaces is
/// read back as a record with those times, that name, and depth `k`.
pub proof fn lemma_indented_line_round_trip(self_digits: Seq<char>, cum_digits: Seq<char>, name: Seq<char>, k: nat)
    requires
        self_digits.len() > 0,
        all_digits(self_digits, 0, self_digits.len() as int),
        digits_value(self_digits, 0, self_digits.len() as int) <= u64::MAX,
        cum_digits.len() > 0,
        all_digits(cum_digits, 0, cum_digits.len() as int),
        digits_value(cum_digits, 0, cum_digits.len() as int) <= u64::MAX,
        name.len() > 0,
        !is_ws(name[0]),
        !is_ws(name.last()),
        forall|m: int| 0 <= m < name.len() ==> name[m] != '|',
        marker().len() + self_digits.len() + cum_digits.len() + 2 * k + name.len() + 2
            <= usize::MAX,
    ensures
        ({
            let line = marker() + self_digits + seq!['|'] + cum_digits + seq!['|'] + spaces(2 * k)
                + name;
            parse_line_spec(line, 0, line.len() as int) == Some(
                RecordView {
                    name,
                    self_us: digits_value(self_digits, 0, self_digits.len() as int) as u64,
                    cumulative_us: digits_value(cum_digits, 0, cum_digits.len() as int) as u64,
                    depth: k as usize,
                },
            )
        }),
{
    reveal_strlit("import time:");
    let line = marker() + self_digits + seq!['|'] + cum_digits + seq!['|'] + spaces(2 * k) + name;
    let hi = line.len() as int;
    let f = marker().len() as int;
    let b0 = f + self_digits.len();
    let b1 = b0 + 1 + cum_digits.len();
    let ns = b1 + 1 + 2 * k;
    assert(hi == ns + name.len());
    assert(line.subrange(0, f) =~= marker());
    assert forall|m: int| f <= m < b0 implies line[m] == self_digits[m - f] by {}
    assert forall|m: int| b0 + 1 <= m < b1 implies line[m] == cum_digits[m - b0 - 1] by {}
    assert forall|m: int| b1 + 1 <= m < ns implies line[m] == ' ' by {}
    assert forall|m: int| ns <= m < hi implies line[m] == name[m - ns] by {}
    assert(line[b0] == '|' && line[b1] == '|');
    assert(line.subrange(f, b0) =~= self_digits);
    assert(line.subrange(b0 + 1, b1) =~= cum_digits);
    assert(line.subrange(ns, hi) =~= name);
    lemma_parse_u64_shift(line, f, b0, self_digits);
    lemma_parse_u64_shift(line, b0 + 1, b1, cum_digits);
    assert forall|m: int| f <= m < b0 implies line[m] != '|' by {
        assert(crate::text::is_digit(line[m]));
    }
    assert forall|m: int| b0 + 1 <= m < b1 implies line[m] != '|' by {
        assert(crate::text::is_digit(line[m]));
    }
    lemma_find_char_at(line, '|', f, b0, hi);
    lemma_find_char_at(line, '|', b0 + 1, b1, hi);
    assert forall|m: int| b1 + 1 <= m < hi implies line[m] != '|' by {
        if m >= ns {
            assert(line[m] == name[m - ns]);
        }
    }
    lemma_find_char_at(line, '|', b1 + 1, hi, hi);
    // Each number field is all digits, so nothing is trimmed from it.
    assert(crate::text::is_digit(line[b0 - 1]) && crate::text::is_digit(line[f]));
    assert(back_ws(line, f, b0) == b0);
    lemma_skip_ws_at(line, f, f, b0);
    assert(crate::text::is_digit(line[b1 - 1]) && crate::text::is_digit(line[b0 + 1]));
    assert(back_ws(line, b0 + 1, b1) == b1);
    lemma_skip_ws_at(line, b0 + 1, b0 + 1, b1);
    assert(line[hi - 1] == name.last());
    assert(back_ws(line, b1 + 1, hi) == hi);
    assert(line[ns] == name[0]);
    lemma_skip_spaces_at(line, b1 + 1, ns, hi);
    lemma_skip_ws_at(line, b1 + 1, ns, hi);
    assert(skip_ws(line, b1 + 1, hi) == ns);
    assert(name_indent(line, 0, hi) == 2 * k);
    assert((2 * k + 1) / 2 == k) by (nonlinear_arith);
    assert(parse_u64_spec(self_digits, 0, self_digits.len() as int) == Some(
        digits_value(self_digits, 0, self_digits.len() as int) as u64,
    ));
    assert(parse_u64_spec(cum_digits, 0, cum_digits.len() as int) == Some(
        digits_value(cum_digits, 0, cum_digits.len() as int) as u64,
    ));
}

/// Where line `k` (counted from 0, split on `\n`) of `s` starts; past the end of `s`
/// when `s` has no such line.
pub open spec fn line_start(s: Seq<char>, k: nat) -> int
    decreases k,
{
    if k == 0 {
        0
    } else {
        let p = line_start(s, (k - 1) as nat);
        if 0 <= p <= s.len() && find_char(s, '\n', p, s.len() as int) < s.len() {
            find_char(s, '\n', p, s.len() as int) + 1
        } else {
            s.len() + 1int
        }
    }
}

/// Line `k` of `s` exists and is a marked line that is neither the legend nor a record.
pub open spec fn is_malformed_line(s: Seq<char>, k: nat) -> bool {
    let p = line_start(s, k);
    0 <= p <= s.len() && line_kind(s, p, find_char(s, '\n', p, s.len() as int)) is Malformed
}

proof fn lemma_line_start_nonneg(s: Seq<char>, k: nat)
    ensures
        0 <= line_start(s, k),
    decreases k,
{
    if k > 0 {
        let p = line_start(s, (k - 1) as nat);
        lemma_line_start_nonneg(s, (k - 1) as nat);
        if 0 <= p <= s.len() {
            lemma_find_char_bounds(s, '\n', p, s.len() as int);
        }
    }
}

proof fn lemma_line_start_grows(s: Seq<char>, k: nat, j: nat)
    requires
        k <= j,
        line_start(s, k) > s.len(),
    ensures
        line_start(s, j) > s.len(),
    decreases j - k,
{
    if k < j {
        lemma_line_start_grows(s, k, (j - 1) as nat);
    }
}

proof fn lemma_scan_from_line(s: Seq<char>, k: nat)
    requires
        0 <= line_start(s, k) <= s.len(),
    ensures
        forall|j: nat|
            j >= k && is_malformed_line(s, j) && (forall|i: nat|
                k <= i < j ==> !#[trigger] is_malformed_line(s, i)) ==> scan_lines(
                s,
                line_start(s, k),
                k + 1int,
            ) == Err::<Seq<RecordView>, int>(j + 1int),
        (forall|j: nat| j >= k ==> !#[trigger] is_malformed_line(s, j)) ==> scan_lines(
            s,
            line_start(s, k),
            k + 1int,
        ) is Ok,
    decreases s.len() - line_start(s, k),
{
    let p = line_start(s, k);
    let n = s.len() as int;
    let e = find_char(s, '\n', p, n);
    lemma_find_char_bounds(s, '\n', p, n);
    assert(line_start(s, k + 1) == if e < n {
        e + 1
    } else {
        n + 1
    });
    if e < n {
        lemma_scan_from_line(s, k + 1);
    } else {
        assert forall|j: nat| j > k implies !is_malformed_line(s, j) by {
            lemma_line_start_grows(s, k + 1, j);
        }
    }
    if forall|j: nat| j >= k ==> !#[trigger] is_malformed_line(s, j) {
        assert(!is_malformed_line(s, k));
        let rest = if e < n {
            scan_lines(s, e + 1, k + 2int)
        } else {
            Ok(seq![])
        };
        if e < n {
            assert(forall|j: nat| j >= k + 1 ==> !#[trigger] is_malformed_line(s, j));
            assert(rest is Ok);
        }
        assert(scan_lines(s, p, k + 1int) == match line_kind(s, p, e) {
            LineKind::Malformed => Err(k + 1int),
            LineKind::Record(r) => match rest {
                Ok(rs) => Ok(seq![r] + rs),
                Err(m) => Err(m),
            },
            LineKind::Ignored => rest,
        });
    }
    assert forall|j: nat|
        j >= k && is_malformed_line(s, j) && (forall|i: nat|
            k <= i < j ==> !#[trigger] is_malformed_line(s, i)) implies scan_lines(
        s,
        p,
        k + 1int,
    ) == Err::<Seq<RecordView>, int>(j + 1int) by {
        if j > k {
            assert(!is_malformed_line(s, k));
            if e < n {
                assert forall|i: nat| k + 1 <= i < j implies !#[trigger] is_malformed_line(s, i) by {}
            }
        }
    }
}

/// A trace is refused for a malformed line exactly when it has one, and the number it
/// gives (from 1) is that of the first such line; no records come with that error.
pub proof fn lemma_first_malformed_line(s: Seq<char>)
    ensures
        forall|k: nat|
            is_malformed_line(s, k) && (forall|i: nat| i < k ==> !#[trigger] is_malformed_line(s, i))
                ==> parse_import_time_spec(s) == Err::<Seq<RecordView>, ImportTimeError>(
                ImportTimeError::MalformedLine((k + 1) as usize),
            ),
        (forall|k: nat| !#[trigger] is_malformed_line(s, k)) ==> !(parse_import_time_spec(
            s,
        ) matches Err(ImportTimeError::MalformedLine(_))),
{
    assert(line_start(s, 0) == 0);
    lemma_scan_from_line(s, 0);
    assert forall|k: nat| is_malformed_line(s, k) && (forall|i: nat| i < k ==> !#[trigger] is_malformed_line(s, i))
        implies parse_import_time_spec(s) == Err::<Seq<RecordView>, ImportTimeError>(
        ImportTimeError::MalformedLine((k + 1) as usize),
    ) by {
        assert(forall|i: nat| 0 <= i < k ==> !#[trigger] is_malformed_line(s, i));
    }
}

} // verus!
