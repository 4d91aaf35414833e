use vstd::prelude::*;
use vstd::string::StringExecFns;

use crate::parser::{
    parse_import_time, parse_import_time_spec, records_view, ImportRecord, ImportTimeError,
    RecordView,
};

verus! {

/// One node of the import tree; children and parent are indices into the arena.
/// `is_self` marks the leaf synthesised to carry a record's own time.
#[derive(Debug)]
pub struct ArenaNode {
    pub name: String,
    pub cumulative_us: u64,
    pub parent: Option<usize>,
    pub children: Vec<usize>,
    pub is_self: bool,
}

pub struct NodeView {
    pub name: Seq<char>,
    pub cumulative_us: u64,
    pub parent: Option<usize>,
    pub children: Seq<usize>,
    pub is_self: bool,
}

impl View for ArenaNode {
    type V = NodeView;

    open spec fn view(&self) -> NodeView {
        NodeView {
            name: self.name@,
            cumulative_us: self.cumulative_us,
            parent: self.parent,
            children: self.children@,
            is_self: self.is_self,
        }
    }
}

/// The aggregated import tree: an arena of nodes, the root's index, and each node's
/// subtree total, indexed like the arena.
#[derive(Debug)]
pub struct Tree {
    pub arena: Vec<ArenaNode>,
    pub root: usize,
    pub totals: Vec<u64>,
}

pub open spec fn arena_view(v: Seq<ArenaNode>) -> Seq<NodeView> {
    v.map_values(|n: ArenaNode| n@)
}

/// The name of the node that stands above all top-level imports.
pub open spec fn root_name() -> Seq<char> {
    "Total"@
}

/// The name of a synthesised leaf that carries a node's own (self) time.
pub open spec fn self_name() -> Seq<char> {
    "self"@
}

pub open spec fn root_node() -> NodeView {
    NodeView {
        name: root_name(),
        cumulative_us: 0,
        parent: None,
        children: seq![],
        is_self: false,
    }
}

/// Appends `c` to the children of node `p`.
pub open spec fn add_child(a: Seq<NodeView>, p: int, c: usize) -> Seq<NodeView> {
    if 0 <= p < a.len() {
        a.update(
            p,
            NodeView {
                name: a[p].name,
                cumulative_us: a[p].cumulative_us,
                parent: a[p].parent,
                children: a[p].children.push(c),
                is_self: a[p].is_self,
            },
        )
    } else {
        a
    }
}

/// The arena under construction and the stack of open ancestors.
pub struct BuildState {
    pub arena: Seq<NodeView>,
    pub stack: Seq<usize>,
}

/// One record: pop the stack down to the record's depth, hang a new node under the top
/// (the root when the stack is empty), give it a self leaf when its self time is
/// nonzero, and push it.
pub open spec fn build_step(st: BuildState, r: RecordView) -> BuildState {
    let kept = if st.stack.len() > r.depth {
        st.stack.take(r.depth as int)
    } else {
        st.stack
    };
    let parent: usize = if kept.len() > 0 {
        kept.last()
    } else {
        0
    };
    let n = st.arena.len();
    let a1 = add_child(st.arena, parent as int, n as usize).push(
        NodeView {
            name: r.name,
            cumulative_us: r.cumulative_us,
            parent: Some(parent),
            children: seq![],
            is_self: false,
        },
    );
    let a2 = if r.self_us > 0 {
        add_child(a1, n as int, (n + 1) as usize).push(
            NodeView {
                name: self_name(),
                cumulative_us: r.self_us,
                parent: Some(n as usize),
                children: seq![],
                is_self: true,
            },
        )
    } else {
        a1
    };
    BuildState { arena: a2, stack: kept.push(n as usize) }
}

/// The state after taking the records in order, starting from the root alone on the stack.
pub open spec fn build_from(rs: Seq<RecordView>) -> BuildState
    decreases rs.len(),
{
    if rs.len() == 0 {
        BuildState { arena: seq![root_node()], stack: seq![0] }
    } else {
        build_step(build_from(rs.drop_last()), rs.last())
    }
}

/// Every child index lies after its parent's index and inside the arena.
pub open spec fn children_after(a: Seq<NodeView>) -> bool {
    forall|i: int, k: int|
        0 <= i < a.len() && 0 <= k < a[i].children.len() ==> i < #[trigger] a[i].children[k]
            < a.len()
}

/// The subtree total of node `i`: a leaf's own time, or the sum of its children's totals.
pub open spec fn node_total(a: Seq<NodeView>, i: int) -> nat
    decreases a.len() - i, 1int, 0int,
{
    if i < 0 || i >= a.len() {
        0
    } else if a[i].children.len() == 0 {
        a[i].cumulative_us as nat
    } else {
        children_total(a, i, a[i].children.len() as int)
    }
}

/// The sum of the totals of the first `k` children of node `i`.
pub open spec fn children_total(a: Seq<NodeView>, i: int, k: int) -> nat
    decreases a.len() - i, 0int, k,
{
    if k <= 0 || i < 0 || i >= a.len() || k > a[i].children.len() {
        0
    } else {
        let c = a[i].children[k - 1] as int;
        children_total(a, i, k - 1) + if i < c < a.len() {
            node_total(a, c)
        } else {
            0
        }
    }
}

/// Every subtree total fits in a `u64`.
pub open spec fn totals_fit(a: Seq<NodeView>) -> bool {
    forall|j: int| 0 <= j < a.len() ==> #[trigger] node_total(a, j) <= u64::MAX
}

proof fn lemma_children_total_mono(a: Seq<NodeView>, i: int, k: int, m: int)
    requires
        0 <= i < a.len(),
        0 <= k <= m <= a[i].children.len(),
    ensures
        children_total(a, i, k) <= children_total(a, i, m),
    decreases m - k,
{
    if k < m {
        lemma_children_total_mono(a, i, k, m - 1);
    }
}

/// The arena is a tree rooted at index 0: child indices come after their parent's and
/// increase along each child list, and parent and child links agree.
pub open spec fn tree_shape(a: Seq<NodeView>) -> bool {
    &&& 1 <= a.len() <= usize::MAX
    &&& a[0].parent is None
    &&& children_after(a)
    &&& forall|i: int, k1: int, k2: int|
        0 <= i < a.len() && 0 <= k1 < k2 < a[i].children.len() ==> #[trigger] a[i].children[k1]
            < #[trigger] a[i].children[k2]
    &&& forall|i: int, k: int|
        0 <= i < a.len() && 0 <= k < a[i].children.len() ==> a[#[trigger] a[i].children[k] as int].parent
            == Some(i as usize)
    &&& forall|j: int|
        1 <= j < a.len() ==> (#[trigger] a[j].parent matches Some(p) && p < j && a[p as int].children.contains(
            j as usize,
        ))
}

/// Node indices on the stack lie inside the arena, which is shaped as a tree.
pub open spec fn state_ok(st: BuildState) -> bool {
    &&& tree_shape(st.arena)
    &&& forall|k: int| 0 <= k < st.stack.len() ==> #[trigger] st.stack[k] < st.arena.len()
}

proof fn lemma_add_leaf(a: Seq<NodeView>, p: int, x: NodeView)
    requires
        tree_shape(a),
        0 <= p < a.len(),
        a.len() < usize::MAX,
        x.children.len() == 0,
        x.parent == Some(p as usize),
    ensures
        tree_shape(add_child(a, p, a.len() as usize).push(x)),
{
    let n = a.len() as int;
    let b = add_child(a, p, n as usize).push(x);
    assert(b.len() == n + 1);
    assert forall|i: int| 0 <= i < n && i != p implies #[trigger] b[i] == a[i] by {}
    assert(b[p].children == a[p].children.push(n as usize));
    assert(b[p].parent == a[p].parent);
    assert(b[n] == x);
    assert(children_after(b)) by {
        assert forall|i: int, k: int| 0 <= i < b.len() && 0 <= k < b[i].children.len() implies i
            < #[trigger] b[i].children[k] < b.len() by {
            if i == p && k < a[p].children.len() {
                assert(b[i].children[k] == a[p].children[k]);
            }
        }
    }
    assert forall|i: int, k1: int, k2: int|
        0 <= i < b.len() && 0 <= k1 < k2 < b[i].children.len() implies #[trigger] b[i].children[k1]
            < #[trigger] b[i].children[k2] by {
        if i == p {
            assert(b[i].children[k1] == a[p].children[k1]);
            assert(a[p].children[k1] < n);
            if k2 < a[p].children.len() {
                assert(b[i].children[k2] == a[p].children[k2]);
            }
        }
    }
    assert forall|i: int, k: int| 0 <= i < b.len() && 0 <= k < b[i].children.len() implies b[
        #[trigger] b[i].children[k] as int].parent == Some(i as usize) by {
        if i == p {
            if k < a[p].children.len() {
                assert(b[i].children[k] == a[p].children[k]);
                assert(a[p].children[k] < n);
            }
        } else {
            assert(a[i].children[k] < n);
        }
    }
    assert forall|j: int| 1 <= j < b.len() implies (#[trigger] b[j].parent matches Some(q) && q < j
        && b[q as int].children.contains(j as usize)) by {
        if j < n {
            let q = a[j].parent->0;
            let k = choose|k: int| 0 <= k < a[q as int].children.len() && a[q as int].children[k] == j;
            if q as int == p {
                assert(b[q as int].children[k] == j);
            } else {
                assert(b[q as int] == a[q as int]);
            }
        } else {
            assert(b[p].children[a[p].children.len() as int] == n);
        }
    }
}

proof fn lemma_build_ok(rs: Seq<RecordView>)
    requires
        build_from(rs).arena.len() <= usize::MAX,
    ensures
        state_ok(build_from(rs)),
    decreases rs.len(),
{
    if rs.len() == 0 {
        let a = build_from(rs).arena;
        assert(a.len() == 1);
    } else {
        let st = build_from(rs.drop_last());
        assert(st.arena.len() < build_from(rs).arena.len());
        lemma_build_ok(rs.drop_last());
        let r = rs.last();
        let kept = if st.stack.len() > r.depth {
            st.stack.take(r.depth as int)
        } else {
            st.stack
        };
        let parent: usize = if kept.len() > 0 {
            kept.last()
        } else {
            0
        };
        let n = st.arena.len();
        assert(parent < n);
        let x = NodeView {
            name: r.name,
            cumulative_us: r.cumulative_us,
            parent: Some(parent),
            children: seq![],
            is_self: false,
        };
        lemma_add_leaf(st.arena, parent as int, x);
        let a1 = add_child(st.arena, parent as int, n as usize).push(x);
        if r.self_us > 0 {
            let y = NodeView {
                name: self_name(),
                cumulative_us: r.self_us,
                parent: Some(n as usize),
                children: seq![],
                is_self: true,
            };
            lemma_add_leaf(a1, n as int, y);
        }
        let out = build_from(rs);
        assert forall|k: int| 0 <= k < out.stack.len() implies #[trigger] out.stack[k]
            < out.arena.len() by {
            if k < kept.len() {
                assert(out.stack[k] == st.stack[k]);
            }
        }
    }
}

/// Runs the stack construction over the records, in the order given.
fn build_arena(records: &[ImportRecord]) -> (r: Vec<ArenaNode>)
    ensures
        arena_view(r@) == build_from(records_view(records@)).arena,
{
    let ghost rv = records_view(records@);
    let mut arena: Vec<ArenaNode> = Vec::new();
    arena.push(
        ArenaNode {
            name: String::from_str("Total"),
            cumulative_us: 0,
            parent: None,
            children: Vec::new(),
            is_self: false,
        },
    );
    let mut stack: Vec<usize> = Vec::new();
    stack.push(0);
    assert(arena_view(arena@) =~= build_from(rv.take(0)).arena);
    assert(stack@ =~= build_from(rv.take(0)).stack);
    for i in 0..records.len()
        invariant
            rv == records_view(records@),
            arena_view(arena@) == build_from(rv.take(i as int)).arena,
            stack@ == build_from(rv.take(i as int)).stack,
    {
        let ghost st = build_from(rv.take(i as int));
        proof {
            assert(arena_view(arena@).len() == arena.len());
            lemma_build_ok(rv.take(i as int));
            assert(rv.take(i + 1).drop_last() =~= rv.take(i as int));
        }
        let rec = &records[i];
        assert(rec@ == rv.take(i + 1).last());
        let ghost kept = if st.stack.len() > rec.depth {
            st.stack.take(rec.depth as int)
        } else {
            st.stack
        };
        while stack.len() > rec.depth
            invariant
                stack@ == st.stack.take(stack.len() as int),
                stack.len() <= st.stack.len(),
                stack.len() >= rec.depth || stack.len() == st.stack.len(),
            decreases stack.len(),
        {
            stack.pop();
        }
        assert(stack@ =~= kept);
        let parent: usize = if stack.len() > 0 {
            stack[stack.len() - 1]
        } else {
            0
        };
        let n = arena.len();
        assert(st.stack.contains(parent) || parent == 0) by {
            if stack.len() > 0 {
                assert(st.stack[stack.len() - 1] == parent);
            }
        }
        let ghost before = arena@;
        arena[parent].children.push(n);
        assert(arena_view(arena@) =~= add_child(arena_view(before), parent as int, n));
        arena.push(
            ArenaNode {
                name: rec.name.clone(),
                cumulative_us: rec.cumulative_us,
                parent: Some(parent),
                children: Vec::new(),
                is_self: false,
            },
        );
        if rec.self_us > 0 {
            let ghost mid = arena@;
            let self_index = arena.len();
            arena[n].children.push(self_index);
            assert(arena_view(arena@) =~= add_child(arena_view(mid), n as int, self_index));
            arena.push(
                ArenaNode {
                    name: String::from_str("self"),
                    cumulative_us: rec.self_us,
                    parent: Some(n),
                    children: Vec::new(),
                    is_self: true,
                },
            );
        }
        stack.push(n);
        assert(arena_view(arena@) =~= build_from(rv.take(i + 1)).arena);
        assert(stack@ =~= build_from(rv.take(i + 1)).stack);
    }
    assert(rv.take(records.len() as int) =~= rv);
    arena
}

/// Computes every subtree total, children before parents, or `None` when one overflows.
fn compute_totals(arena: &Vec<ArenaNode>) -> (r: Option<Vec<u64>>)
    requires
        children_after(arena_view(arena@)),
    ensures
        r is Some <==> totals_fit(arena_view(arena@)),
        r matches Some(t) ==> t.len() == arena.len() && forall|j: int|
            0 <= j < arena.len() ==> t@[j] == node_total(arena_view(arena@), j),
{
    let ghost a = arena_view(arena@);
    let n = arena.len();
    let mut totals: Vec<u64> = Vec::new();
    while totals.len() < n
        invariant
            totals.len() <= n,
        decreases n - totals.len(),
    {
        totals.push(0);
    }
    let mut i = n;
    while i > 0
        invariant
            i <= n == arena.len() == totals.len(),
            a == arena_view(arena@),
            children_after(a),
            forall|j: int| i <= j < n ==> totals@[j] == node_total(a, j),
        decreases i,
    {
        i = i - 1;
        let node = &arena[i];
        assert(node@ == a[i as int]);
        if node.children.len() == 0 {
            totals.set(i, node.cumulative_us);
        } else {
            let mut sum: u64 = 0;
            let mut k: usize = 0;
            while k < node.children.len()
                invariant
                    i < n == arena.len() == totals.len(),
                    a == arena_view(arena@),
                    node@ == a[i as int],
                    children_after(a),
                    forall|j: int| i < j < n ==> totals@[j] == node_total(a, j),
                    k <= node.children.len(),
                    sum == children_total(a, i as int, k as int),
                decreases node.children.len() - k,
            {
                let c = node.children[k];
                assert(i < a[i as int].children[k as int] < n);
                assert(totals@[c as int] == node_total(a, c as int));
                assert(children_total(a, i as int, k + 1) == children_total(a, i as int, k as int)
                    + node_total(a, c as int));
                match sum.checked_add(totals[c]) {
                    Some(v) => {
                        sum = v;
                    },
                    None => {
                        proof {
                            lemma_children_total_mono(
                                a,
                                i as int,
                                k + 1,
                                a[i as int].children.len() as int,
                            );
                            assert(node_total(a, i as int) > u64::MAX);
                        }
                        return None;
                    },
                }
                k = k + 1;
            }
            totals.set(i, sum);
        }
    }
    Some(totals)
}

impl Tree {
    /// The arena is nonempty with the root first, child indices come after their parent's,
    /// and `totals` holds every node's subtree total.
    pub open spec fn wf(&self) -> bool {
        let a = arena_view(self.arena@);
        &&& tree_shape(a)
        &&& self.root == 0
        &&& self.totals.len() == a.len()
        &&& forall|j: int| 0 <= j < a.len() ==> self.totals@[j] == node_total(a, j)
    }

    pub open spec fn nodes(&self) -> Seq<NodeView> {
        arena_view(self.arena@)
    }

    /// The time of the whole trace, in microseconds.
    pub fn total_us(&self) -> (r: u64)
        requires
            self.wf(),
        ensures
            r == node_total(self.nodes(), self.root as int),
    {
        self.totals[self.root]
    }

    /// The subtree total of node `index`.
    pub fn sum_children(&self, index: usize) -> (r: u64)
        requires
            self.wf(),
            index < self.nodes().len(),
        ensures
            r == node_total(self.nodes(), index as int),
    {
        assert(self.totals.len() == self.arena.len());
        self.totals[index]
    }
}

/// `r` is the tree built from `rs` in that order: its totals when they all fit, else
/// the overflow error.
pub open spec fn tree_of(r: Result<Tree, ImportTimeError>, rs: Seq<RecordView>) -> bool {
    let a = build_from(rs).arena;
    &&& r is Ok <==> totals_fit(a)
    &&& r matches Ok(t) ==> t.wf() && t.nodes() == a
    &&& r matches Err(e) ==> e == ImportTimeError::TotalOverflow
}

/// Builds the tree from records taken in the order given, then its subtree totals.
pub fn build_tree_from_records(records: &[ImportRecord]) -> (r: Result<Tree, ImportTimeError>)
    ensures
        tree_of(r, records_view(records@)),
{
    let arena = build_arena(records);
    proof {
        assert(arena_view(arena@).len() == arena.len());
        lemma_build_ok(records_view(records@));
    }
    match compute_totals(&arena) {
        Some(totals) => Ok(Tree { arena, root: 0, totals }),
        None => Err(ImportTimeError::TotalOverflow),
    }
}

/// The records in the opposite order.
fn reversed(v: Vec<ImportRecord>) -> (r: Vec<ImportRecord>)
    ensures
        records_view(r@) == records_view(v@).reverse(),
{
    let ghost v0 = v@;
    let mut v = v;
    let mut r: Vec<ImportRecord> = Vec::new();
    while v.len() > 0
        invariant
            v@ == v0.take(v.len() as int),
            r.len() + v.len() == v0.len(),
            forall|k: int| 0 <= k < r.len() ==> r@[k] == v0[v0.len() - 1 - k],
        decreases v.len(),
    {
        let x = v.pop().unwrap();
        r.push(x);
    }
    assert(records_view(r@) =~= records_view(v0).reverse());
    r
}

/// What `build_tree` returns for the trace `text`: the parse error, or the tree of the
/// records in reverse order.
pub open spec fn build_tree_spec(text: Seq<char>, r: Result<Tree, ImportTimeError>) -> bool {
    match parse_import_time_spec(text) {
        Err(e) => r matches Err(x) && x == e,
        Ok(rs) => tree_of(r, rs.reverse()),
    }
}

/// Parses a trace and builds its tree. The trace lists an import only after the imports
/// it caused, so the records are reversed first to put every parent before its children.
pub fn build_tree(text: &str) -> (r: Result<Tree, ImportTimeError>)
    ensures
        build_tree_spec(text@, r),
{
    let records = match parse_import_time(text) {
        Ok(rs) => rs,
        Err(e) => {
            return Err(e);
        },
    };
    let records = reversed(records);
    build_tree_from_records(&records)
}

} // verus!
