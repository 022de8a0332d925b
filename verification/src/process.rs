//! Process inspector: discovers the subtree of descendants of a root
//! process from a snapshot of the OS process table, and orders signal
//! targets leaf-first for freezing.

use vstd::prelude::*;

verus! {

/// One process of a snapshot of the OS process table.
pub struct ProcRecord {
    /// Process id.
    pub pid: u32,
    /// Parent process id (zero when the OS reports none).
    pub ppid: u32,
    /// Whether the OS classifies the process as a kernel thread.
    pub kernel_thread: bool,
    /// Process name, matched against a preset's subtree pattern.
    pub name: String,
}

/// A discovered member of a suspend target subtree.
pub struct SubtreeNode {
    /// Process id.
    pub pid: u32,
    /// Distance from the root process: the root itself has depth zero.
    pub depth: usize,
    /// Process name, copied from the snapshot.
    pub name: String,
}

/// A process table snapshot never lists the same pid twice.
pub open spec fn table_wf(t: Seq<ProcRecord>) -> bool {
    forall|a: int, b: int| 0 <= a < b < t.len() ==> t[a].pid != t[b].pid
}

/// Some record of the snapshot lists pid `p`.
pub open spec fn has_record(t: Seq<ProcRecord>, p: u32) -> bool {
    exists|k: int| 0 <= k < t.len() && t[k].pid == p
}

/// Some userland (non-kernel-thread) record lists pid `p`.
pub open spec fn has_userland_record(t: Seq<ProcRecord>, p: u32) -> bool {
    exists|k: int| 0 <= k < t.len() && t[k].pid == p && !t[k].kernel_thread
}

/// A userland record makes `c` a direct child of `p`.
pub open spec fn child_of(t: Seq<ProcRecord>, c: u32, p: u32) -> bool {
    exists|k: int|
        0 <= k < t.len() && t[k].pid == c && t[k].ppid == p && !t[k].kernel_thread
}

/// `c` is a parent chain: it starts at `root` and each later entry is a
/// direct child of its predecessor.
pub open spec fn chain_connects(t: Seq<ProcRecord>, root: u32, c: Seq<u32>) -> bool {
    &&& c.len() >= 1
    &&& c[0] == root
    &&& forall|i: int| 1 <= i < c.len() ==> #[trigger] child_of(t, c[i], c[i - 1])
}

/// Some parent chain from `root` ends at `p`.
pub open spec fn reaches(t: Seq<ProcRecord>, root: u32, p: u32) -> bool {
    exists|c: Seq<u32>| chain_connects(t, root, c) && c.last() == p
}

/// `p` is a strict descendant of `root` through userland records.
pub open spec fn descendant(t: Seq<ProcRecord>, root: u32, p: u32) -> bool {
    p != root && reaches(t, root, p)
}

/// Pid `p` occurs among the discovered nodes.
pub open spec fn has_pid(r: Seq<SubtreeNode>, p: u32) -> bool {
    exists|i: int| 0 <= i < r.len() && r[i].pid == p
}

/// Node `i` is justified by the snapshot: a userland record carries its pid
/// and name, and its parent is either the root (depth one) or an earlier
/// node one level up.
pub open spec fn linked_at(t: Seq<ProcRecord>, root: u32, r: Seq<SubtreeNode>, i: int) -> bool {
    exists|k: int|
        {
            &&& 0 <= k < t.len()
            &&& t[k].pid == r[i].pid
            &&& !t[k].kernel_thread
            &&& t[k].name@ == r[i].name@
            &&& ((t[k].ppid == root && r[i].depth == 1) || (exists|j: int|
                0 <= j < i && r[j].pid == t[k].ppid && r[i].depth == r[j].depth + 1))
        }
}

/// Every discovered node is justified by the snapshot.
pub open spec fn linked(t: Seq<ProcRecord>, root: u32, r: Seq<SubtreeNode>) -> bool {
    forall|i: int| 0 <= i < r.len() ==> #[trigger] linked_at(t, root, r, i)
}

/// Record `k` of the snapshot does not demand a new node: if it is a
/// userland non-root process whose parent is the root or one of the first
/// `lo` nodes, its pid is already discovered.
pub open spec fn closed_rec(
    t: Seq<ProcRecord>,
    root: u32,
    r: Seq<SubtreeNode>,
    lo: int,
    k: int,
) -> bool {
    (0 <= k < t.len() && !t[k].kernel_thread && t[k].pid != root && (t[k].ppid == root
        || exists|j: int| 0 <= j < lo && r[j].pid == t[k].ppid)) ==> has_pid(r, t[k].pid)
}

/// The discovery is saturated with respect to parents among the first `lo`
/// nodes (and the root).
pub open spec fn closed_upto(t: Seq<ProcRecord>, root: u32, r: Seq<SubtreeNode>, lo: int) -> bool {
    forall|k: int| #[trigger] closed_rec(t, root, r, lo, k)
}

/// The discovered pids are pairwise distinct and never the root.
pub open spec fn nodes_distinct(root: u32, r: Seq<SubtreeNode>) -> bool {
    &&& forall|a: int, b: int| 0 <= a < b < r.len() ==> r[a].pid != r[b].pid
    &&& forall|i: int| 0 <= i < r.len() ==> r[i].pid != root
}

/// A pid set justified by records of the snapshot has no more members than
/// the snapshot has records.
proof fn lemma_distinct_pid_bound(t: Seq<ProcRecord>, pids: Seq<u32>)
    requires
        forall|a: int, b: int| 0 <= a < b < pids.len() ==> pids[a] != pids[b],
        forall|i: int| 0 <= i < pids.len() ==> has_record(t, pids[i]),
    ensures
        pids.len() <= t.len(),
    decreases pids.len(),
{
    if pids.len() > 0 {
        let p = pids.last();
        let k = choose|k: int| 0 <= k < t.len() && t[k].pid == p;
        let t2 = t.remove(k);
        let pids2 = pids.drop_last();
        assert forall|i: int| 0 <= i < pids2.len() implies has_record(t2, pids2[i]) by {
            let k2 = choose|k2: int| 0 <= k2 < t.len() && t[k2].pid == pids2[i];
            assert(pids2[i] == pids[i]);
            assert(pids[i] != p);
            if k2 < k {
                assert(t2[k2] == t[k2]);
            } else {
                assert(k2 > k);
                assert(t2[k2 - 1] == t[k2]);
            }
        };
        lemma_distinct_pid_bound(t2, pids2);
    }
}

/// The discovered node count never exceeds the snapshot size.
proof fn lemma_node_count_bound(t: Seq<ProcRecord>, root: u32, r: Seq<SubtreeNode>)
    requires
        linked(t, root, r),
        nodes_distinct(root, r),
    ensures
        r.len() <= t.len(),
{
    let pids = Seq::new(r.len(), |i: int| r[i].pid);
    assert forall|i: int| 0 <= i < pids.len() implies has_record(t, pids[i]) by {
        assert(linked_at(t, root, r, i));
    };
    lemma_distinct_pid_bound(t, pids);
}

/// Justified nodes are genuine descendants of the root.
proof fn lemma_linked_sound(t: Seq<ProcRecord>, root: u32, r: Seq<SubtreeNode>, i: int)
    requires
        linked(t, root, r),
        nodes_distinct(root, r),
        0 <= i < r.len(),
    ensures
        descendant(t, root, r[i].pid),
    decreases i,
{
    assert(linked_at(t, root, r, i));
    let k = choose|k: int|
        {
            &&& 0 <= k < t.len()
            &&& t[k].pid == r[i].pid
            &&& !t[k].kernel_thread
            &&& t[k].name@ == r[i].name@
            &&& ((t[k].ppid == root && r[i].depth == 1) || (exists|j: int|
                0 <= j < i && r[j].pid == t[k].ppid && r[i].depth == r[j].depth + 1))
        };
    if t[k].ppid == root && r[i].depth == 1 {
        let c = seq![root, r[i].pid];
        assert(chain_connects(t, root, c));
        assert(c.last() == r[i].pid);
    } else {
        let j = choose|j: int| 0 <= j < i && r[j].pid == t[k].ppid && r[i].depth == r[j].depth + 1;
        lemma_linked_sound(t, root, r, j);
        let c0 = choose|c0: Seq<u32>| chain_connects(t, root, c0) && c0.last() == r[j].pid;
        let c = c0.push(r[i].pid);
        assert forall|m: int| 1 <= m < c.len() implies #[trigger] child_of(t, c[m], c[m - 1]) by {
            if m < c0.len() {
                assert(c[m] == c0[m]);
                assert(c[m - 1] == c0[m - 1]);
            } else {
                assert(c[m] == r[i].pid);
                assert(c[m - 1] == c0.last());
            }
        };
        assert(chain_connects(t, root, c));
        assert(c.last() == r[i].pid);
    }
}

/// In a saturated discovery, every parent chain ends at the root or at a
/// discovered pid.
proof fn lemma_closed_complete(t: Seq<ProcRecord>, root: u32, r: Seq<SubtreeNode>, c: Seq<u32>)
    requires
        closed_upto(t, root, r, r.len() as int),
        chain_connects(t, root, c),
    ensures
        c.last() == root || has_pid(r, c.last()),
    decreases c.len(),
{
    if c.len() == 1 {
        assert(c.last() == root);
    } else {
        let c0 = c.drop_last();
        assert(chain_connects(t, root, c0));
        lemma_closed_complete(t, root, r, c0);
        let last = c.last();
        if last != root {
            assert(child_of(t, last, c[c.len() - 2]));
            let k = choose|k: int|
                0 <= k < t.len() && t[k].pid == last && t[k].ppid == c[c.len() - 2]
                    && !t[k].kernel_thread;
            assert(c0.last() == c[c.len() - 2]);
            assert(closed_rec(t, root, r, r.len() as int, k));
        }
    }
}

/// Is pid `p` already among the discovered nodes?
fn contains_pid(v: &Vec<SubtreeNode>, p: u32) -> (r: bool)
    ensures
        r == has_pid(v@, p),
{
    let mut i: usize = 0;
    while i < v.len()
        invariant
            i <= v@.len(),
            forall|j: int| 0 <= j < i ==> v@[j].pid != p,
        decreases v@.len() - i,
    {
        if v[i].pid == p {
            return true;
        }
        i = i + 1;
    }
    false
}

/// Find the pid `p` within nodes `lo..hi` of the frontier.
fn find_in_layer(v: &Vec<SubtreeNode>, lo: usize, hi: usize, p: u32) -> (r: bool)
    requires
        lo <= hi <= v@.len(),
    ensures
        r == exists|j: int| lo <= j < hi && v@[j].pid == p,
{
    let mut i: usize = lo;
    while i < hi
        invariant
            lo <= i <= hi <= v@.len(),
            forall|j: int| lo <= j < i ==> v@[j].pid != p,
        decreases hi - i,
    {
        if v[i].pid == p {
            return true;
        }
        i = i + 1;
    }
    false
}

/// Walks the snapshot breadth-first from `root` and returns every strict
/// descendant reachable through userland records, each exactly once, with
/// its name and its distance from the root.  Nodes come out in
/// non-decreasing depth, parents before their children.  A root that no
/// userland record names as a parent yields the empty vector; whether the
/// root itself is alive is the caller's concern (see `select_targets`).
pub fn discover_descendants(table: &Vec<ProcRecord>, root: u32) -> (r: Vec<SubtreeNode>)
    requires
        table_wf(table@),
        table@.len() < usize::MAX,
    ensures
        nodes_distinct(root, r@),
        linked(table@, root, r@),
        forall|i: int| 0 <= i < r@.len() ==> #[trigger] descendant(table@, root, r@[i].pid),
        forall|p: u32| #[trigger] descendant(table@, root, p) ==> has_pid(r@, p),
        forall|a: int, b: int| 0 <= a <= b < r@.len() ==> r@[a].depth <= r@[b].depth,
        forall|i: int| 0 <= i < r@.len() ==> 1 <= #[trigger] r@[i].depth <= r@.len(),
        r@.len() <= table@.len(),
{
    let mut out: Vec<SubtreeNode> = Vec::new();
    // First layer: the direct children of the root.
    let mut m: usize = 0;
    while m < table.len()
        invariant
            m <= table@.len(),
            table_wf(table@),
            nodes_distinct(root, out@),
            linked(table@, root, out@),
            forall|i: int| 0 <= i < out@.len() ==> #[trigger] out@[i].depth == 1,
            out@.len() <= table@.len(),
            forall|k: int|
                0 <= k < m && !table@[k].kernel_thread && table@[k].pid != root
                    && table@[k].ppid == root ==> has_pid(out@, table@[k].pid),
        decreases table@.len() - m,
    {
        let rec = &table[m];
        if !rec.kernel_thread && rec.pid != root && rec.ppid == root && !contains_pid(&out, rec.pid)
        {
            let ghost old_out = out@;
            out.push(SubtreeNode { pid: rec.pid, depth: 1, name: rec.name.clone() });
            proof {
                assert forall|p: u32| has_pid(old_out, p) implies has_pid(out@, p) by {
                    let w = choose|w: int| 0 <= w < old_out.len() && old_out[w].pid == p;
                    assert(out@[w].pid == p);
                };
                assert(linked_at(table@, root, out@, old_out.len() as int));
                assert forall|i: int| 0 <= i < out@.len() implies #[trigger] linked_at(
                    table@,
                    root,
                    out@,
                    i,
                ) by {
                    if i < old_out.len() {
                        assert(linked_at(table@, root, old_out, i));
                        assert(out@[i] == old_out[i]);
                        assert forall|j: int| 0 <= j < i implies out@[j] == old_out[j] by {}
                    }
                };
                lemma_node_count_bound(table@, root, out@);
            }
        }
        m = m + 1;
    }
    // Later layers: children of the previous layer.
    let mut lo: usize = 0;
    let mut hi: usize = out.len();
    let mut d: usize = 1;
    while lo < hi
        invariant
            lo <= hi <= out@.len(),
            hi == out@.len(),
            d >= 1,
            table@.len() < usize::MAX,
            table_wf(table@),
            nodes_distinct(root, out@),
            linked(table@, root, out@),
            closed_upto(table@, root, out@, lo as int),
            forall|i: int| lo <= i < hi ==> #[trigger] out@[i].depth == d,
            forall|a: int, b: int| 0 <= a <= b < out@.len() ==> out@[a].depth <= out@[b].depth,
            forall|i: int| 0 <= i < out@.len() ==> 1 <= #[trigger] out@[i].depth <= i + 1,
            out@.len() <= table@.len(),
        decreases table@.len() - lo,
    {
        let mut m: usize = 0;
        while m < table.len()
            invariant
                m <= table@.len(),
                lo < hi <= out@.len(),
                d >= 1,
                table@.len() < usize::MAX,
                table_wf(table@),
                nodes_distinct(root, out@),
                linked(table@, root, out@),
                closed_upto(table@, root, out@, lo as int),
                forall|i: int| lo <= i < hi ==> #[trigger] out@[i].depth == d,
                forall|i: int| hi <= i < out@.len() ==> #[trigger] out@[i].depth == d + 1,
                forall|a: int, b: int| 0 <= a <= b < out@.len() ==> out@[a].depth <= out@[b].depth,
                forall|i: int| 0 <= i < out@.len() ==> 1 <= #[trigger] out@[i].depth <= i + 1,
                out@.len() <= table@.len(),
                forall|k: int|
                    0 <= k < m && !table@[k].kernel_thread && table@[k].pid != root && (exists|
                        j: int,
                    | lo <= j < hi && out@[j].pid == table@[k].ppid) ==> has_pid(
                        out@,
                        table@[k].pid,
                    ),
            decreases table@.len() - m,
        {
            let rec = &table[m];
            if !rec.kernel_thread && rec.pid != root && !contains_pid(&out, rec.pid)
                && find_in_layer(&out, lo, hi, rec.ppid) {
                let ghost old_out = out@;
                proof {
                    let j = choose|j: int| lo <= j < hi && old_out[j].pid == rec.ppid;
                    assert(old_out[j].depth == d);
                    assert(old_out[j].depth <= j + 1);
                    assert(d <= hi);
                }
                out.push(SubtreeNode { pid: rec.pid, depth: d + 1, name: rec.name.clone() });
                proof {
                    assert forall|p: u32| has_pid(old_out, p) implies has_pid(out@, p) by {
                        let w = choose|w: int| 0 <= w < old_out.len() && old_out[w].pid == p;
                        assert(out@[w].pid == p);
                    };
                    let i0 = old_out.len() as int;
                    assert forall|j: int| 0 <= j < i0 implies out@[j] == old_out[j] by {}
                    assert(linked_at(table@, root, out@, i0)) by {
                        let j = choose|j: int| lo <= j < hi && old_out[j].pid == rec.ppid;
                        assert(out@[j].pid == table@[m as int].ppid);
                        assert(out@[i0].depth == out@[j].depth + 1);
                    }
                    assert forall|i: int| 0 <= i < out@.len() implies #[trigger] linked_at(
                        table@,
                        root,
                        out@,
                        i,
                    ) by {
                        if i < i0 {
                            assert(linked_at(table@, root, old_out, i));
                        }
                    };
                    assert forall|k: int| #[trigger]
                        closed_rec(table@, root, out@, lo as int, k) by {
                        assert(closed_rec(table@, root, old_out, lo as int, k));
                        if 0 <= k < table@.len() && has_pid(old_out, table@[k].pid) {
                            let w = choose|w: int|
                                0 <= w < old_out.len() && old_out[w].pid == table@[k].pid;
                            assert(out@[w].pid == table@[k].pid);
                        }
                    };
                    lemma_node_count_bound(table@, root, out@);
                }
            } else {
                proof {
                    if !rec.kernel_thread && rec.pid != root && (exists|j: int|
                        lo <= j < hi && out@[j].pid == rec.ppid) {
                        assert(has_pid(out@, rec.pid));
                    }
                }
            }
            m = m + 1;
        }
        proof {
            assert forall|k: int| #[trigger] closed_rec(table@, root, out@, hi as int, k) by {
                if 0 <= k < table@.len() && !table@[k].kernel_thread && table@[k].pid != root {
                    if exists|j: int| 0 <= j < hi && out@[j].pid == table@[k].ppid {
                        let j = choose|j: int| 0 <= j < hi && out@[j].pid == table@[k].ppid;
                        if j < lo {
                            assert(closed_rec(table@, root, out@, lo as int, k));
                        }
                    } else if table@[k].ppid == root {
                        assert(closed_rec(table@, root, out@, lo as int, k));
                    }
                }
            };
        }
        proof {
            assert(out@[lo as int].depth == d);
            assert(out@[lo as int].depth <= lo + 1);
        }
        lo = hi;
        hi = out.len();
        d = d + 1;
    }
    proof {
        assert(closed_upto(table@, root, out@, out@.len() as int));
        assert forall|i: int| 0 <= i < out@.len() implies #[trigger] descendant(
            table@,
            root,
            out@[i].pid,
        ) by {
            lemma_linked_sound(table@, root, out@, i);
        };
        assert forall|p: u32| #[trigger] descendant(table@, root, p) implies has_pid(out@, p) by {
            let c = choose|c: Seq<u32>| chain_connects(table@, root, c) && c.last() == p;
            lemma_closed_complete(table@, root, out@, c);
        };
    }
    out
}

/// What compiling `pattern` as a regular expression and running it against
/// `text` decides: the pattern is valid and matches the text.  The result
/// depends on the two strings alone.
pub uninterp spec fn pattern_selects(pattern: Seq<char>, text: Seq<char>) -> bool;

/// Relies on regex::Regex::new and regex::Regex::is_match: whether
/// `pattern` compiles to a regular expression that matches `text`; an
/// invalid pattern selects nothing.
#[verifier::external_body]
fn regex_selects(pattern: &str, text: &str) -> (r: bool)
    ensures
        r == pattern_selects(pattern@, text@),
{
    match regex::Regex::new(pattern) {
        Ok(re) => re.is_match(text),
        Err(_) => false,
    }
}

/// Node `x` carries the pid, depth and name of entry `j` of `nodes`, whose
/// name the pattern selects.
pub open spec fn selected_copy_of(
    nodes: Seq<SubtreeNode>,
    pat: Seq<char>,
    x: SubtreeNode,
    j: int,
) -> bool {
    &&& 0 <= j < nodes.len()
    &&& x.pid == nodes[j].pid
    &&& x.depth == nodes[j].depth
    &&& x.name@ == nodes[j].name@
    &&& pattern_selects(pat, nodes[j].name@)
}

/// Node `x` is a copy of some entry of `nodes` that the pattern selects.
pub open spec fn some_selected_copy(nodes: Seq<SubtreeNode>, pat: Seq<char>, x: SubtreeNode) -> bool {
    exists|j: int| selected_copy_of(nodes, pat, x, j)
}

/// Keeps the nodes whose process name the pattern selects, preserving
/// order, pid distinctness and depth monotonicity.
pub fn filter_by_pattern(nodes: &Vec<SubtreeNode>, pattern: &str) -> (r: Vec<SubtreeNode>)
    requires
        forall|a: int, b: int| 0 <= a < b < nodes@.len() ==> nodes@[a].pid != nodes@[b].pid,
        forall|a: int, b: int| 0 <= a <= b < nodes@.len() ==> nodes@[a].depth <= nodes@[b].depth,
    ensures
        forall|i: int|
            0 <= i < r@.len() ==> #[trigger] some_selected_copy(nodes@, pattern@, r@[i]),
        forall|j: int|
            0 <= j < nodes@.len() && #[trigger] pattern_selects(pattern@, nodes@[j].name@)
                ==> has_pid(r@, nodes@[j].pid),
        forall|a: int, b: int| 0 <= a < b < r@.len() ==> r@[a].pid != r@[b].pid,
        forall|a: int, b: int| 0 <= a <= b < r@.len() ==> r@[a].depth <= r@[b].depth,
{
    let mut out: Vec<SubtreeNode> = Vec::new();
    let ghost mut src: Seq<int> = Seq::empty();
    let mut i: usize = 0;
    while i < nodes.len()
        invariant
            i <= nodes@.len(),
            src.len() == out@.len(),
            forall|a: int, b: int| 0 <= a < b < nodes@.len() ==> nodes@[a].pid != nodes@[b].pid,
            forall|a: int, b: int| 0 <= a <= b < nodes@.len() ==> nodes@[a].depth
                <= nodes@[b].depth,
            forall|a: int| 0 <= a < src.len() ==> 0 <= #[trigger] src[a] < i,
            forall|a: int|
                #![trigger out@[a]]
                0 <= a < src.len() ==> selected_copy_of(nodes@, pattern@, out@[a], src[a]),
            forall|a: int, b: int| 0 <= a < b < src.len() ==> src[a] < src[b],
            forall|j: int|
                0 <= j < i && #[trigger] pattern_selects(pattern@, nodes@[j].name@) ==> has_pid(
                    out@,
                    nodes@[j].pid,
                ),
        decreases nodes@.len() - i,
    {
        let n = &nodes[i];
        if regex_selects(pattern, n.name.as_str()) {
            let ghost old_out = out@;
            out.push(SubtreeNode { pid: n.pid, depth: n.depth, name: n.name.clone() });
            proof {
                let last = old_out.len() as int;
                src = src.push(i as int);
                assert forall|a: int| 0 <= a < old_out.len() implies out@[a] == old_out[a] by {}
                assert forall|p: u32| has_pid(old_out, p) implies has_pid(out@, p) by {
                    let w = choose|w: int| 0 <= w < old_out.len() && old_out[w].pid == p;
                    assert(out@[w].pid == p);
                };
                assert(selected_copy_of(nodes@, pattern@, out@[last], i as int));
                assert(has_pid(out@, nodes@[i as int].pid)) by {
                    assert(out@[last].pid == nodes@[i as int].pid);
                }
            }
        }
        i = i + 1;
    }
    proof {
        assert forall|a: int| 0 <= a < out@.len() implies #[trigger] some_selected_copy(
            nodes@,
            pattern@,
            out@[a],
        ) by {
            assert(selected_copy_of(nodes@, pattern@, out@[a], src[a]));
        };
        assert forall|a: int, b: int| 0 <= a < b < out@.len() implies out@[a].pid
            != out@[b].pid by {
            assert(selected_copy_of(nodes@, pattern@, out@[a], src[a]));
            assert(selected_copy_of(nodes@, pattern@, out@[b], src[b]));
        };
        assert forall|a: int, b: int| 0 <= a <= b < out@.len() implies out@[a].depth
            <= out@[b].depth by {
            assert(selected_copy_of(nodes@, pattern@, out@[a], src[a]));
            assert(selected_copy_of(nodes@, pattern@, out@[b], src[b]));
        };
    }
    out
}

/// A userland record of the snapshot carries the node's pid and name.
pub open spec fn node_recorded(t: Seq<ProcRecord>, x: SubtreeNode) -> bool {
    exists|k: int|
        0 <= k < t.len() && t[k].pid == x.pid && !t[k].kernel_thread && t[k].name@ == x.name@
}

/// Pid `p` belongs to the suspend target of a window rooted at `root`
/// under subtree pattern `pat`: the root must be alive as a userland
/// process, `p` is the root or one of its descendants, and when a pattern
/// is configured it selects `p`'s process name.
pub open spec fn is_target(t: Seq<ProcRecord>, root: u32, pat: Seq<char>, p: u32) -> bool {
    &&& has_userland_record(t, root)
    &&& (p == root || descendant(t, root, p))
    &&& exists|k: int|
        0 <= k < t.len() && t[k].pid == p && !t[k].kernel_thread && (pat.len() > 0
            ==> pattern_selects(pat, t[k].name@))
}

/// Computes the suspend target for a window rooted at `root`: the root and
/// every userland descendant, narrowed to the processes whose name the
/// pattern selects when one is configured.  The result lists each target
/// pid once, shallowest first, the root (depth zero) in front when it is
/// targeted.  A root the snapshot does not list yields the empty vector.
pub fn select_targets(table: &Vec<ProcRecord>, root: u32, pattern: &str) -> (r: Vec<SubtreeNode>)
    requires
        table_wf(table@),
        table@.len() < usize::MAX,
    ensures
        forall|p: u32| #[trigger] has_pid(r@, p) <==> is_target(table@, root, pattern@, p),
        forall|a: int, b: int| 0 <= a < b < r@.len() ==> r@[a].pid != r@[b].pid,
        forall|a: int, b: int| 0 <= a <= b < r@.len() ==> r@[a].depth <= r@[b].depth,
        forall|i: int| 0 <= i < r@.len() ==> #[trigger] r@[i].depth <= table@.len(),
        forall|i: int| 0 <= i < r@.len() ==> (#[trigger] r@[i].pid == root <==> r@[i].depth == 0),
{
    let mut k: usize = 0;
    let mut root_idx: usize = 0;
    let mut root_found = false;
    while k < table.len()
        invariant
            k <= table@.len(),
            !root_found ==> forall|k2: int|
                0 <= k2 < k ==> !(table@[k2].pid == root && !table@[k2].kernel_thread),
            root_found ==> root_idx < table@.len() && table@[root_idx as int].pid == root
                && !table@[root_idx as int].kernel_thread,
        decreases table@.len() - k,
    {
        if !root_found && table[k].pid == root && !table[k].kernel_thread {
            root_idx = k;
            root_found = true;
        }
        k = k + 1;
    }
    if !root_found {
        let r: Vec<SubtreeNode> = Vec::new();
        proof {
            assert forall|p: u32| !(#[trigger] is_target(table@, root, pattern@, p)) by {
                if has_userland_record(table@, root) {
                    let k2 = choose|k2: int|
                        0 <= k2 < table@.len() && table@[k2].pid == root
                            && !table@[k2].kernel_thread;
                    assert(false);
                }
            };
        }
        return r;
    }
    let mut full: Vec<SubtreeNode> = Vec::new();
    full.push(
        SubtreeNode { pid: root, depth: 0, name: table[root_idx].name.clone() },
    );
    let mut desc = discover_descendants(table, root);
    let ghost desc0 = desc@;
    full.append(&mut desc);
    proof {
        assert(full@.len() == 1 + desc0.len());
        assert(full@[0].pid == root && full@[0].depth == 0);
        assert forall|i: int| 1 <= i < full@.len() implies full@[i] == desc0[i - 1] by {}
        assert forall|i: int| 0 <= i < full@.len() implies #[trigger] node_recorded(
            table@,
            full@[i],
        ) by {
            if i == 0 {
                assert(table@[root_idx as int].pid == full@[0].pid && !table@[root_idx
                    as int].kernel_thread && table@[root_idx as int].name@ == full@[0].name@);
            } else {
                assert(linked_at(table@, root, desc0, i - 1));
            }
        };
        assert forall|p: u32| #[trigger] has_pid(full@, p) implies (p == root || descendant(
            table@,
            root,
            p,
        )) by {
            let i = choose|i: int| 0 <= i < full@.len() && full@[i].pid == p;
            if i > 0 {
                assert(descendant(table@, root, desc0[i - 1].pid));
            }
        };
        assert forall|p: u32| #[trigger] descendant(table@, root, p) implies has_pid(
            full@,
            p,
        ) by {
            assert(has_pid(desc0, p));
            let i = choose|i: int| 0 <= i < desc0.len() && desc0[i].pid == p;
            assert(full@[i + 1].pid == p);
        };
        assert(has_pid(full@, root)) by {
            assert(full@[0].pid == root);
        }
        assert forall|a: int, b: int| 0 <= a < b < full@.len() implies full@[a].pid
            != full@[b].pid by {
            if a == 0 {
                assert(desc0[b - 1].pid != root);
            }
        };
        assert forall|a: int, b: int| 0 <= a <= b < full@.len() implies full@[a].depth
            <= full@[b].depth by {}
        assert forall|i: int| 0 <= i < full@.len() implies #[trigger] full@[i].depth
            <= table@.len() by {
            if i > 0 {
                assert(desc0[i - 1].depth <= desc0.len());
            }
        };
        assert forall|i: int| 0 <= i < full@.len() implies (#[trigger] full@[i].pid == root
            <==> full@[i].depth == 0) by {
            if i > 0 {
                assert(desc0[i - 1].pid != root);
                assert(desc0[i - 1].depth >= 1);
            }
        };
    }
    if pattern.is_empty() {
        proof {
            assert forall|p: u32| #[trigger] has_pid(full@, p) implies is_target(
                table@,
                root,
                pattern@,
                p,
            ) by {
                let i = choose|i: int| 0 <= i < full@.len() && full@[i].pid == p;
                assert(node_recorded(table@, full@[i]));
            };
            assert forall|p: u32| is_target(table@, root, pattern@, p) implies #[trigger] has_pid(
                full@,
                p,
            ) by {
                if p != root {
                    assert(descendant(table@, root, p));
                }
            };
        }
        return full;
    }
    let r = filter_by_pattern(&full, pattern);
    proof {
        assert forall|p: u32| #[trigger] has_pid(r@, p) implies is_target(
            table@,
            root,
            pattern@,
            p,
        ) by {
            let i = choose|i: int| 0 <= i < r@.len() && r@[i].pid == p;
            assert(some_selected_copy(full@, pattern@, r@[i]));
            let j = choose|j: int| selected_copy_of(full@, pattern@, r@[i], j);
            assert(node_recorded(table@, full@[j]));
            let k2 = choose|k2: int|
                0 <= k2 < table@.len() && table@[k2].pid == full@[j].pid
                    && !table@[k2].kernel_thread && table@[k2].name@ == full@[j].name@;
            assert(has_pid(full@, p)) by {
                assert(full@[j].pid == p);
            }
        };
        assert forall|p: u32| is_target(table@, root, pattern@, p) implies has_pid(r@, p) by {
            assert(has_pid(full@, p));
            let j = choose|j: int| 0 <= j < full@.len() && full@[j].pid == p;
            let k2 = choose|k2: int|
                0 <= k2 < table@.len() && table@[k2].pid == p && !table@[k2].kernel_thread
                    && (pattern@.len() > 0 ==> pattern_selects(pattern@, table@[k2].name@));
            assert(node_recorded(table@, full@[j]));
            let k3 = choose|k3: int|
                0 <= k3 < table@.len() && table@[k3].pid == full@[j].pid
                    && !table@[k3].kernel_thread && table@[k3].name@ == full@[j].name@;
            assert(k2 == k3) by {
                if k2 < k3 {
                    assert(table@[k2].pid != table@[k3].pid);
                } else if k3 < k2 {
                    assert(table@[k3].pid != table@[k2].pid);
                }
            }
            assert(pattern_selects(pattern@, full@[j].name@));
        };
        assert forall|i: int| 0 <= i < r@.len() implies #[trigger] r@[i].depth <= table@.len()
            && (r@[i].pid == root <==> r@[i].depth == 0) by {
            assert(some_selected_copy(full@, pattern@, r@[i]));
            let j = choose|j: int| selected_copy_of(full@, pattern@, r@[i], j);
        };
    }
    r
}

/// The pids of the nodes, in the same order.
pub fn pids_of(nodes: &Vec<SubtreeNode>) -> (r: Vec<u32>)
    ensures
        r@.len() == nodes@.len(),
        forall|i: int| 0 <= i < r@.len() ==> r@[i] == nodes@[i].pid,
{
    let mut out: Vec<u32> = Vec::new();
    let mut i: usize = 0;
    while i < nodes.len()
        invariant
            i <= nodes@.len(),
            out@.len() == i,
            forall|j: int| 0 <= j < i ==> out@[j] == nodes@[j].pid,
        decreases nodes@.len() - i,
    {
        out.push(nodes[i].pid);
        i = i + 1;
    }
    out
}

/// The pids of nodes at exactly depth `d`, in order.
pub open spec fn depth_slice(nodes: Seq<SubtreeNode>, d: int) -> Seq<u32>
    decreases nodes.len(),
{
    if nodes.len() == 0 {
        Seq::empty()
    } else {
        depth_slice(nodes.drop_last(), d) + if nodes.last().depth == d {
            seq![nodes.last().pid]
        } else {
            Seq::empty()
        }
    }
}

/// The pids of depths `hi` down to `lo`, deepest first, each depth in the
/// nodes' own order.
pub open spec fn layers_desc(nodes: Seq<SubtreeNode>, hi: int, lo: int) -> Seq<u32>
    decreases hi - lo + 1,
{
    if hi < lo {
        Seq::empty()
    } else {
        depth_slice(nodes, hi) + layers_desc(nodes, hi - 1, lo)
    }
}

proof fn lemma_depth_slice_take(nodes: Seq<SubtreeNode>, d: int, i: int)
    requires
        0 <= i < nodes.len(),
    ensures
        depth_slice(nodes.take(i + 1), d) == depth_slice(nodes.take(i), d) + if nodes[i].depth
            == d {
            seq![nodes[i].pid]
        } else {
            Seq::<u32>::empty()
        },
{
    assert(nodes.take(i + 1).drop_last() =~= nodes.take(i));
    assert(nodes.take(i + 1).last() == nodes[i]);
}

proof fn lemma_depth_slice_empty(nodes: Seq<SubtreeNode>, d: int)
    requires
        forall|i: int| 0 <= i < nodes.len() ==> nodes[i].depth != d,
    ensures
        depth_slice(nodes, d) == Seq::<u32>::empty(),
    decreases nodes.len(),
{
    if nodes.len() > 0 {
        lemma_depth_slice_empty(nodes.drop_last(), d);
        assert(depth_slice(nodes, d) =~= Seq::<u32>::empty());
    }
}

proof fn lemma_layers_desc_snoc(nodes: Seq<SubtreeNode>, hi: int, lo: int)
    requires
        lo <= hi,
    ensures
        layers_desc(nodes, hi, lo) == layers_desc(nodes, hi, lo + 1) + depth_slice(nodes, lo),
    decreases hi - lo,
{
    if hi == lo {
        assert(layers_desc(nodes, hi - 1, lo) =~= Seq::<u32>::empty());
        assert(layers_desc(nodes, hi, lo + 1) =~= Seq::<u32>::empty());
        assert(layers_desc(nodes, hi, lo) =~= layers_desc(nodes, hi, lo + 1) + depth_slice(
            nodes,
            lo,
        ));
    } else {
        lemma_layers_desc_snoc(nodes, hi - 1, lo);
        assert(layers_desc(nodes, hi, lo) =~= layers_desc(nodes, hi, lo + 1) + depth_slice(
            nodes,
            lo,
        ));
    }
}

proof fn lemma_layers_desc_extend(nodes: Seq<SubtreeNode>, hi: int, maxd: int)
    requires
        maxd <= hi,
        forall|i: int| 0 <= i < nodes.len() ==> nodes[i].depth <= maxd,
    ensures
        layers_desc(nodes, hi, 0) == layers_desc(nodes, maxd, 0),
    decreases hi - maxd,
{
    if hi > maxd {
        lemma_layers_desc_extend(nodes, hi - 1, maxd);
        lemma_depth_slice_empty(nodes, hi);
        assert(layers_desc(nodes, hi, 0) =~= layers_desc(nodes, hi - 1, 0));
    }
}

/// Orders signal targets deepest-first: the pids of the deepest layer come
/// first, each layer in discovery order, the root (depth zero) last.  This
/// is the freeze order; the reverse reading of the nodes themselves gives
/// the thaw order.
pub fn leaf_first(nodes: &Vec<SubtreeNode>) -> (r: Vec<u32>)
    requires
        forall|i: int| 0 <= i < nodes@.len() ==> #[trigger] nodes@[i].depth < usize::MAX,
    ensures
        forall|dd: int|
            dd >= 0 && (forall|i: int| 0 <= i < nodes@.len() ==> nodes@[i].depth <= dd)
                ==> #[trigger] layers_desc(nodes@, dd, 0) == r@,
{
    let mut maxd: usize = 0;
    let mut i: usize = 0;
    while i < nodes.len()
        invariant
            i <= nodes@.len(),
            forall|j: int| 0 <= j < nodes@.len() ==> #[trigger] nodes@[j].depth < usize::MAX,
            forall|j: int| 0 <= j < i ==> #[trigger] nodes@[j].depth <= maxd,
            maxd < usize::MAX,
        decreases nodes@.len() - i,
    {
        if nodes[i].depth > maxd {
            maxd = nodes[i].depth;
        }
        i = i + 1;
    }
    let mut out: Vec<u32> = Vec::new();
    let mut d: usize = maxd + 1;
    proof {
        assert(out@ =~= layers_desc(nodes@, maxd as int, d as int));
    }
    while d > 0
        invariant
            d <= maxd + 1,
            out@ == layers_desc(nodes@, maxd as int, d as int),
        decreases d,
    {
        d = d - 1;
        proof {
            assert(out@ =~= layers_desc(nodes@, maxd as int, d + 1) + depth_slice(
                nodes@.take(0),
                d as int,
            ));
        }
        let mut m: usize = 0;
        while m < nodes.len()
            invariant
                m <= nodes@.len(),
                d <= maxd,
                out@ == layers_desc(nodes@, maxd as int, d + 1) + depth_slice(
                    nodes@.take(m as int),
                    d as int,
                ),
            decreases nodes@.len() - m,
        {
            let ghost before = out@;
            if nodes[m].depth == d {
                out.push(nodes[m].pid);
            }
            proof {
                lemma_depth_slice_take(nodes@, d as int, m as int);
                if nodes@[m as int].depth == d {
                    assert(out@ =~= before + seq![nodes@[m as int].pid]);
                    assert(out@ =~= layers_desc(nodes@, maxd as int, d + 1) + depth_slice(
                        nodes@.take(m + 1),
                        d as int,
                    ));
                } else {
                    assert(out@ =~= layers_desc(nodes@, maxd as int, d + 1) + depth_slice(
                        nodes@.take(m + 1),
                        d as int,
                    ));
                }
            }
            m = m + 1;
        }
        proof {
            assert(nodes@.take(nodes@.len() as int) =~= nodes@);
            lemma_layers_desc_snoc(nodes@, maxd as int, d as int);
        }
    }
    proof {
        assert forall|dd: int|
            dd >= 0 && (forall|i2: int| 0 <= i2 < nodes@.len() ==> nodes@[i2].depth <= dd)
                implies #[trigger] layers_desc(nodes@, dd, 0) == out@ by {
            if dd >= maxd {
                lemma_layers_desc_extend(nodes@, dd, maxd as int);
            } else {
                lemma_layers_desc_extend(nodes@, maxd as int, dd);
            }
        };
    }
    out
}


/// The pids at depth `d` are exactly the pids of the nodes at depth `d`.
pub proof fn lemma_depth_slice_membership(nodes: Seq<SubtreeNode>, d: int)
    ensures
        forall|p: u32|
            #[trigger] depth_slice(nodes, d).contains(p) <==> exists|i: int|
                0 <= i < nodes.len() && nodes[i].pid == p && nodes[i].depth == d,
    decreases nodes.len(),
{
    if nodes.len() > 0 {
        lemma_depth_slice_membership(nodes.drop_last(), d);
        assert forall|p: u32| #[trigger] depth_slice(nodes, d).contains(p) implies exists|i: int|
            0 <= i < nodes.len() && nodes[i].pid == p && nodes[i].depth == d by {
            if depth_slice(nodes.drop_last(), d).contains(p) {
                let i = choose|i: int|
                    0 <= i < nodes.drop_last().len() && nodes.drop_last()[i].pid == p
                        && nodes.drop_last()[i].depth == d;
                assert(nodes[i].pid == p && nodes[i].depth == d);
            } else {
                assert(nodes[nodes.len() - 1].pid == p && nodes[nodes.len() - 1].depth == d);
            }
        };
        assert forall|p: u32|
            (exists|i: int| 0 <= i < nodes.len() && nodes[i].pid == p && nodes[i].depth == d)
                implies #[trigger] depth_slice(nodes, d).contains(p) by {
            let i = choose|i: int|
                0 <= i < nodes.len() && nodes[i].pid == p && nodes[i].depth == d;
            if i < nodes.len() - 1 {
                assert(nodes.drop_last()[i].pid == p && nodes.drop_last()[i].depth == d);
                assert(depth_slice(nodes.drop_last(), d).contains(p));
                let w = choose|w: int|
                    0 <= w < depth_slice(nodes.drop_last(), d).len() && (#[trigger] depth_slice(
                        nodes.drop_last(),
                        d,
                    )[w]) == p;
                assert(depth_slice(nodes, d)[w] == p);
            } else {
                assert(depth_slice(nodes, d).last() == p);
            }
        };
    }
}

/// The deepest-first ordering holds exactly the pids of the nodes whose
/// depth lies in the range.
pub proof fn lemma_layers_desc_membership(nodes: Seq<SubtreeNode>, hi: int, lo: int)
    ensures
        forall|p: u32|
            #[trigger] layers_desc(nodes, hi, lo).contains(p) <==> exists|i: int|
                0 <= i < nodes.len() && nodes[i].pid == p && lo <= nodes[i].depth <= hi,
    decreases hi - lo + 1,
{
    if hi < lo {
    } else {
        lemma_layers_desc_membership(nodes, hi - 1, lo);
        lemma_depth_slice_membership(nodes, hi);
        assert(layers_desc(nodes, hi, lo) == depth_slice(nodes, hi) + layers_desc(
            nodes,
            hi - 1,
            lo,
        ));
        assert forall|p: u32| #[trigger] layers_desc(nodes, hi, lo).contains(p) implies exists|
            i: int,
        | 0 <= i < nodes.len() && nodes[i].pid == p && lo <= nodes[i].depth <= hi by {
            let w = choose|w: int|
                0 <= w < layers_desc(nodes, hi, lo).len() && (#[trigger] layers_desc(
                    nodes,
                    hi,
                    lo,
                )[w]) == p;
            if w < depth_slice(nodes, hi).len() {
                assert(depth_slice(nodes, hi).contains(p));
            } else {
                assert(layers_desc(nodes, hi - 1, lo)[w - depth_slice(nodes, hi).len()] == p);
                assert(layers_desc(nodes, hi - 1, lo).contains(p));
            }
        };
        assert forall|p: u32|
            (exists|i: int|
                0 <= i < nodes.len() && nodes[i].pid == p && lo <= nodes[i].depth <= hi)
                implies #[trigger] layers_desc(nodes, hi, lo).contains(p) by {
            let i = choose|i: int|
                0 <= i < nodes.len() && nodes[i].pid == p && lo <= nodes[i].depth <= hi;
            if nodes[i].depth == hi {
                assert(depth_slice(nodes, hi).contains(p));
                let w = choose|w: int|
                    0 <= w < depth_slice(nodes, hi).len() && (#[trigger] depth_slice(
                        nodes,
                        hi,
                    )[w]) == p;
                assert(layers_desc(nodes, hi, lo)[w] == p);
            } else {
                assert(layers_desc(nodes, hi - 1, lo).contains(p));
                let w = choose|w: int|
                    0 <= w < layers_desc(nodes, hi - 1, lo).len() && (#[trigger] layers_desc(
                        nodes,
                        hi - 1,
                        lo,
                    )[w]) == p;
                assert(layers_desc(nodes, hi, lo)[w + depth_slice(nodes, hi).len()] == p);
            }
        };
    }
}

} // verus!
