//! Folding a flat table into a forest by a column that gives each row's depth.

use crate::data::{preorder, preorder_all, FlatData, FoldedData, Node};
use crate::error::Error;
use crate::value::{lemma_antisymmetric, lemma_equal_substitution, value_cmp, Value};
use std::cmp::Ordering;
use vstd::prelude::*;

verus! {

/// Whether an open node at level `open` is closed by a row at level `current`: it is, unless
/// `current` is strictly deeper or the two levels cannot be compared.
pub open spec fn closes(open: Value, current: Value) -> bool {
    value_cmp(open, current) == Some(Ordering::Greater) || value_cmp(open, current) == Some(
        Ordering::Equal,
    )
}

/// The parent of row `i`: the nearest still-open row before it that it does not close, or
/// none.
pub open spec fn parent_of(levels: Seq<Value>, i: int) -> Option<int>
    decreases i, 0int,
{
    if i <= 0 || i >= levels.len() {
        None
    } else {
        open_ancestor(levels, i - 1, i)
    }
}

/// The first of row `c` and its ancestors, innermost first, that row `i` does not close.
pub open spec fn open_ancestor(levels: Seq<Value>, c: int, i: int) -> Option<int>
    decreases c, 1int,
{
    if c < 0 || c >= i || i >= levels.len() {
        None
    } else if closes(levels[c], levels[i]) {
        match parent_of(levels, c) {
            Some(p) => if 0 <= p < c {
                open_ancestor(levels, p, i)
            } else {
                None
            },
            None => None,
        }
    } else {
        Some(c)
    }
}

/// Every child in the subtree of `n` is placed under its parent.
pub open spec fn wf_node(levels: Seq<Value>, n: Node) -> bool
    decreases n,
{
    forall|j: int|
        0 <= j < n.children@.len() ==> parent_of(levels, #[trigger] n.children@[j].record as int)
            == Some(n.record as int) && wf_node(levels, n.children@[j])
}

/// The rows 0, 1, ..., n - 1.
pub open spec fn rows_upto(n: int) -> Seq<int> {
    Seq::new(n as nat, |i: int| i)
}

/// The depth column of a table: the value at `k` in each row.
pub open spec fn levels_of(records: Seq<Vec<Value>>, k: int) -> Seq<Value> {
    Seq::new(records.len(), |i: int| records[i]@[k])
}

/// `nodes` is the forest of rows `0..levels.len()`: each row stands in it once, in pre-order,
/// each root is a row without parent and each child sits under its parent.
pub open spec fn is_forest_of(levels: Seq<Value>, nodes: Seq<Node>) -> bool {
    &&& preorder_all(nodes) == rows_upto(levels.len() as int)
    &&& forall|j: int|
        0 <= j < nodes.len() ==> parent_of(levels, #[trigger] nodes[j].record as int) is None
            && wf_node(levels, nodes[j])
}

/// The index of the first key equal to `key`.
pub open spec fn find_key(keys: Seq<String>, key: Seq<char>) -> Option<int>
    decreases keys.len(),
{
    if keys.len() == 0 {
        None
    } else {
        match find_key(keys.drop_last(), key) {
            Some(i) => Some(i),
            None => if keys.last()@ == key {
                Some(keys.len() - 1)
            } else {
                None
            },
        }
    }
}

/// Finds the position of the first key equal to `key`.
pub fn position_of_key(keys: &Vec<String>, key: &str) -> (r: Option<usize>)
    ensures
        match r {
            Some(i) => find_key(keys@, key@) == Some(i as int),
            None => find_key(keys@, key@) is None,
        },
{
    let wanted = key.to_owned();
    let mut i: usize = 0;
    while i < keys.len()
        invariant
            i <= keys@.len(),
            find_key(keys@.subrange(0, i as int), key@) is None,
            wanted@ == key@,
        decreases keys@.len() - i,
    {
        assert(keys@.subrange(0, i + 1).drop_last() =~= keys@.subrange(0, i as int));
        if keys[i].eq(&wanted) {
            proof {
                assert(keys@.subrange(0, i + 1).last() == keys@[i as int]);
                assert(find_key(keys@.subrange(0, i + 1), key@) == Some(i as int));
                lemma_find_key_prefix(keys@, key@, i as int + 1);
            }
            return Some(i);
        }
        i = i + 1;
    }
    assert(keys@.subrange(0, i as int) =~= keys@);
    None
}

/// A key found in a prefix of the keys is found at the same place in all of them.
proof fn lemma_find_key_prefix(keys: Seq<String>, key: Seq<char>, n: int)
    requires
        0 <= n <= keys.len(),
        find_key(keys.subrange(0, n), key) is Some,
    ensures
        find_key(keys, key) == find_key(keys.subrange(0, n), key),
    decreases keys.len() - n,
{
    if n < keys.len() {
        assert(keys.subrange(0, n + 1).drop_last() =~= keys.subrange(0, n));
        lemma_find_key_prefix(keys, key, n + 1);
    } else {
        assert(keys.subrange(0, n) =~= keys);
    }
}

/// An open node on the working stack, with its level.
struct LevelNode {
    level: Value,
    node: Node,
}

/// The rows of the subtrees of the stack's nodes, bottom first.
spec fn stack_preorder(s: Seq<LevelNode>) -> Seq<int>
    decreases s.len(),
{
    if s.len() == 0 {
        Seq::empty()
    } else {
        stack_preorder(s.drop_last()) + preorder(s.last().node)
    }
}

/// The state of folding after rows `0..i`: closed trees in `top`, open ancestors of the last
/// row on the stack.
#[verifier::opaque]
spec fn stack_ok(levels: Seq<Value>, s: Seq<LevelNode>, top: Seq<Node>, i: int) -> bool {
    &&& i <= levels.len()
    &&& preorder_all(top) + stack_preorder(s) == rows_upto(i)
    &&& forall|j: int|
        0 <= j < top.len() ==> parent_of(levels, #[trigger] top[j].record as int) is None
            && wf_node(levels, top[j])
    &&& forall|j: int|
        0 <= j < s.len() ==> (#[trigger] s[j]).level == levels[s[j].node.record as int]
            && wf_node(levels, s[j].node) && s[j].node.record < i
    &&& forall|j: int|
        0 < j < s.len() ==> parent_of(levels, (#[trigger] s[j]).node.record as int) == Some(
            s[j - 1].node.record as int,
        ) && s[j - 1].node.record < s[j].node.record
    &&& s.len() > 0 ==> parent_of(levels, s[0].node.record as int) is None
}

proof fn lemma_preorder_push(ns: Seq<Node>, n: Node)
    ensures
        preorder_all(ns.push(n)) == preorder_all(ns) + preorder(n),
{
    assert(ns.push(n).drop_last() =~= ns);
}

proof fn lemma_stack_preorder_push(s: Seq<LevelNode>, e: LevelNode)
    ensures
        stack_preorder(s.push(e)) == stack_preorder(s) + preorder(e.node),
{
    assert(s.push(e).drop_last() =~= s);
}

/// A node that gains a child that belongs under it stays well placed.
proof fn lemma_attach_child(levels: Seq<Value>, p: Node, c: Node, q: Node)
    requires
        wf_node(levels, p),
        wf_node(levels, c),
        parent_of(levels, c.record as int) == Some(p.record as int),
        q.record == p.record,
        q.children@ == p.children@.push(c),
    ensures
        wf_node(levels, q),
        preorder(q) == preorder(p) + preorder(c),
{
    lemma_preorder_push(p.children@, c);
    assert(preorder(q) =~= preorder(p) + preorder(c));
    assert forall|j: int| 0 <= j < q.children@.len() implies parent_of(
        levels,
        #[trigger] q.children@[j].record as int,
    ) == Some(q.record as int) && wf_node(levels, q.children@[j]) by {
        if j < p.children@.len() {
            assert(q.children@[j] == p.children@[j]);
        }
    }
}

/// Closing the innermost of two or more open nodes into the one below it keeps the state.
proof fn lemma_close_into_parent(
    levels: Seq<Value>,
    s0: Seq<LevelNode>,
    top: Seq<Node>,
    i: int,
    q: LevelNode,
)
    requires
        stack_ok(levels, s0, top, i),
        s0.len() >= 2,
        q.level == s0[s0.len() - 2].level,
        q.node.record == s0[s0.len() - 2].node.record,
        q.node.children@ == s0[s0.len() - 2].node.children@.push(s0[s0.len() - 1].node),
    ensures
        stack_ok(levels, s0.drop_last().drop_last().push(q), top, i),
{
    reveal(stack_ok);
    let m = s0.len();
    let s2 = s0.drop_last().drop_last();
    let s3 = s2.push(q);
    let p = s0[m - 2];
    let c = s0[m - 1];
    lemma_attach_child(levels, p.node, c.node, q.node);
    lemma_stack_preorder_push(s2, q);
    assert(s0.drop_last() =~= s2.push(p));
    lemma_stack_preorder_push(s2, p);
    lemma_stack_preorder_push(s0.drop_last(), c);
    assert(s0.drop_last().push(c) =~= s0);
    assert(stack_preorder(s3) =~= stack_preorder(s0));
    assert forall|j: int| 0 <= j < s3.len() implies (#[trigger] s3[j]).level == levels[s3[j].node.record as int]
        && wf_node(levels, s3[j].node) && s3[j].node.record < i by {
        if j < s2.len() {
            assert(s3[j] == s0[j]);
        }
    }
    assert forall|j: int| 0 < j < s3.len() implies parent_of(levels, (#[trigger] s3[j]).node.record as int) == Some(
        s3[j - 1].node.record as int,
    ) && s3[j - 1].node.record < s3[j].node.record by {
        assert(s3[j].node.record == s0[j].node.record);
        assert(s3[j - 1].node.record == s0[j - 1].node.record);
    }
}

/// Closing the only open node makes it the last top-level node and keeps the state.
#[verifier::rlimit(40)]
proof fn lemma_close_to_top(levels: Seq<Value>, s0: Seq<LevelNode>, top: Seq<Node>, i: int)
    requires
        stack_ok(levels, s0, top, i),
        s0.len() == 1,
    ensures
        stack_ok(levels, Seq::empty(), top.push(s0[0].node), i),
{
    reveal(stack_ok);
    let t1 = top.push(s0[0].node);
    let e = Seq::<LevelNode>::empty();
    lemma_preorder_push(top, s0[0].node);
    assert(s0.drop_last() =~= e);
    assert(stack_preorder(e) =~= Seq::<int>::empty());
    assert(stack_preorder(s0) == stack_preorder(e) + preorder(s0[0].node));
    assert(stack_preorder(s0) =~= preorder(s0[0].node));
    assert(preorder_all(t1) + stack_preorder(e) =~= preorder_all(t1));
    assert(preorder_all(top) + stack_preorder(s0) =~= preorder_all(t1));
    assert forall|j: int| 0 <= j < t1.len() implies parent_of(levels, #[trigger] t1[j].record as int) is None
        && wf_node(levels, t1[j]) by {
        if j < top.len() {
            assert(t1[j] == top[j]);
        }
    }
}

/// `n` is what closing the entries `s[from..]` innermost first makes of `s[from]`'s node: each
/// entry's node becomes the last child of the node of the entry below it.
spec fn closes_into(s: Seq<LevelNode>, from: int, n: Node) -> bool
    decreases s.len() - from,
{
    if from >= s.len() - 1 {
        n == s[from].node
    } else {
        &&& n.record == s[from].node.record
        &&& n.children@.len() == s[from].node.children@.len() + 1
        &&& n.children@.drop_last() == s[from].node.children@
        &&& closes_into(s, from + 1, n.children@.last())
    }
}

/// `(s, t)` is `(s0, t0)` with its innermost entries closed: the entries below the closed ones
/// are kept, the deepest kept one holding what was closed into it; when all were closed, the
/// bottom one is the last top-level node. The top-level nodes are otherwise unchanged.
spec fn partly_closed(
    s0: Seq<LevelNode>,
    t0: Seq<Node>,
    s: Seq<LevelNode>,
    t: Seq<Node>,
) -> bool {
    &&& s.len() <= s0.len()
    &&& forall|q: int| 0 <= q < s.len() - 1 ==> #[trigger] s[q] == s0[q]
    &&& s.len() == s0.len() ==> s == s0 && t == t0
    &&& 0 < s.len() < s0.len() ==> s[s.len() - 1].level == s0[s.len() - 1].level && closes_into(
        s0,
        s.len() - 1,
        s[s.len() - 1].node,
    ) && t == t0
    &&& s.len() == 0 < s0.len() ==> t.len() == t0.len() + 1 && t.drop_last() == t0 && closes_into(
        s0,
        0,
        t.last(),
    )
}

/// Closing one more entry of a partly closed stack leaves it partly closed.
proof fn lemma_partly_closed_step(
    s0: Seq<LevelNode>,
    t0: Seq<Node>,
    s1: Seq<LevelNode>,
    t1: Seq<Node>,
    s2: Seq<LevelNode>,
    t2: Seq<Node>,
)
    requires
        partly_closed(s0, t0, s1, t1),
        partly_closed(s1, t1, s2, t2),
        s2.len() == s1.len() - 1,
    ensures
        partly_closed(s0, t0, s2, t2),
{
    let l = s1.len() as int;
    assert(closes_into(s0, l - 1, s1[l - 1].node)) by {
        if l == s0.len() {
            assert(s1[l - 1] == s0[l - 1]);
        }
    }
    if l >= 2 {
        assert(closes_into(s1, l - 2, s2[l - 2].node));
        assert(closes_into(s1, l - 1, s2[l - 2].node.children@.last()));
        assert(s1[l - 2] == s0[l - 2]);
        assert(s2[l - 2].node.children@.last() == s1[l - 1].node);
        assert(closes_into(s0, l - 2, s2[l - 2].node));
    } else {
        assert(closes_into(s1, 0, t2.last()));
        assert(t2.last() == s1[0].node);
    }
    assert forall|q: int| 0 <= q < s2.len() - 1 implies #[trigger] s2[q] == s0[q] by {
        assert(s2[q] == s1[q]);
    }
}

/// Closes the innermost open node: it becomes the last child of the node below it, or the
/// last top-level node when there is none. Nothing happens when no node is open.
fn finalize_working_node(working_node_stack: &mut Vec<LevelNode>, top_level_nodes: &mut Vec<Node>)
    ensures
        partly_closed(
            old(working_node_stack)@,
            old(top_level_nodes)@,
            final(working_node_stack)@,
            final(top_level_nodes)@,
        ),
        old(working_node_stack)@.len() == 0 ==> final(working_node_stack)@ == old(
            working_node_stack,
        )@ && final(top_level_nodes)@ == old(top_level_nodes)@,
        old(working_node_stack)@.len() > 0 ==> final(working_node_stack)@.len() == old(
            working_node_stack,
        )@.len() - 1,
        old(working_node_stack)@.len() == 1 ==> final(top_level_nodes)@ == old(
            top_level_nodes,
        )@.push(old(working_node_stack)@[0].node),
        old(working_node_stack)@.len() >= 2 ==> ({
            let s = old(working_node_stack)@;
            let p = final(working_node_stack)@.last();
            &&& final(top_level_nodes)@ == old(top_level_nodes)@
            &&& p.level == s[s.len() - 2].level
            &&& p.node.record == s[s.len() - 2].node.record
            &&& p.node.children@ == s[s.len() - 2].node.children@.push(s.last().node)
        }),
{
    let ghost s0 = working_node_stack@;
    let ghost t0 = top_level_nodes@;
    let popped = match working_node_stack.pop() {
        Some(p) => p,
        None => {
            return;
        },
    };
    if working_node_stack.len() > 0 {
        let mut parent = working_node_stack.pop().unwrap();
        let ghost p0 = parent;
        parent.node.children.push(popped.node);
        working_node_stack.push(parent);
        proof {
            let s = working_node_stack@;
            let m = s0.len() as int;
            assert(s0[m - 1] == popped);
            assert(s0[m - 2] == p0);
            assert(parent.node.children@.drop_last() =~= p0.node.children@);
            assert(closes_into(s0, m - 1, popped.node));
            assert(closes_into(s0, m - 2, parent.node));
            assert forall|q: int| 0 <= q < s.len() - 1 implies #[trigger] s[q] == s0[q] by {}
        }
    } else {
        top_level_nodes.push(popped.node);
        proof {
            assert(top_level_nodes@.drop_last() =~= t0);
            assert(closes_into(s0, 0, popped.node));
        }
    }
}

/// Closing the innermost entry of the folding state into the one below it, or to the top
/// level, keeps the state.
proof fn lemma_finalize_keeps_state(
    levels: Seq<Value>,
    s0: Seq<LevelNode>,
    t0: Seq<Node>,
    s1: Seq<LevelNode>,
    t1: Seq<Node>,
    i: int,
)
    requires
        stack_ok(levels, s0, t0, i),
        s0.len() > 0,
        s1.len() == s0.len() - 1,
        partly_closed(s0, t0, s1, t1),
    ensures
        stack_ok(levels, s1, t1, i),
{
    let m = s0.len() as int;
    if m >= 2 {
        let q = s1[m - 2];
        assert(closes_into(s0, m - 2, q.node));
        assert(closes_into(s0, m - 1, q.node.children@.last()));
        assert(q.node.children@ =~= s0[m - 2].node.children@.push(s0[m - 1].node));
        lemma_close_into_parent(levels, s0, t0, i, q);
        assert(s1 =~= s0.drop_last().drop_last().push(q));
    } else {
        lemma_close_to_top(levels, s0, t0, i);
        assert(closes_into(s0, 0, t1.last()));
        assert(t1 =~= t0.push(s0[0].node));
        assert(s1 =~= Seq::<LevelNode>::empty());
    }
}

/// How many of the stack's entries a row at level `current` keeps open: those up to the
/// innermost one it does not close.
spec fn kept_count(s: Seq<LevelNode>, current: Value) -> int
    decreases s.len(),
{
    if s.len() == 0 {
        0
    } else if closes(s.last().level, current) {
        kept_count(s.drop_last(), current)
    } else {
        s.len() as int
    }
}

proof fn lemma_kept_count(s: Seq<LevelNode>, current: Value)
    ensures
        0 <= kept_count(s, current) <= s.len(),
        forall|q: int|
            kept_count(s, current) <= q < s.len() ==> closes((#[trigger] s[q]).level, current),
        kept_count(s, current) > 0 ==> !closes(s[kept_count(s, current) - 1].level, current),
    decreases s.len(),
{
    if s.len() > 0 && closes(s.last().level, current) {
        let t = s.drop_last();
        lemma_kept_count(t, current);
        assert forall|q: int| kept_count(s, current) <= q < s.len() implies closes(
            (#[trigger] s[q]).level,
            current,
        ) by {
            if q < t.len() {
                assert(s[q] == t[q]);
            }
        }
        if kept_count(s, current) > 0 {
            assert(s[kept_count(s, current) - 1] == t[kept_count(s, current) - 1]);
        }
    }
}

/// The folding state of rows `0..i`, about to take row `i` at level `current`, whose previous
/// row is the innermost open one.
spec fn in_folding(levels: Seq<Value>, s: Seq<LevelNode>, t: Seq<Node>, current: Value, i: int) -> bool {
    &&& stack_ok(levels, s, t, i)
    &&& 0 < i < levels.len()
    &&& current == levels[i]
    &&& s.len() > 0
    &&& s.last().node.record == i - 1
}

/// Closes every open node that a row at level `current_record_level` closes, innermost first,
/// each into the node below it: the entries up to the innermost one the row does not close
/// stay open. In the folding state of row `i`, the row's parent is then the innermost node
/// left open, if any.
fn unwind_working_stack(
    working_node_stack: &mut Vec<LevelNode>,
    top_level_nodes: &mut Vec<Node>,
    current_record_level: &Value,
    Ghost(levels): Ghost<Seq<Value>>,
    Ghost(i): Ghost<int>,
)
    ensures
        partly_closed(
            old(working_node_stack)@,
            old(top_level_nodes)@,
            final(working_node_stack)@,
            final(top_level_nodes)@,
        ),
        final(working_node_stack)@.len() == kept_count(
            old(working_node_stack)@,
            *current_record_level,
        ),
        in_folding(levels, old(working_node_stack)@, old(top_level_nodes)@, *current_record_level, i)
            ==> stack_ok(levels, final(working_node_stack)@, final(top_level_nodes)@, i) && parent_of(
            levels,
            i,
        ) == if final(working_node_stack)@.len() == 0 {
            None
        } else {
            Some(final(working_node_stack)@.last().node.record as int)
        },
{
    let ghost s0 = working_node_stack@;
    let ghost t0 = top_level_nodes@;
    let ghost k = kept_count(s0, *current_record_level);
    let ghost folding = in_folding(levels, s0, t0, *current_record_level, i);
    proof {
        lemma_kept_count(s0, *current_record_level);
        assert(partly_closed(s0, t0, s0, t0));
    }
    loop
        invariant
            s0 == old(working_node_stack)@,
            t0 == old(top_level_nodes)@,
            partly_closed(s0, t0, working_node_stack@, top_level_nodes@),
            k == kept_count(s0, *current_record_level),
            folding == in_folding(levels, s0, t0, *current_record_level, i),
            0 <= k <= working_node_stack@.len(),
            forall|q: int| k <= q < s0.len() ==> closes((#[trigger] s0[q]).level, *current_record_level),
            k > 0 ==> !closes(s0[k - 1].level, *current_record_level),
            folding ==> stack_ok(levels, working_node_stack@, top_level_nodes@, i) && 0 < i < levels.len()
                && *current_record_level == levels[i] && parent_of(levels, i) == if working_node_stack@.len() == 0 {
                None
            } else {
                open_ancestor(levels, working_node_stack@.last().node.record as int, i)
            },
        decreases working_node_stack@.len(),
    {
        let n = working_node_stack.len();
        if n == 0 {
            return;
        }
        let ghost s1 = working_node_stack@;
        let ghost t1 = top_level_nodes@;
        let ghost c = s1[n - 1].node.record as int;
        proof {
            if n == s0.len() {
                assert(s1 == s0);
            }
            assert(s1[n - 1].level == s0[n - 1].level);
        }
        match working_node_stack[n - 1].level.compare(current_record_level) {
            Some(Ordering::Greater) | Some(Ordering::Equal) => {
                proof {
                    assert(closes(s1[n - 1].level, *current_record_level));
                    if folding {
                        reveal(stack_ok);
                        assert(closes(levels[c], levels[i]));
                        if n >= 2 {
                            assert(parent_of(levels, c) == Some(s1[n - 2].node.record as int));
                        }
                    }
                }
                finalize_working_node(working_node_stack, top_level_nodes);
                proof {
                    lemma_partly_closed_step(s0, t0, s1, t1, working_node_stack@, top_level_nodes@);
                    if folding {
                        lemma_finalize_keeps_state(levels, s1, t1, working_node_stack@, top_level_nodes@, i);
                        if n >= 2 {
                            assert(working_node_stack@.last().node.record == s1[n - 2].node.record);
                        }
                    }
                }
            },
            _ => {
                proof {
                    assert(!closes(s1[n - 1].level, *current_record_level));
                    if folding {
                        reveal(stack_ok);
                        assert(!closes(levels[c], levels[i]));
                    }
                }
                return;
            },
        }
    }
}

/// Closes every open node, innermost first, each into the node below it; the bottom one
/// becomes the last top-level node.
fn unwind_working_stack_unconditionally(
    working_node_stack: &mut Vec<LevelNode>,
    top_level_nodes: &mut Vec<Node>,
    Ghost(levels): Ghost<Seq<Value>>,
    Ghost(i): Ghost<int>,
)
    ensures
        partly_closed(
            old(working_node_stack)@,
            old(top_level_nodes)@,
            final(working_node_stack)@,
            final(top_level_nodes)@,
        ),
        final(working_node_stack)@.len() == 0,
        stack_ok(levels, old(working_node_stack)@, old(top_level_nodes)@, i) ==> stack_ok(
            levels,
            final(working_node_stack)@,
            final(top_level_nodes)@,
            i,
        ),
{
    let ghost s0 = working_node_stack@;
    let ghost t0 = top_level_nodes@;
    let ghost ok = stack_ok(levels, s0, t0, i);
    proof {
        assert(partly_closed(s0, t0, s0, t0));
    }
    while working_node_stack.len() > 0
        invariant
            s0 == old(working_node_stack)@,
            t0 == old(top_level_nodes)@,
            partly_closed(s0, t0, working_node_stack@, top_level_nodes@),
            ok ==> stack_ok(levels, working_node_stack@, top_level_nodes@, i),
        decreases working_node_stack@.len(),
    {
        let ghost s1 = working_node_stack@;
        let ghost t1 = top_level_nodes@;
        finalize_working_node(working_node_stack, top_level_nodes);
        proof {
            lemma_partly_closed_step(s0, t0, s1, t1, working_node_stack@, top_level_nodes@);
            if ok {
                lemma_finalize_keeps_state(levels, s1, t1, working_node_stack@, top_level_nodes@, i);
            }
        }
    }
}

/// Opening the node of row `i` under its parent, the innermost open node, keeps the state.
proof fn lemma_push_leaf(
    levels: Seq<Value>,
    s0: Seq<LevelNode>,
    top: Seq<Node>,
    i: int,
    entry: LevelNode,
)
    requires
        stack_ok(levels, s0, top, i),
        0 <= i < levels.len(),
        entry.node.record == i,
        entry.node.children@.len() == 0,
        entry.level == levels[i],
        parent_of(levels, i) == if s0.len() == 0 {
            None
        } else {
            Some(s0.last().node.record as int)
        },
    ensures
        stack_ok(levels, s0.push(entry), top, i + 1),
{
    reveal(stack_ok);
    let s1 = s0.push(entry);
    assert(preorder_all(entry.node.children@) =~= Seq::<int>::empty());
    assert(preorder(entry.node) =~= seq![i]);
    lemma_stack_preorder_push(s0, entry);
    assert(rows_upto(i + 1) =~= rows_upto(i) + seq![i]);
    assert(preorder_all(top) + stack_preorder(s1) =~= rows_upto(i + 1));
    assert forall|j: int| 0 <= j < s1.len() implies (#[trigger] s1[j]).level == levels[s1[j].node.record as int]
        && wf_node(levels, s1[j].node) && s1[j].node.record < i + 1 by {
        if j < s0.len() {
            assert(s1[j] == s0[j]);
        }
    }
    assert forall|j: int| 0 < j < s1.len() implies parent_of(levels, (#[trigger] s1[j]).node.record as int) == Some(
        s1[j - 1].node.record as int,
    ) && s1[j - 1].node.record < s1[j].node.record by {
        if j < s0.len() {
            assert(s1[j] == s0[j]);
        }
        assert(s1[j - 1] == s0[j - 1]);
    }
}

/// Every row is long enough to hold a value at `k`.
pub open spec fn rows_reach(records: Seq<Vec<Value>>, k: int) -> bool {
    forall|i: int| 0 <= i < records.len() ==> k < (#[trigger] records[i])@.len()
}

/// What folding `flat_data` by the column named `level_key` gives: an empty forest for an
/// empty table; an invalid-argument error when no column has that name or a row is too short
/// to hold it; and otherwise the forest of the rows by that column.
pub open spec fn folds_to(flat_data: FlatData, level_key: Seq<char>, r: Result<FoldedData, Error>) -> bool {
    if flat_data.records@.len() == 0 || flat_data.keys@.len() == 0 {
        r matches Ok(f) && f.top_level_nodes@.len() == 0
    } else {
        match find_key(flat_data.keys@, level_key) {
            None => r matches Err(e) && e is InvalidArgument,
            Some(k) => if rows_reach(flat_data.records@, k) {
                r matches Ok(f) && is_forest_of(levels_of(flat_data.records@, k), f.top_level_nodes@)
            } else {
                r matches Err(e) && e is InvalidArgument
            },
        }
    }
}

/// Folds the flat data into a forest by the column named `level_key`, which gives each row's
/// depth: a row is a child of the nearest open row before it that it does not close.
pub fn fold<'d>(flat_data: &'d FlatData, level_key: &str) -> (r: Result<FoldedData<'d>, Error>)
    ensures
        folds_to(*flat_data, level_key@, r),
        r matches Ok(f) ==> *f.attribute_keys == flat_data.keys && *f.records == flat_data.records,
{
    if flat_data.records.len() == 0 || flat_data.keys.len() == 0 {
        return Ok(
            FoldedData {
                attribute_keys: &flat_data.keys,
                records: &flat_data.records,
                top_level_nodes: Vec::new(),
            },
        );
    }
    let level_key_index = match position_of_key(&flat_data.keys, level_key) {
        Some(k) => k,
        None => {
            return Err(Error::invalid_argument("Couldn't find level key in the flat data keys"));
        },
    };
    let ghost records = flat_data.records@;
    let ghost k = level_key_index as int;
    let ghost levels = levels_of(records, k);
    let n = flat_data.records.len();
    let mut top_level_nodes: Vec<Node> = Vec::new();
    let mut working_node_stack: Vec<LevelNode> = Vec::new();
    let mut i: usize = 0;
    proof {
        assert(preorder_all(top_level_nodes@) =~= Seq::<int>::empty());
        assert(stack_preorder(working_node_stack@) =~= Seq::<int>::empty());
        assert(rows_upto(0) =~= Seq::<int>::empty());
        reveal(stack_ok);
    }
    while i < n
        invariant
            n == records.len(),
            records == flat_data.records@,
            levels == levels_of(records, k),
            k == level_key_index,
            find_key(flat_data.keys@, level_key@) == Some(k),
            flat_data.keys@.len() > 0,
            i <= n,
            stack_ok(levels, working_node_stack@, top_level_nodes@, i as int),
            i == 0 ==> working_node_stack@.len() == 0,
            i > 0 ==> working_node_stack@.len() > 0 && working_node_stack@.last().node.record == i
                - 1,
            forall|j: int| 0 <= j < i ==> k < (#[trigger] records[j])@.len(),
        decreases n - i,
    {
        let record = &flat_data.records[i];
        if level_key_index >= record.len() {
            assert(!rows_reach(records, k)) by {
                assert(!(k < records[i as int]@.len()));
            }
            return Err(Error::invalid_argument("Record is missing its level value"));
        }
        let current_record_level = &record[level_key_index];
        if working_node_stack.len() > 0 {
            unwind_working_stack(
                &mut working_node_stack,
                &mut top_level_nodes,
                current_record_level,
                Ghost(levels),
                Ghost(i as int),
            );
        }
        let ghost s0 = working_node_stack@;
        let leaf = Node { record: i, children: Vec::new() };
        let entry = LevelNode { level: current_record_level.clone(), node: leaf };
        proof {
            lemma_push_leaf(levels, s0, top_level_nodes@, i as int, entry);
        }
        working_node_stack.push(entry);
        i = i + 1;
    }
    unwind_working_stack_unconditionally(
        &mut working_node_stack,
        &mut top_level_nodes,
        Ghost(levels),
        Ghost(n as int),
    );
    proof {
        reveal(stack_ok);
        assert(stack_preorder(working_node_stack@) =~= Seq::<int>::empty());
        assert(preorder_all(top_level_nodes@) =~= rows_upto(n as int));
    }
    Ok(
        FoldedData {
            attribute_keys: &flat_data.keys,
            records: &flat_data.records,
            top_level_nodes,
        },
    )
}

/// The depth values of the rows of a table, by the column named `level_key`, when every row
/// has one.
pub open spec fn table_levels(flat_data: FlatData, level_key: Seq<char>) -> Option<Seq<Value>> {
    match find_key(flat_data.keys@, level_key) {
        Some(k) => if rows_reach(flat_data.records@, k) {
            Some(levels_of(flat_data.records@, k))
        } else {
            None
        },
        None => None,
    }
}

/// When all levels compare equal, no row has a parent.
proof fn lemma_equal_levels_no_parent(levels: Seq<Value>, i: int)
    requires
        forall|a: int, b: int|
            0 <= a < levels.len() && 0 <= b < levels.len() ==> value_cmp(
                #[trigger] levels[a],
                #[trigger] levels[b],
            ) == Some(Ordering::Equal),
    ensures
        parent_of(levels, i) is None,
    decreases i,
{
    if 0 < i < levels.len() {
        lemma_equal_levels_no_parent(levels, i - 1);
        assert(closes(levels[i - 1], levels[i]));
    }
}

/// Nodes without children list their rows in order.
proof fn lemma_preorder_of_leaves(ns: Seq<Node>)
    requires
        forall|j: int| 0 <= j < ns.len() ==> (#[trigger] ns[j]).children@.len() == 0,
    ensures
        preorder_all(ns) == Seq::new(ns.len(), |j: int| ns[j].record as int),
    decreases ns.len(),
{
    if ns.len() > 0 {
        let t = ns.drop_last();
        assert forall|j: int| 0 <= j < t.len() implies (#[trigger] t[j]).children@.len() == 0 by {
            assert(t[j] == ns[j]);
        }
        lemma_preorder_of_leaves(t);
        assert(preorder_all(ns.last().children@) =~= Seq::<int>::empty());
        assert(preorder(ns.last()) =~= seq![ns.last().record as int]);
        assert(preorder_all(ns) =~= Seq::new(ns.len(), |j: int| ns[j].record as int));
    }
}

/// Folding rows that all share one depth value makes every row a top-level node without
/// children, in input order: nothing nests.
pub proof fn lemma_flat_single_level(
    flat_data: FlatData,
    level_key: Seq<char>,
    r: Result<FoldedData, Error>,
)
    requires
        folds_to(flat_data, level_key, r),
        table_levels(flat_data, level_key) matches Some(levels) && forall|a: int, b: int|
            0 <= a < levels.len() && 0 <= b < levels.len() ==> value_cmp(
                #[trigger] levels[a],
                #[trigger] levels[b],
            ) == Some(Ordering::Equal),
    ensures
        r matches Ok(f) && f.top_level_nodes@.len() == flat_data.records@.len() && forall|j: int|
            0 <= j < f.top_level_nodes@.len() ==> (#[trigger] f.top_level_nodes@[j]).record == j
                && f.top_level_nodes@[j].children@.len() == 0,
{
    let levels = table_levels(flat_data, level_key)->Some_0;
    let f = r->Ok_0;
    let top = f.top_level_nodes@;
    if flat_data.records@.len() == 0 || flat_data.keys@.len() == 0 {
        assert(top.len() == 0);
    } else {
        assert(is_forest_of(levels, top));
        assert forall|j: int| 0 <= j < top.len() implies (#[trigger] top[j]).children@.len() == 0 by {
            if top[j].children@.len() > 0 {
                let c = top[j].children@[0];
                assert(wf_node(levels, top[j]));
                assert(parent_of(levels, c.record as int) == Some(top[j].record as int));
                lemma_equal_levels_no_parent(levels, c.record as int);
            }
        }
        lemma_preorder_of_leaves(top);
        assert(Seq::new(top.len(), |j: int| top[j].record as int) == rows_upto(levels.len() as int));
        assert forall|j: int| 0 <= j < top.len() implies (#[trigger] top[j]).record == j by {
            assert(Seq::new(top.len(), |j: int| top[j].record as int)[j] == rows_upto(levels.len() as int)[j]);
        }
    }
}

/// When levels strictly increase, each row's parent is the row before it.
proof fn lemma_increasing_levels_parent(levels: Seq<Value>, i: int)
    requires
        0 < i < levels.len(),
        value_cmp(levels[i - 1], levels[i]) == Some(Ordering::Less),
    ensures
        parent_of(levels, i) == Some(i - 1),
{
    assert(!closes(levels[i - 1], levels[i]));
    assert(open_ancestor(levels, i - 1, i) == Some(i - 1));
}

/// Folding rows whose depth values strictly increase puts each row under the row before it:
/// the first row is the only one without a parent.
pub proof fn lemma_strict_nesting(flat_data: FlatData, level_key: Seq<char>, r: Result<FoldedData, Error>)
    requires
        folds_to(flat_data, level_key, r),
        table_levels(flat_data, level_key) matches Some(levels) && forall|i: int|
            0 < i < levels.len() ==> value_cmp(levels[i - 1], #[trigger] levels[i]) == Some(
                Ordering::Less,
            ),
    ensures
        r is Ok,
        forall|i: int|
            0 < i < flat_data.records@.len() ==> #[trigger] parent_of(
                table_levels(flat_data, level_key)->Some_0,
                i,
            ) == Some(i - 1),
        parent_of(table_levels(flat_data, level_key)->Some_0, 0) is None,
{
    let levels = table_levels(flat_data, level_key)->Some_0;
    assert(levels.len() == flat_data.records@.len());
    if !(flat_data.records@.len() == 0 || flat_data.keys@.len() == 0) {
        assert(r is Ok);
    }
    assert forall|i: int| 0 < i < flat_data.records@.len() implies #[trigger] parent_of(levels, i) == Some(i - 1) by {
        lemma_increasing_levels_parent(levels, i);
    }
}

/// What `open_ancestor` finds is at or before where it starts, and is not closed by the row.
proof fn lemma_open_ancestor_found(levels: Seq<Value>, c: int, i: int)
    requires
        open_ancestor(levels, c, i) is Some,
    ensures
        0 <= open_ancestor(levels, c, i)->Some_0 <= c,
        !closes(levels[open_ancestor(levels, c, i)->Some_0], levels[i]),
        open_ancestor(levels, c, i)->Some_0 < i < levels.len(),
    decreases c,
{
    if c >= 0 && c < i && i < levels.len() && closes(levels[c], levels[i]) {
        let p = parent_of(levels, c)->Some_0;
        lemma_open_ancestor_found(levels, p, i);
    }
}

/// After a deeper row, a row at the depth of that row's parent closes the deeper row and
/// becomes a sibling of the parent: both have the same parent.
pub proof fn lemma_sibling_reset(flat_data: FlatData, level_key: Seq<char>, i: int, a: int)
    requires
        table_levels(flat_data, level_key) matches Some(levels) && 0 < i < levels.len()
            && parent_of(levels, i - 1) == Some(a) && value_cmp(levels[i - 1], levels[i]) == Some(
            Ordering::Greater,
        ) && value_cmp(levels[a], levels[i]) == Some(Ordering::Equal),
    ensures
        parent_of(table_levels(flat_data, level_key)->Some_0, i) == parent_of(
            table_levels(flat_data, level_key)->Some_0,
            a,
        ),
{
    let levels = table_levels(flat_data, level_key)->Some_0;
    lemma_open_ancestor_found(levels, i - 2, i - 1);
    assert(closes(levels[i - 1], levels[i]));
    assert(closes(levels[a], levels[i]));
    assert(0 <= a < i - 1);
    if parent_of(levels, a) is Some {
        let p = parent_of(levels, a)->Some_0;
        lemma_open_ancestor_found(levels, a - 1, a);
        lemma_equal_substitution(levels[a], levels[i], levels[p]);
        assert(!closes(levels[p], levels[i]));
        assert(open_ancestor(levels, p, i) == Some(p));
    }
    assert(open_ancestor(levels, i - 1, i) == open_ancestor(levels, a, i));
}

/// A row that closes every row before it has no open ancestor among them.
proof fn lemma_open_ancestor_none(levels: Seq<Value>, c: int, i: int)
    requires
        forall|j: int| 0 <= j <= c && j < i ==> closes(#[trigger] levels[j], levels[i]),
    ensures
        open_ancestor(levels, c, i) is None,
    decreases c,
{
    if c >= 0 && c < i && i < levels.len() {
        match parent_of(levels, c) {
            Some(p) => if 0 <= p < c {
                lemma_open_ancestor_none(levels, p, i);
            },
            None => {},
        }
    }
}

/// A row whose depth is at or above that of every row before it starts a new top-level tree,
/// and a strictly deeper row right after it is its child: rows at the minimal depth are the
/// roots of disjoint trees, in input order.
pub proof fn lemma_multiple_roots(flat_data: FlatData, level_key: Seq<char>, i: int)
    requires
        table_levels(flat_data, level_key) matches Some(levels) && 0 <= i < levels.len() && forall|j: int|
            0 <= j < i ==> closes(#[trigger] levels[j], levels[i]),
    ensures
        parent_of(table_levels(flat_data, level_key)->Some_0, i) is None,
        i + 1 < flat_data.records@.len() && value_cmp(
            table_levels(flat_data, level_key)->Some_0[i],
            table_levels(flat_data, level_key)->Some_0[i + 1],
        ) == Some(Ordering::Less) ==> parent_of(table_levels(flat_data, level_key)->Some_0, i + 1)
            == Some(i),
{
    let levels = table_levels(flat_data, level_key)->Some_0;
    if i > 0 {
        lemma_open_ancestor_none(levels, i - 1, i);
    }
    if i + 1 < levels.len() && value_cmp(levels[i], levels[i + 1]) == Some(Ordering::Less) {
        lemma_increasing_levels_parent(levels, i + 1);
    }
}

/// Where the subtree of `ns[j]` starts in the pre-order of `ns`.
spec fn start_of(ns: Seq<Node>, j: int) -> int {
    preorder_all(ns.take(j)).len() as int
}

proof fn lemma_preorder_take(ns: Seq<Node>, k: int)
    requires
        0 <= k <= ns.len(),
    ensures
        preorder_all(ns.take(k)) == preorder_all(ns).take(preorder_all(ns.take(k)).len() as int),
        preorder_all(ns.take(k)).len() <= preorder_all(ns).len(),
    decreases ns.len() - k,
{
    if k == ns.len() {
        assert(ns.take(k) =~= ns);
        assert(preorder_all(ns).take(preorder_all(ns).len() as int) =~= preorder_all(ns));
    } else {
        lemma_preorder_take(ns, k + 1);
        assert(ns.take(k + 1).drop_last() =~= ns.take(k));
        assert(ns.take(k + 1).last() == ns[k]);
        let a = preorder_all(ns.take(k));
        let b = preorder_all(ns.take(k + 1));
        assert(b == a + preorder(ns[k]));
        assert(a =~= b.take(a.len() as int));
        assert(preorder_all(ns).take(a.len() as int) =~= preorder_all(ns).take(b.len() as int).take(
            a.len() as int,
        ));
    }
}

/// Each node's row stands where its subtree starts, and later nodes start later.
proof fn lemma_start_of(ns: Seq<Node>, j: int, k: int)
    requires
        0 <= j < k <= ns.len(),
    ensures
        start_of(ns, j) < start_of(ns, k),
        start_of(ns, j) < preorder_all(ns).len(),
        preorder_all(ns)[start_of(ns, j)] == ns[j].record,
    decreases k - j,
{
    lemma_preorder_take(ns, j + 1);
    assert(ns.take(j + 1).drop_last() =~= ns.take(j));
    assert(ns.take(j + 1).last() == ns[j]);
    let a = preorder_all(ns.take(j));
    assert(preorder_all(ns.take(j + 1)) == a + preorder(ns[j]));
    assert(preorder(ns[j])[0] == ns[j].record);
    assert(preorder_all(ns.take(j + 1))[a.len() as int] == ns[j].record);
    if k > j + 1 {
        lemma_start_of(ns, j + 1, k);
    }
}

/// The rows a, a + 1, ..., b - 1.
spec fn row_range(a: int, b: int) -> Seq<int> {
    Seq::new((b - a) as nat, |i: int| a + i)
}

/// `n` is a chain of rows `d..e`: row `d` with the chain of rows `d + 1..e` as its only child,
/// or no child when it is the last.
pub open spec fn is_chain(n: Node, d: int, e: int) -> bool
    decreases n,
{
    &&& n.record == d
    &&& d + 1 < e ==> n.children@.len() == 1 && is_chain(n.children@[0], d + 1, e)
    &&& d + 1 >= e ==> n.children@.len() == 0
}

/// Nodes whose rows, in pre-order, are `a..b`, each placed under the row before it, form at
/// most one node, a chain of those rows.
proof fn lemma_chain(levels: Seq<Value>, ns: Seq<Node>, a: int, b: int, parent: Option<int>)
    requires
        0 <= a <= b <= levels.len(),
        preorder_all(ns) == row_range(a, b),
        forall|i: int| 0 < i < levels.len() ==> #[trigger] parent_of(levels, i) == Some(i - 1),
        parent_of(levels, 0) is None,
        forall|j: int|
            0 <= j < ns.len() ==> parent_of(levels, #[trigger] ns[j].record as int) == parent && wf_node(
                levels,
                ns[j],
            ),
        parent == if a == 0 {
            None::<int>
        } else {
            Some(a - 1)
        },
    ensures
        a < b ==> ns.len() == 1 && is_chain(ns[0], a, b),
        a == b ==> ns.len() == 0,
    decreases b - a,
{
    if ns.len() > 0 {
        lemma_start_of(ns, 0, ns.len() as int);
        assert(ns.take(0) =~= Seq::<Node>::empty());
        assert(start_of(ns, 0) == 0);
        assert(ns[0].record == a);
        if ns.len() > 1 {
            lemma_start_of(ns, 0, 1);
            lemma_start_of(ns, 1, ns.len() as int);
            let r = ns[1].record as int;
            assert(row_range(a, b)[start_of(ns, 1)] == r);
            assert(0 < r < levels.len());
            assert(parent_of(levels, r) == Some(r - 1));
            assert(false);
        }
        let n = ns[0];
        assert(ns.drop_last() =~= Seq::<Node>::empty());
        assert(preorder_all(ns) == preorder_all(Seq::<Node>::empty()) + preorder(n));
        assert(preorder_all(Seq::<Node>::empty()) =~= Seq::<int>::empty());
        assert(preorder(n) == seq![a] + preorder_all(n.children@));
        assert(preorder(n) =~= row_range(a, b));
        assert(preorder_all(n.children@) =~= preorder(n).drop_first());
        assert(row_range(a, b).drop_first() =~= row_range(a + 1, b));
        assert(preorder_all(n.children@) =~= row_range(a + 1, b));
        assert forall|j: int| 0 <= j < n.children@.len() implies parent_of(
            levels,
            #[trigger] n.children@[j].record as int,
        ) == Some(a) && wf_node(levels, n.children@[j]) by {}
        lemma_chain(levels, n.children@, a + 1, b, Some(a));
    } else {
        assert(preorder_all(ns) =~= Seq::<int>::empty());
    }
}

/// Folding rows whose depth values strictly increase gives one tree, a chain: each row is
/// the only child of the row before it, and the last row has no children.
pub proof fn lemma_strict_nesting_chain(
    flat_data: FlatData,
    level_key: Seq<char>,
    r: Result<FoldedData, Error>,
)
    requires
        folds_to(flat_data, level_key, r),
        flat_data.records@.len() > 0,
        table_levels(flat_data, level_key) matches Some(levels) && forall|i: int|
            0 < i < levels.len() ==> value_cmp(levels[i - 1], #[trigger] levels[i]) == Some(
                Ordering::Less,
            ),
    ensures
        r matches Ok(f) && f.top_level_nodes@.len() == 1 && is_chain(
            f.top_level_nodes@[0],
            0,
            flat_data.records@.len() as int,
        ),
{
    lemma_strict_nesting(flat_data, level_key, r);
    let levels = table_levels(flat_data, level_key)->Some_0;
    let top = r->Ok_0.top_level_nodes@;
    assert(is_forest_of(levels, top));
    assert(row_range(0, levels.len() as int) =~= rows_upto(levels.len() as int));
    lemma_chain(levels, top, 0, levels.len() as int, None);
}

/// Row `m` lies in the subtree of row `i`: following parents up from `m` reaches `i`.
pub open spec fn is_descendant(levels: Seq<Value>, m: int, i: int) -> bool
    decreases m,
{
    match parent_of(levels, m) {
        Some(p) => p == i || (0 <= p < m && is_descendant(levels, p, i)),
        None => false,
    }
}

proof fn lemma_parent_below(levels: Seq<Value>, m: int)
    requires
        parent_of(levels, m) is Some,
    ensures
        0 <= parent_of(levels, m)->Some_0 < m,
{
    lemma_open_ancestor_found(levels, m - 1, m);
}

proof fn lemma_descendant_after(levels: Seq<Value>, m: int, i: int)
    requires
        is_descendant(levels, m, i),
    ensures
        i < m,
    decreases m,
{
    lemma_parent_below(levels, m);
    let p = parent_of(levels, m)->Some_0;
    if p != i {
        lemma_descendant_after(levels, p, i);
    }
}

/// Searching up from row `i` or a row below it, for the parent of a row `m` strictly deeper
/// than `i`, stops at `i` or below it.
proof fn lemma_search_stays_below(levels: Seq<Value>, c: int, m: int, i: int)
    requires
        c == i || is_descendant(levels, c, i),
        0 <= i <= c < m < levels.len(),
        value_cmp(levels[i], levels[m]) == Some(Ordering::Less),
    ensures
        open_ancestor(levels, c, m) matches Some(x) && (x == i || is_descendant(levels, x, i)),
    decreases c,
{
    if c != i && closes(levels[c], levels[m]) {
        lemma_parent_below(levels, c);
        let p = parent_of(levels, c)->Some_0;
        if p != i {
            lemma_descendant_after(levels, p, i);
        }
        lemma_search_stays_below(levels, p, m, i);
    }
}

/// Searching up from row `i` or a row below it, for the parent of a row `j` at `i`'s depth
/// whose rows in between are all deeper, passes `i` and ends at `i`'s parent.
proof fn lemma_search_passes(levels: Seq<Value>, c: int, j: int, i: int)
    requires
        c == i || is_descendant(levels, c, i),
        0 <= i <= c < j < levels.len(),
        value_cmp(levels[i], levels[j]) == Some(Ordering::Equal),
        forall|m: int| i < m < j ==> value_cmp(levels[i], #[trigger] levels[m]) == Some(Ordering::Less),
    ensures
        open_ancestor(levels, c, j) == parent_of(levels, i),
    decreases c,
{
    if c != i {
        lemma_descendant_after(levels, c, i);
        lemma_equal_substitution(levels[i], levels[j], levels[c]);
        lemma_antisymmetric(levels[j], levels[c]);
        lemma_antisymmetric(levels[i], levels[c]);
        assert(closes(levels[c], levels[j]));
        lemma_parent_below(levels, c);
        let p = parent_of(levels, c)->Some_0;
        if p != i {
            lemma_descendant_after(levels, p, i);
        }
        lemma_search_passes(levels, p, j, i);
    } else {
        assert(value_cmp(levels[i], levels[j]) == Some(Ordering::Equal));
        assert(closes(levels[i], levels[j]));
        match parent_of(levels, i) {
            Some(p) => {
                lemma_open_ancestor_found(levels, i - 1, i);
                lemma_equal_substitution(levels[i], levels[j], levels[p]);
                assert(open_ancestor(levels, p, j) == Some(p));
            },
            None => {},
        }
    }
}

/// A row `j` at the depth of an earlier row `i`, with only strictly deeper rows between them,
/// is the next sibling of `i`: the rows between lie in `i`'s subtree, and `j` has `i`'s parent
/// (both are top-level when `i` has none).
pub proof fn lemma_next_sibling(flat_data: FlatData, level_key: Seq<char>, i: int, j: int)
    requires
        table_levels(flat_data, level_key) matches Some(levels) && 0 <= i < j < levels.len()
            && value_cmp(levels[i], levels[j]) == Some(Ordering::Equal) && forall|m: int|
            i < m < j ==> value_cmp(levels[i], #[trigger] levels[m]) == Some(Ordering::Less),
    ensures
        forall|m: int|
            i < m < j ==> is_descendant(table_levels(flat_data, level_key)->Some_0, m, i),
        parent_of(table_levels(flat_data, level_key)->Some_0, j) == parent_of(
            table_levels(flat_data, level_key)->Some_0,
            i,
        ),
{
    let levels = table_levels(flat_data, level_key)->Some_0;
    assert forall|m: int| i < m < j implies is_descendant(levels, m, i) by {
        lemma_rows_between(levels, i, j, m);
    }
    if j - 1 > i {
        lemma_rows_between(levels, i, j, j - 1);
    }
    lemma_search_passes(levels, j - 1, j, i);
}

proof fn lemma_rows_between(levels: Seq<Value>, i: int, j: int, m: int)
    requires
        0 <= i < m < j < levels.len(),
        forall|q: int| i < q < j ==> value_cmp(levels[i], #[trigger] levels[q]) == Some(Ordering::Less),
    ensures
        is_descendant(levels, m, i),
    decreases m,
{
    if m - 1 > i {
        lemma_rows_between(levels, i, j, m - 1);
    }
    lemma_search_stays_below(levels, m - 1, m, i);
    assert(parent_of(levels, m) == open_ancestor(levels, m - 1, m));
    lemma_parent_below(levels, m);
}

} // verus!
