//! Prefix tree indexing functions by their lower-cased name.

use std::sync::Arc;
use vstd::prelude::*;
use crate::function::Function;
use crate::text::lemma_encode_utf8_append;
use vstd::utf8::*;

verus! {

broadcast use vstd::utf8::group_utf8_lib;

/// A node of the prefix tree: one child per next character, and the function
/// stored under the path that leads here, if any.
pub struct TrieNode {
    pub children: Vec<(char, TrieNode)>,
    pub value: Option<Arc<Function>>,
}

/// Index of the first child reached by character `c`, searching from `i`; -1 when none.
pub open spec fn child_from(cs: Seq<(char, TrieNode)>, c: char, i: int) -> int
    decreases cs.len() - i,
{
    if i < 0 || i >= cs.len() {
        -1
    } else if cs[i].0 == c {
        i
    } else {
        child_from(cs, c, i + 1)
    }
}

pub open spec fn child_index(n: TrieNode, c: char) -> int {
    child_from(n.children@, c, 0)
}

/// The node reached from `n` by following the characters of `p`.
pub open spec fn node_at(n: TrieNode, p: Seq<char>) -> Option<TrieNode>
    decreases p.len(),
{
    if p.len() == 0 {
        Some(n)
    } else {
        let j = child_index(n, p[0]);
        if 0 <= j < n.children@.len() {
            node_at(n.children@[j].1, p.drop_first())
        } else {
            None
        }
    }
}

/// The function stored under key `p`.
pub open spec fn lookup(n: TrieNode, p: Seq<char>) -> Option<Arc<Function>> {
    match node_at(n, p) {
        Some(m) => m.value,
        None => None,
    }
}

/// A node holds something: a function or at least one child.
pub open spec fn has_content(n: TrieNode) -> bool {
    n.value is Some || n.children@.len() > 0
}

/// Children are reached by distinct characters.
pub open spec fn distinct_children(n: TrieNode) -> bool {
    forall|i: int, j: int|
        0 <= i < j < n.children@.len() ==> (#[trigger] n.children@[i]).0 != (
        #[trigger] n.children@[j]).0
}

/// Every node below `n` has distinct child characters, and every node other
/// than `n` itself holds something.
pub open spec fn wf(n: TrieNode) -> bool {
    forall|p: Seq<char>| good_node(#[trigger] node_at(n, p), p.len() > 0)
}

/// A reached node has distinct child characters and, unless it is the root,
/// holds something.
pub open spec fn good_node(r: Option<TrieNode>, below_root: bool) -> bool {
    match r {
        Some(m) => distinct_children(m) && (below_root ==> has_content(m)),
        None => true,
    }
}

pub proof fn lemma_child_from(cs: Seq<(char, TrieNode)>, c: char, i: int)
    requires
        0 <= i,
    ensures
        child_from(cs, c, i) == -1 || (i <= child_from(cs, c, i) < cs.len() && cs[child_from(
            cs,
            c,
            i,
        )].0 == c),
        child_from(cs, c, i) == -1 ==> forall|j: int| i <= j < cs.len() ==> (#[trigger] cs[j]).0 != c,
        child_from(cs, c, i) >= 0 ==> forall|j: int| i <= j < child_from(cs, c, i) ==> (#[trigger] cs[j]).0 != c,
    decreases cs.len() - i,
{
    if i < cs.len() && cs[i].0 != c {
        lemma_child_from(cs, c, i + 1);
    }
}

/// With distinct characters, the child reached by `c` is the one whose character is `c`.
pub proof fn lemma_child_index_unique(n: TrieNode, c: char, j: int)
    requires
        distinct_children(n),
        0 <= j < n.children@.len(),
        n.children@[j].0 == c,
    ensures
        child_index(n, c) == j,
{
    lemma_child_from(n.children@, c, 0);
    let k = child_index(n, c);
    if k != j {
        if k < j {
            assert(n.children@[k].0 != n.children@[j].0);
        } else {
            assert(n.children@[j].0 != c);
        }
    }
}

pub proof fn lemma_child_index_absent(n: TrieNode, c: char)
    requires
        forall|j: int| 0 <= j < n.children@.len() ==> (#[trigger] n.children@[j]).0 != c,
    ensures
        child_index(n, c) == -1,
{
    lemma_child_from(n.children@, c, 0);
}

/// A well-formed node without content stores nothing.
pub proof fn lemma_empty_node(n: TrieNode, p: Seq<char>)
    requires
        !has_content(n),
    ensures
        lookup(n, p) is None,
{
    if p.len() > 0 {
        lemma_child_from(n.children@, p[0], 0);
    }
}

/// Following `p` then `q` is following `p + q`.
pub proof fn lemma_node_at_append(n: TrieNode, p: Seq<char>, q: Seq<char>)
    ensures
        node_at(n, p + q) == match node_at(n, p) {
            Some(m) => node_at(m, q),
            None => None,
        },
    decreases p.len(),
{
    if p.len() == 0 {
        assert(p + q =~= q);
    } else {
        assert((p + q)[0] == p[0]);
        assert((p + q).drop_first() =~= p.drop_first() + q);
        let j = child_index(n, p[0]);
        if 0 <= j < n.children@.len() {
            lemma_node_at_append(n.children@[j].1, p.drop_first(), q);
        }
    }
}

pub proof fn lemma_wf_child(n: TrieNode, x: int)
    requires
        wf(n),
        0 <= x < n.children@.len(),
    ensures
        wf(n.children@[x].1),
        has_content(n.children@[x].1),
{
    assert(node_at(n, Seq::<char>::empty()) == Some(n));
    assert(good_node(node_at(n, Seq::<char>::empty()), false));
    let c = n.children@[x].0;
    let m = n.children@[x].1;
    lemma_child_index_unique(n, c, x);
    assert forall|q: Seq<char>| good_node(#[trigger] node_at(m, q), q.len() > 0) by {
        let p = seq![c] + q;
        assert(p.drop_first() =~= q);
        assert(node_at(n, p) == node_at(m, q));
        assert(good_node(node_at(n, p), p.len() > 0));
    }
    let p1 = seq![c];
    assert(p1.drop_first() =~= Seq::<char>::empty());
    assert(p1[0] == c);
    assert(node_at(m, p1.drop_first()) == Some(m));
    assert(node_at(n, p1) == Some(m));
    assert(good_node(node_at(n, p1), true));
}

pub proof fn lemma_wf_children(n: TrieNode)
    requires
        wf(n),
    ensures
        distinct_children(n),
        forall|x: int| 0 <= x < n.children@.len() ==> #[trigger] wf(n.children@[x].1),
        forall|x: int| 0 <= x < n.children@.len() ==> #[trigger] has_content(n.children@[x].1),
{
    assert(node_at(n, Seq::<char>::empty()) == Some(n));
    assert(good_node(node_at(n, Seq::<char>::empty()), false));
    assert forall|x: int| 0 <= x < n.children@.len() implies #[trigger] wf(n.children@[x].1) by {
        lemma_wf_child(n, x);
    }
    assert forall|x: int| 0 <= x < n.children@.len() implies #[trigger] has_content(n.children@[x].1) by {
        lemma_wf_child(n, x);
    }
}

/// A node is well formed when its children have distinct characters and are
/// well formed and hold something.
pub proof fn lemma_wf_compose(n: TrieNode)
    requires
        distinct_children(n),
        forall|x: int| 0 <= x < n.children@.len() ==> #[trigger] wf(n.children@[x].1),
        forall|x: int| 0 <= x < n.children@.len() ==> #[trigger] has_content(n.children@[x].1),
    ensures
        wf(n),
{
    assert forall|p: Seq<char>| good_node(#[trigger] node_at(n, p), p.len() > 0) by {
        if p.len() > 0 {
            let j = child_index(n, p[0]);
            lemma_child_from(n.children@, p[0], 0);
            if 0 <= j < n.children@.len() {
                let ch = n.children@[j].1;
                assert(wf(ch));
                assert(node_at(n, p) == node_at(ch, p.drop_first()));
                assert(good_node(node_at(ch, p.drop_first()), p.drop_first().len() > 0));
                if p.drop_first().len() == 0 {
                    assert(node_at(ch, p.drop_first()) == Some(ch));
                }
            }
        }
    }
}

impl TrieNode {
    pub fn new() -> (r: TrieNode)
        ensures
            r.children@.len() == 0,
            r.value is None,
            wf(r),
    {
        TrieNode { children: Vec::new(), value: None }
    }
}

fn find_child(n: &TrieNode, c: char) -> (r: Option<usize>)
    ensures
        match r {
            Some(j) => child_index(*n, c) == j as int && j < n.children@.len(),
            None => child_index(*n, c) == -1,
        },
{
    let mut i: usize = 0;
    while i < n.children.len()
        invariant
            i <= n.children@.len(),
            child_index(*n, c) == child_from(n.children@, c, i as int),
        decreases n.children@.len() - i,
    {
        if n.children[i].0 == c {
            return Some(i);
        }
        i = i + 1;
    }
    None
}

/// Stores `func` under `key[k..]` below `node`; reports whether that key was new.
fn insert_rec(node: &mut TrieNode, key: &Vec<char>, k: usize, func: Arc<Function>) -> (added: bool)
    requires
        wf(*old(node)),
        k <= key@.len(),
    ensures
        wf(*final(node)),
        has_content(*final(node)),
        forall|p: Seq<char>|
            #[trigger] lookup(*final(node), p) == if p == key@.skip(k as int) {
                Some(func)
            } else {
                lookup(*old(node), p)
            },
        added == (lookup(*old(node), key@.skip(k as int)) is None),
    decreases key@.len() - k,
{
    let ghost before = *node;
    proof {
        lemma_wf_children(before);
    }
    if k == key.len() {
        let added = node.value.is_none();
        node.value = Some(func);
        proof {
            assert(key@.skip(k as int) =~= Seq::<char>::empty());
            assert forall|p: Seq<char>|
                #[trigger] lookup(*node, p) == if p == key@.skip(k as int) {
                    Some(func)
                } else {
                    lookup(before, p)
                } by {
                if p.len() > 0 {
                    assert(node.children@ == before.children@);
                    assert(node_at(*node, p) == node_at(before, p));
                } else {
                    assert(p =~= key@.skip(k as int));
                }
            }
            assert(wf(*node)) by {
                assert(node.children@ == before.children@);
                lemma_wf_compose(*node);
            }
        }
        return added;
    }
    let c = key[k];
    let ghost rest = key@.skip(k + 1);
    let ghost whole = key@.skip(k as int);
    assert(whole =~= seq![c] + rest);
    assert(whole[0] == c);
    assert(whole.drop_first() =~= rest);
    match find_child(node, c) {
        Some(j) => {
            let (cc, mut child) = node.children.remove(j);
            let ghost old_child = child;
            proof {
                lemma_child_from(before.children@, c, 0);
                assert(before.children@[j as int] == (cc, old_child));
                assert(wf(old_child));
            }
            let added = insert_rec(&mut child, key, k + 1, func);
            node.children.insert(j, (cc, child));
            proof {
                assert(node.children@ =~= before.children@.update(j as int, (cc, child)));
                assert(wf(*node)) by {
                    assert forall|x: int| 0 <= x < node.children@.len() implies #[trigger] wf(node.children@[x].1) && has_content(node.children@[x].1) by {
                        if x != j {
                            assert(node.children@[x] == before.children@[x]);
                        }
                    }
                    assert forall|x: int, y: int| 0 <= x < y < node.children@.len() implies (#[trigger] node.children@[x]).0 != (#[trigger] node.children@[y]).0 by {
                        assert(before.children@[x].0 != before.children@[y].0);
                    }
                    lemma_wf_compose(*node);
                }
                lemma_child_index_unique(*node, c, j as int);
                assert(node_at(*node, key@.skip(k as int)) == node_at(child, rest));
                assert(node_at(before, key@.skip(k as int)) == node_at(old_child, rest));
                assert forall|p: Seq<char>|
                    #[trigger] lookup(*node, p) == if p == key@.skip(k as int) {
                        Some(func)
                    } else {
                        lookup(before, p)
                    } by {
                    if p.len() > 0 {
                        let d = p[0];
                        if d == c {
                            assert(p =~= seq![c] + p.drop_first());
                            assert(lookup(child, p.drop_first()) == if p.drop_first() == rest { Some(func) } else { lookup(old_child, p.drop_first()) });
                            if p.drop_first() == rest {
                                assert(p == key@.skip(k as int));
                            }
                        } else {
                            lemma_child_from(before.children@, d, 0);
                            let jj = child_index(before, d);
                            if jj >= 0 {
                                lemma_child_index_unique(*node, d, jj);
                                assert(node.children@[jj] == before.children@[jj]);
                            } else {
                                assert forall|x: int| 0 <= x < node.children@.len() implies (#[trigger] node.children@[x]).0 != d by {
                                    if x != j {
                                        assert(node.children@[x] == before.children@[x]);
                                    }
                                }
                                lemma_child_index_absent(*node, d);
                            }
                            assert(p != key@.skip(k as int));
                        }
                    } else {
                        assert(p != key@.skip(k as int));
                    }
                }
            }
            added
        },
        None => {
            let mut child = TrieNode::new();
            let ghost old_child = child;
            let added = insert_rec(&mut child, key, k + 1, func);
            node.children.push((c, child));
            proof {
                lemma_child_from(before.children@, c, 0);
                let nn = before.children@.len() as int;
                assert(node.children@ =~= before.children@.push((c, child)));
                assert(wf(*node)) by {
                    assert forall|x: int| 0 <= x < node.children@.len() implies #[trigger] wf(node.children@[x].1) && has_content(node.children@[x].1) by {
                        if x != nn {
                            assert(node.children@[x] == before.children@[x]);
                        }
                    }
                    assert forall|x: int, y: int| 0 <= x < y < node.children@.len() implies (#[trigger] node.children@[x]).0 != (#[trigger] node.children@[y]).0 by {
                        if y < nn {
                            assert(before.children@[x].0 != before.children@[y].0);
                        } else {
                            assert(before.children@[x].0 != c);
                        }
                    }
                    lemma_wf_compose(*node);
                }
                lemma_child_index_unique(*node, c, nn);
                assert(node_at(*node, key@.skip(k as int)) == node_at(child, rest));
                lemma_empty_node(old_child, rest);
                assert forall|p: Seq<char>|
                    #[trigger] lookup(*node, p) == if p == key@.skip(k as int) {
                        Some(func)
                    } else {
                        lookup(before, p)
                    } by {
                    if p.len() > 0 {
                        let d = p[0];
                        if d == c {
                            assert(p =~= seq![c] + p.drop_first());
                            lemma_empty_node(old_child, p.drop_first());
                            assert(node_at(*node, p) == node_at(child, p.drop_first()));
                            assert(lookup(*node, p) == lookup(child, p.drop_first()));
                            assert(lookup(before, p) is None);
                            if p.drop_first() == rest {
                                assert(p == key@.skip(k as int));
                            } else {
                                assert(p != key@.skip(k as int));
                            }
                        } else {
                            lemma_child_from(before.children@, d, 0);
                            let jj = child_index(before, d);
                            if jj >= 0 {
                                lemma_child_index_unique(*node, d, jj);
                                assert(node.children@[jj] == before.children@[jj]);
                            } else {
                                assert forall|x: int| 0 <= x < node.children@.len() implies (#[trigger] node.children@[x]).0 != d by {
                                    if x != nn {
                                        assert(node.children@[x] == before.children@[x]);
                                    }
                                }
                                lemma_child_index_absent(*node, d);
                            }
                            assert(p != key@.skip(k as int));
                        }
                    } else {
                        assert(p != key@.skip(k as int));
                    }
                }
            }
            added
        },
    }
}

/// Removes the function stored under `key[k..]` below `node`. Returns whether
/// the node is left without content (so its parent drops it) and whether a
/// function was removed.
fn remove_rec(node: &mut TrieNode, key: &Vec<char>, k: usize) -> (r: (bool, bool))
    requires
        wf(*old(node)),
        k <= key@.len(),
    ensures
        wf(*final(node)),
        r.0 == (has_content(*old(node)) && !has_content(*final(node))),
        forall|p: Seq<char>|
            #[trigger] lookup(*final(node), p) == if p == key@.skip(k as int) {
                None
            } else {
                lookup(*old(node), p)
            },
        r.1 == (lookup(*old(node), key@.skip(k as int)) is Some),
    decreases key@.len() - k,
{
    let ghost before = *node;
    proof {
        lemma_wf_children(before);
    }
    if k == key.len() {
        proof {
            assert(key@.skip(k as int) =~= Seq::<char>::empty());
        }
        if node.value.is_some() {
            node.value = None;
            proof {
                assert(node.children@ == before.children@);
                lemma_wf_compose(*node);
                assert forall|p: Seq<char>|
                    #[trigger] lookup(*node, p) == if p == key@.skip(k as int) {
                        None
                    } else {
                        lookup(before, p)
                    } by {
                    if p.len() > 0 {
                        assert(node_at(*node, p) == node_at(before, p));
                    } else {
                        assert(p =~= key@.skip(k as int));
                    }
                }
            }
            return (node.children.len() == 0, true);
        }
        proof {
            assert forall|p: Seq<char>|
                #[trigger] lookup(*node, p) == if p == key@.skip(k as int) {
                    None
                } else {
                    lookup(before, p)
                } by {
                if p.len() == 0 {
                    assert(p =~= key@.skip(k as int));
                }
            }
        }
        return (false, false);
    }
    let c = key[k];
    let ghost rest = key@.skip(k + 1);
    let ghost whole = key@.skip(k as int);
    assert(whole =~= seq![c] + rest);
    assert(whole[0] == c);
    assert(whole.drop_first() =~= rest);
    match find_child(node, c) {
        None => {
            proof {
                assert forall|p: Seq<char>|
                    #[trigger] lookup(*node, p) == if p == key@.skip(k as int) {
                        None
                    } else {
                        lookup(before, p)
                    } by {
                }
            }
            (false, false)
        },
        Some(j) => {
            proof {
                lemma_child_from(before.children@, c, 0);
            }
            let (cc, mut child) = node.children.remove(j);
            let ghost old_child = child;
            assert(before.children@[j as int] == (cc, old_child));
            let (prune, removed) = remove_rec(&mut child, key, k + 1);
            assert(node_at(before, whole) == node_at(old_child, rest));
            if prune {
                proof {
                    assert(node.children@ =~= before.children@.remove(j as int));
                    assert forall|x: int, y: int| 0 <= x < y < node.children@.len() implies (#[trigger] node.children@[x]).0 != (#[trigger] node.children@[y]).0 by {
                        let xx = if x < j { x } else { x + 1 };
                        let yy = if y < j { y } else { y + 1 };
                        assert(node.children@[x] == before.children@[xx]);
                        assert(node.children@[y] == before.children@[yy]);
                        assert(before.children@[xx].0 != before.children@[yy].0);
                    }
                    assert forall|x: int| 0 <= x < node.children@.len() implies #[trigger] wf(node.children@[x].1) && has_content(node.children@[x].1) by {
                        let xx = if x < j { x } else { x + 1 };
                        assert(node.children@[x] == before.children@[xx]);
                    }
                    lemma_wf_compose(*node);
                    assert forall|p: Seq<char>|
                        #[trigger] lookup(*node, p) == if p == key@.skip(k as int) {
                            None
                        } else {
                            lookup(before, p)
                        } by {
                        if p.len() > 0 {
                            let d = p[0];
                            if d == c {
                                assert forall|x: int| 0 <= x < node.children@.len() implies (#[trigger] node.children@[x]).0 != d by {
                                    let xx = if x < j { x } else { x + 1 };
                                    assert(node.children@[x] == before.children@[xx]);
                                    assert(before.children@[xx].0 != before.children@[j as int].0);
                                }
                                lemma_child_index_absent(*node, d);
                                lemma_child_index_unique(before, c, j as int);
                                lemma_empty_node(child, p.drop_first());
                                assert(lookup(before, p) == lookup(old_child, p.drop_first()));
                                if p.drop_first() == rest {
                                    assert(p == key@.skip(k as int));
                                } else {
                                    assert(p != key@.skip(k as int));
                                }
                            } else {
                                let jj = child_index(before, d);
                                lemma_child_from(before.children@, d, 0);
                                if jj >= 0 {
                                    let xx = if jj < j { jj } else { jj - 1 };
                                    assert(jj != j);
                                    assert(node.children@[xx] == before.children@[jj]);
                                    lemma_child_index_unique(*node, d, xx);
                                } else {
                                    assert forall|x: int| 0 <= x < node.children@.len() implies (#[trigger] node.children@[x]).0 != d by {
                                        let xx = if x < j { x } else { x + 1 };
                                        assert(node.children@[x] == before.children@[xx]);
                                    }
                                    lemma_child_index_absent(*node, d);
                                }
                                assert(p != key@.skip(k as int));
                            }
                        } else {
                            assert(p != key@.skip(k as int));
                        }
                    }
                }
                (node.value.is_none() && node.children.len() == 0, removed)
            } else {
                node.children.insert(j, (cc, child));
                proof {
                    assert(node.children@ =~= before.children@.update(j as int, (cc, child)));
                    assert forall|x: int| 0 <= x < node.children@.len() implies #[trigger] wf(node.children@[x].1) && has_content(node.children@[x].1) by {
                        if x != j {
                            assert(node.children@[x] == before.children@[x]);
                        }
                    }
                    assert forall|x: int, y: int| 0 <= x < y < node.children@.len() implies (#[trigger] node.children@[x]).0 != (#[trigger] node.children@[y]).0 by {
                        assert(before.children@[x].0 != before.children@[y].0);
                    }
                    lemma_wf_compose(*node);
                    lemma_child_index_unique(*node, c, j as int);
                    assert forall|p: Seq<char>|
                        #[trigger] lookup(*node, p) == if p == key@.skip(k as int) {
                            None
                        } else {
                            lookup(before, p)
                        } by {
                        if p.len() > 0 {
                            let d = p[0];
                            if d == c {
                                assert(p =~= seq![c] + p.drop_first());
                                assert(lookup(child, p.drop_first()) == if p.drop_first() == rest { None } else { lookup(old_child, p.drop_first()) });
                                if p.drop_first() == rest {
                                    assert(p == key@.skip(k as int));
                                } else {
                                    assert(p != key@.skip(k as int));
                                }
                            } else {
                                lemma_child_from(before.children@, d, 0);
                                let jj = child_index(before, d);
                                if jj >= 0 {
                                    lemma_child_index_unique(*node, d, jj);
                                    assert(node.children@[jj] == before.children@[jj]);
                                } else {
                                    assert forall|x: int| 0 <= x < node.children@.len() implies (#[trigger] node.children@[x]).0 != d by {
                                        if x != j {
                                            assert(node.children@[x] == before.children@[x]);
                                        }
                                    }
                                    lemma_child_index_absent(*node, d);
                                }
                                assert(p != key@.skip(k as int));
                            }
                        } else {
                            assert(p != key@.skip(k as int));
                        }
                    }
                }
                (false, removed)
            }
        },
    }
}

/// Calls `Arc::clone`, which makes another pointer to the same value.
#[verifier::external_body]
pub(crate) fn share<T>(a: &Arc<T>) -> (r: Arc<T>)
    ensures
        r == *a,
{
    Arc::clone(a)
}

/// The function stored under `p` reached by walking from `node`, if any.
fn get_rec(node: &TrieNode, key: &Vec<char>, k: usize) -> (r: Option<Arc<Function>>)
    requires
        k <= key@.len(),
    ensures
        r == lookup(*node, key@.skip(k as int)),
    decreases key@.len() - k,
{
    if k == key.len() {
        assert(key@.skip(k as int) =~= Seq::<char>::empty());
        return match &node.value {
            Some(f) => Some(share(f)),
            None => None,
        };
    }
    let c = key[k];
    let ghost whole = key@.skip(k as int);
    assert(whole[0] == c);
    assert(whole.drop_first() =~= key@.skip(k + 1));
    match find_child(node, c) {
        Some(j) => get_rec(&node.children[j].1, key, k + 1),
        None => None,
    }
}

/// The characters of a string, in order.
pub fn chars_of(s: &str) -> (r: Vec<char>)
    ensures
        r@ == s@,
{
    let idx = crate::chars::char_indices(s);
    let mut out: Vec<char> = Vec::new();
    let mut i: usize = 0;
    while i < idx.len()
        invariant
            idx@.len() == s@.len(),
            forall|k: int| 0 <= k < idx@.len() ==> (#[trigger] idx@[k]).1 == s@[k],
            i <= idx@.len(),
            out@ =~= s@.take(i as int),
        decreases idx@.len() - i,
    {
        out.push(idx[i].1);
        i = i + 1;
    }
    assert(s@.take(s@.len() as int) =~= s@);
    out
}

/// Prefix tree for efficient lookup of ForgeScript functions by their name.
pub struct FunctionTrie {
    root: TrieNode,
    size: usize,
    keys: Ghost<Set<Seq<char>>>,
}

impl FunctionTrie {
    #[verifier::type_invariant]
    spec fn inv(self) -> bool {
        &&& wf(self.root)
        &&& self.keys@.finite()
        &&& forall|p: Seq<char>| self.keys@.contains(p) <==> (#[trigger] lookup(self.root, p)) is Some
        &&& self.size == self.keys@.len()
    }

    /// The functions by lower-cased name.
    pub closed spec fn view(&self) -> Map<Seq<char>, Arc<Function>> {
        Map::new(|p: Seq<char>| lookup(self.root, p) is Some, |p: Seq<char>| lookup(self.root, p).unwrap())
    }

    pub fn new() -> (r: FunctionTrie)
        ensures
            r.view() == Map::<Seq<char>, Arc<Function>>::empty(),
    {
        let r = FunctionTrie { root: TrieNode::new(), size: 0, keys: Ghost(Set::empty()) };
        proof {
            assert forall|p: Seq<char>| #[trigger] lookup(r.root, p) is None by {
                lemma_empty_node(r.root, p);
            }
            assert(r.view() =~= Map::<Seq<char>, Arc<Function>>::empty());
        }
        r
    }

    /// Inserts a function index by name (case-insensitive).
    pub fn insert(&mut self, key: &str, func: Arc<Function>)
        requires
            old(self).view().dom().len() < usize::MAX,
        ensures
            final(self).view() == old(self).view().insert(lowercase_key(key@), func),
            final(self).view().dom().finite(),
    {
        proof {
            use_type_invariant(&*self);
        }
        let lower = crate::text::to_lowercase(key);
        let chars = chars_of(lower.as_str());
        let mut tmp = FunctionTrie::new();
        std::mem::swap(self, &mut tmp);
        let ghost old_view = tmp.view();
        proof {
            use_type_invariant(&tmp);
            assert(old_view.dom() =~= tmp.keys@);
        }
        let FunctionTrie { mut root, size, keys } = tmp;
        let ghost old_root = root;
        let added = insert_rec(&mut root, &chars, 0, func);
        assert(chars@.skip(0) =~= chars@);
        let new_size = if added { size + 1 } else { size };
        let ghost new_keys = keys@.insert(chars@);
        proof {
            assert forall|p: Seq<char>| new_keys.contains(p) <==> (#[trigger] lookup(root, p)) is Some by {
                if p != chars@ {
                    assert(keys@.contains(p) <==> lookup(old_root, p) is Some);
                }
            }
            if !added {
                assert(keys@.contains(chars@));
                assert(new_keys =~= keys@);
            }
        }
        *self = FunctionTrie { root, size: new_size, keys: Ghost(new_keys) };
        proof {
            assert(self.view() =~= old_view.insert(lowercase_key(key@), func));
            assert(self.view().dom() =~= new_keys);
        }
    }

    /// Removes a function index by name.
    pub fn remove(&mut self, key: &str)
        ensures
            final(self).view() == old(self).view().remove(lowercase_key(key@)),
            final(self).view().dom().finite(),
    {
        proof {
            use_type_invariant(&*self);
        }
        let lower = crate::text::to_lowercase(key);
        let chars = chars_of(lower.as_str());
        let mut tmp = FunctionTrie::new();
        std::mem::swap(self, &mut tmp);
        let ghost old_view = tmp.view();
        proof {
            use_type_invariant(&tmp);
        }
        let FunctionTrie { mut root, size, keys } = tmp;
        let ghost old_root = root;
        let (_, removed) = remove_rec(&mut root, &chars, 0);
        assert(chars@.skip(0) =~= chars@);
        let ghost new_keys = keys@.remove(chars@);
        let new_size = if removed { size - 1 } else { size };
        proof {
            assert forall|p: Seq<char>| new_keys.contains(p) <==> (#[trigger] lookup(root, p)) is Some by {
                if p != chars@ {
                    assert(keys@.contains(p) <==> lookup(old_root, p) is Some);
                }
            }
            if !removed {
                assert(new_keys =~= keys@);
            } else {
                assert(keys@.contains(chars@));
            }
        }
        *self = FunctionTrie { root, size: new_size, keys: Ghost(new_keys) };
        proof {
            assert(self.view() =~= old_view.remove(lowercase_key(key@)));
            assert(self.view().dom() =~= new_keys);
        }
    }

    /// Performs an exact, case-insensitive match for a function name.
    pub fn get_exact(&self, text: &str) -> (r: Option<Arc<Function>>)
        ensures
            r == (if self.view().contains_key(lowercase_key(text@)) {
                Some(self.view()[lowercase_key(text@)])
            } else {
                None
            }),
    {
        let lower = crate::text::to_lowercase(text);
        let chars = chars_of(lower.as_str());
        let r = get_rec(&self.root, &chars, 0);
        assert(chars@.skip(0) =~= chars@);
        r
    }

    /// Returns the number of functions indexed.
    pub fn len(&self) -> (r: usize)
        ensures
            r == self.view().dom().len(),
            self.view().dom().finite(),
    {
        proof {
            use_type_invariant(self);
            assert(self.view().dom() =~= self.keys@);
        }
        self.size
    }
}

/// Keys are stored as `str::to_lowercase` of the given name.
pub open spec fn lowercase_key(name: Seq<char>) -> Seq<char> {
    crate::text::lowercase(name)
}

// ---------------------------------------------------------------------------
// Lookup of a name inside a longer text
// ---------------------------------------------------------------------------

/// A key of `m` occurs in `t` at `s` with `l >= 1` characters.
pub open spec fn is_match(m: Map<Seq<char>, Arc<Function>>, t: Seq<char>, s: int, l: int) -> bool {
    l >= 1 && 0 <= s && s + l <= t.len() && m.contains_key(t.subrange(s, s + l))
}

/// Length of the longest key occurring at `s` with at most `upto` characters; 0 if none.
pub open spec fn longest_at(m: Map<Seq<char>, Arc<Function>>, t: Seq<char>, s: int, upto: int) -> int
    decreases upto,
{
    if upto < 1 {
        0
    } else if is_match(m, t, s, upto) {
        upto
    } else {
        longest_at(m, t, s, upto - 1)
    }
}

/// Among the starts before `upto`, the one where the longest key occurs; of
/// starts with equally long keys, the first; -1 if no key occurs.
pub open spec fn best_start(m: Map<Seq<char>, Arc<Function>>, t: Seq<char>, upto: int) -> int
    decreases upto,
{
    if upto <= 0 {
        -1
    } else {
        let p = best_start(m, t, upto - 1);
        let here = longest_at(m, t, upto - 1, t.len() - (upto - 1));
        if here > 0 && (p < 0 || here > longest_at(m, t, p, t.len() - p)) {
            upto - 1
        } else {
            p
        }
    }
}

/// The longest occurrence of a key in the text, the first of equally long ones.
pub open spec fn spec_find_in(m: Map<Seq<char>, Arc<Function>>, t: Seq<char>) -> Option<(int, int)> {
    let s = best_start(m, t, t.len() as int);
    if s < 0 {
        None
    } else {
        Some((s, longest_at(m, t, s, t.len() - s)))
    }
}

/// An empty index matches nothing in any text.
pub proof fn lemma_empty_index_no_match(m: Map<Seq<char>, Arc<Function>>, t: Seq<char>)
    requires
        m == Map::<Seq<char>, Arc<Function>>::empty(),
    ensures
        spec_trie_get(m, t) is None,
{
    assert forall|s: int, u: int| #[trigger] longest_at(m, t, s, u) == 0 by {
        lemma_longest_at_bounds(m, t, s, u);
    }
    lemma_empty_best_start(m, t, t.len() as int);
}

proof fn lemma_empty_best_start(m: Map<Seq<char>, Arc<Function>>, t: Seq<char>, u: int)
    requires
        forall|s: int, v: int| #[trigger] longest_at(m, t, s, v) == 0,
    ensures
        best_start(m, t, u) < 0,
    decreases u,
{
    if u > 0 {
        lemma_empty_best_start(m, t, u - 1);
    }
}

/// The matched key and its function, for `FunctionTrie::get`.
pub open spec fn spec_trie_get(m: Map<Seq<char>, Arc<Function>>, t: Seq<char>) -> Option<(Seq<char>, Arc<Function>)> {
    match spec_find_in(m, t) {
        Some((s, l)) => Some((t.subrange(s, s + l), m[t.subrange(s, s + l)])),
        None => None,
    }
}

pub proof fn lemma_longest_at_bounds(m: Map<Seq<char>, Arc<Function>>, t: Seq<char>, s: int, upto: int)
    ensures
        0 <= longest_at(m, t, s, upto),
        upto >= 0 ==> longest_at(m, t, s, upto) <= upto,
        longest_at(m, t, s, upto) > 0 ==> is_match(m, t, s, longest_at(m, t, s, upto)),
    decreases upto,
{
    if upto >= 1 && !is_match(m, t, s, upto) {
        lemma_longest_at_bounds(m, t, s, upto - 1);
    }
}

/// Without matches between `a` and `b`, the longest match up to `b` is the one up to `a`.
pub proof fn lemma_longest_at_stable(m: Map<Seq<char>, Arc<Function>>, t: Seq<char>, s: int, a: int, b: int)
    requires
        0 <= a <= b,
        forall|l: int| a < l <= b ==> !is_match(m, t, s, l),
    ensures
        longest_at(m, t, s, b) == longest_at(m, t, s, a),
    decreases b - a,
{
    if b > a {
        lemma_longest_at_stable(m, t, s, a, b - 1);
    }
}

pub proof fn lemma_best_start_bounds(m: Map<Seq<char>, Arc<Function>>, t: Seq<char>, upto: int)
    requires
        upto >= 0,
    ensures
        best_start(m, t, upto) < upto,
        best_start(m, t, upto) >= -1,
        best_start(m, t, upto) >= 0 ==> longest_at(m, t, best_start(m, t, upto), t.len() - best_start(m, t, upto)) > 0,
    decreases upto,
{
    if upto > 0 {
        lemma_best_start_bounds(m, t, upto - 1);
    }
}

/// Decoding the bytes of characters `s..e` gives those characters.
pub proof fn lemma_encoded_slice(cs: Seq<char>, s: int, e: int)
    requires
        0 <= s <= e <= cs.len(),
    ensures
        crate::chars::byte_offset(cs, s) <= crate::chars::byte_offset(cs, e),
        vstd::utf8::encode_utf8(cs).subrange(
            crate::chars::byte_offset(cs, s),
            crate::chars::byte_offset(cs, e),
        ) == vstd::utf8::encode_utf8(cs.subrange(s, e)),
        vstd::utf8::decode_utf8(vstd::utf8::encode_utf8(cs).subrange(
            crate::chars::byte_offset(cs, s),
            crate::chars::byte_offset(cs, e),
        )) == cs.subrange(s, e),
{
    assert(cs =~= cs.take(s) + cs.subrange(s, e) + cs.skip(e));
    assert(cs.take(e) =~= cs.take(s) + cs.subrange(s, e));
    lemma_encode_utf8_append(cs.take(s) + cs.subrange(s, e), cs.skip(e));
    lemma_encode_utf8_append(cs.take(s), cs.subrange(s, e));
    let a = encode_utf8(cs.take(s));
    let b = encode_utf8(cs.subrange(s, e));
    let c = encode_utf8(cs.skip(e));
    assert(encode_utf8(cs) =~= a + b + c);
    assert((a + b + c).subrange(a.len() as int, (a.len() + b.len()) as int) =~= b);
    encode_utf8_decode_utf8(cs.subrange(s, e));
}

impl FunctionTrie {
    /// Finds the function whose name occurs in the text: the longest name
    /// that occurs anywhere in it, the first of equally long ones
    /// (case-insensitive), with the matched lower-cased text.
    pub fn get(&self, text: &str) -> (r: Option<(String, Arc<Function>)>)
        ensures
            match r {
                Some((k, f)) => spec_trie_get(self.view(), lowercase_key(text@)) == Some((k@, f)),
                None => spec_trie_get(self.view(), lowercase_key(text@)) is None,
            },
    {
        proof {
            use_type_invariant(self);
        }
        let ghost m = self.view();
        let lower = crate::text::to_lowercase(text);
        let ghost t = lower@;
        let idx = crate::chars::char_indices(lower.as_str());
        let chars = chars_of(lower.as_str());
        let n = chars.len();
        let mut best: Option<(usize, usize, Arc<Function>)> = None;
        let mut s: usize = 0;
        while s < n
            invariant
                chars@ == t,
                n == t.len(),
                m == self.view(),
                wf(self.root),
                s <= n,
                best_matches(m, t, best, best_start(m, t, s as int)),
            decreases n - s,
        {
            let mut node: &TrieNode = &self.root;
            let mut l: usize = 0;
            let mut cur: Option<(usize, Arc<Function>)> = None;
            proof {
                assert(t.subrange(s as int, s as int) =~= Seq::<char>::empty());
                lemma_best_start_bounds(m, t, s as int);
            }
            while s + l < n
                invariant_except_break
                    cur_at(m, t, cur, s as int, l as int),
                invariant
                    chars@ == t,
                    n == t.len(),
                    m == self.view(),
                    s < n,
                    s + l <= n,
                    node_at(self.root, t.subrange(s as int, s + l)) == Some(*node),
                ensures
                    cur_at(m, t, cur, s as int, l as int),
                    forall|ll: int| l < ll <= n - s ==> !is_match(m, t, s as int, ll),
                decreases n - s - l,
            {
                let c = chars[s + l];
                let ghost p = t.subrange(s as int, s + l);
                let ghost p1 = t.subrange(s as int, s + l + 1);
                proof {
                    assert(p1 =~= p + seq![c]);
                    lemma_node_at_append(self.root, p, seq![c]);
                    assert(seq![c].drop_first() =~= Seq::<char>::empty());
                }
                let ghost old_node = *node;
                match find_child(node, c) {
                    Some(j) => {
                        node = &node.children[j].1;
                        proof {
                            assert(node_at(*node, seq![c].drop_first()) == Some(*node));
                            assert(node_at(old_node, seq![c]) == Some(*node));
                        }
                        l = l + 1;
                        proof {
                            assert(node_at(self.root, p1) == Some(*node));
                        }
                        match &node.value {
                            Some(v) => {
                                cur = Some((l, share(v)));
                                proof {
                                    assert(is_match(m, t, s as int, l as int));
                                }
                            },
                            None => {
                                proof {
                                    assert(!is_match(m, t, s as int, l as int));
                                }
                            },
                        }
                    },
                    None => {
                        proof {
                            assert(node_at(self.root, p1) is None);
                            assert forall|ll: int| l < ll <= n - s implies !is_match(m, t, s as int, ll) by {
                                let q = t.subrange(s as int, s + ll);
                                assert(q =~= p1 + t.subrange(s + l + 1, s + ll));
                                lemma_node_at_append(self.root, p1, t.subrange(s + l + 1, s + ll));
                            }
                        }
                        break;
                    },
                }
            }
            proof {
                lemma_longest_at_stable(m, t, s as int, l as int, n - s);
                lemma_longest_at_bounds(m, t, s as int, l as int);
            }
            match cur {
                Some((cl, f)) => {
                    let longer = match &best {
                        Some((_, bl, _)) => cl > *bl,
                        None => true,
                    };
                    if longer {
                        best = Some((s, cl, f));
                    }
                },
                None => {},
            }
            s = s + 1;
        }
        match best {
            Some((bs, bl, f)) => {
                proof {
                    lemma_best_start_bounds(m, t, n as int);
                    lemma_longest_at_bounds(m, t, bs as int, n - bs);
                    lemma_encoded_slice(t, bs as int, bs + bl);
                    crate::chars::lemma_byte_offset_bound(t, (bs + bl) as int);
                    assert(t.take(t.len() as int) =~= t);
                }
                let start = idx[bs].0;
                let end = if bs + bl < n {
                    idx[bs + bl].0
                } else {
                    lower.as_str().as_bytes().len()
                };
                proof {
                    crate::chars::lemma_byte_at_char(t, bs as int);
                    if bs + bl < n {
                        crate::chars::lemma_byte_at_char(t, (bs + bl) as int);
                    } else {
                        vstd::utf8::is_char_boundary_start_end_of_seq(vstd::utf8::encode_utf8(t));
                    }
                    crate::chars::lemma_byte_offset_bound(t, bs as int);
                }
                let key = crate::text::substr(lower.as_str(), start, end);
                Some((key.to_owned(), f))
            },
            None => None,
        }
    }
}

/// `best` records the last match among starts before the current one.
pub open spec fn best_matches(
    m: Map<Seq<char>, Arc<Function>>,
    t: Seq<char>,
    best: Option<(usize, usize, Arc<Function>)>,
    ls: int,
) -> bool {
    if ls < 0 {
        best is None
    } else {
        best matches Some((bs, bl, f)) && bs == ls && bl == longest_at(m, t, ls, t.len() - ls)
            && f == m[t.subrange(ls, ls + bl)]
    }
}

/// `cur` records the longest match at start `s` with at most `l` characters.
pub open spec fn cur_at(m: Map<Seq<char>, Arc<Function>>, t: Seq<char>, cur: Option<(usize, Arc<Function>)>, s: int, l: int) -> bool {
    if longest_at(m, t, s, l) > 0 {
        cur matches Some((cl, f)) && cl == longest_at(m, t, s, l) && f == m[t.subrange(s, s + cl)]
    } else {
        cur is None
    }
}

// ---------------------------------------------------------------------------
// Listing
// ---------------------------------------------------------------------------

/// The stored functions, depth first: a node's own function, then those of
/// its children in order.
pub open spec fn values_of(n: TrieNode) -> Seq<Arc<Function>>
    decreases n, 0int,
{
    let own = match n.value {
        Some(f) => seq![f],
        None => Seq::empty(),
    };
    own + values_from(n.children@, 0)
}

/// The functions stored below the children `cs[i..]`.
pub open spec fn values_from(cs: Seq<(char, TrieNode)>, i: int) -> Seq<Arc<Function>>
    decreases cs, cs.len() - i,
{
    if i < 0 || i >= cs.len() {
        Seq::empty()
    } else {
        values_of(cs[i].1) + values_from(cs, i + 1)
    }
}

/// The keys of the stored functions, in the order `values_of` lists the
/// functions.
pub open spec fn keys_of(n: TrieNode) -> Seq<Seq<char>>
    decreases n, 0int,
{
    let own = if n.value is Some {
        seq![Seq::<char>::empty()]
    } else {
        Seq::empty()
    };
    own + keys_from(n.children@, 0)
}

/// The keys of the functions stored below the children `cs[i..]`.
pub open spec fn keys_from(cs: Seq<(char, TrieNode)>, i: int) -> Seq<Seq<char>>
    decreases cs, cs.len() - i,
{
    if i < 0 || i >= cs.len() {
        Seq::empty()
    } else {
        keys_of(cs[i].1).map_values(|q: Seq<char>| seq![cs[i].0] + q) + keys_from(cs, i + 1)
    }
}

/// `r` lists the functions of `m` once per key, along the keys `ks`: each key
/// once, and the function stored under it in the same place.
pub open spec fn lists_once(r: Seq<Arc<Function>>, m: Map<Seq<char>, Arc<Function>>, ks: Seq<Seq<char>>) -> bool {
    &&& ks.no_duplicates()
    &&& ks.len() == r.len()
    &&& forall|p: Seq<char>| m.contains_key(p) <==> ks.contains(p)
    &&& forall|k: int| 0 <= k < ks.len() ==> m[#[trigger] ks[k]] == r[k]
}

/// The listed keys hold the listed functions, each key once, and every
/// stored key is listed.
pub proof fn lemma_keys_of(n: TrieNode)
    requires
        wf(n),
    ensures
        keys_of(n).len() == values_of(n).len(),
        forall|k: int| 0 <= k < keys_of(n).len() ==> lookup(n, #[trigger] keys_of(n)[k]) == Some(values_of(n)[k]),
        keys_of(n).no_duplicates(),
        forall|p: Seq<char>| #[trigger] lookup(n, p) is Some ==> keys_of(n).contains(p),
    decreases n, n.children@.len() + 1,
{
    lemma_wf_children(n);
    lemma_keys_from(n, 0);
    let own = if n.value is Some {
        seq![Seq::<char>::empty()]
    } else {
        Seq::<Seq<char>>::empty()
    };
    let vown = match n.value {
        Some(f) => seq![f],
        None => Seq::<Arc<Function>>::empty(),
    };
    let ks = keys_from(n.children@, 0);
    let vs = values_from(n.children@, 0);
    assert(keys_of(n) == own + ks);
    assert(values_of(n) == vown + vs);
    assert(node_at(n, Seq::<char>::empty()) == Some(n));
    assert forall|k: int| 0 <= k < keys_of(n).len() implies lookup(n, #[trigger] keys_of(n)[k]) == Some(values_of(n)[k]) by {
        if k >= own.len() {
            assert(keys_of(n)[k] == ks[k - own.len()]);
            assert(values_of(n)[k] == vs[k - own.len()]);
        }
    }
    assert forall|x: int, y: int| 0 <= x < keys_of(n).len() && 0 <= y < keys_of(n).len() && x != y implies keys_of(n)[x]
        != keys_of(n)[y] by {
        if x >= own.len() && y >= own.len() {
            assert(keys_of(n)[x] == ks[x - own.len()]);
            assert(keys_of(n)[y] == ks[y - own.len()]);
        } else if x >= own.len() {
            assert(keys_of(n)[x] == ks[x - own.len()]);
            assert(ks[x - own.len()].len() > 0);
        } else if y >= own.len() {
            assert(keys_of(n)[y] == ks[y - own.len()]);
            assert(ks[y - own.len()].len() > 0);
        }
    }
    assert forall|p: Seq<char>| #[trigger] lookup(n, p) is Some implies keys_of(n).contains(p) by {
        if p.len() == 0 {
            assert(p =~= Seq::<char>::empty());
            assert(keys_of(n)[0] == p);
        } else {
            let j = child_index(n, p[0]);
            lemma_child_from(n.children@, p[0], 0);
            assert(0 <= j);
            assert(ks.contains(p));
            let k = choose|k: int| 0 <= k < ks.len() && ks[k] == p;
            assert(keys_of(n)[own.len() + k] == p);
        }
    }
}

/// The keys listed below children `i..` hold the functions listed there,
/// each once; each starts with one of those children's characters; and
/// every stored key that does is listed.
pub proof fn lemma_keys_from(n: TrieNode, i: int)
    requires
        wf(n),
        0 <= i <= n.children@.len(),
    ensures
        keys_from(n.children@, i).len() == values_from(n.children@, i).len(),
        forall|k: int|
            0 <= k < keys_from(n.children@, i).len() ==> lookup(n, #[trigger] keys_from(n.children@, i)[k]) == Some(
                values_from(n.children@, i)[k],
            ),
        forall|k: int|
            0 <= k < keys_from(n.children@, i).len() ==> (#[trigger] keys_from(n.children@, i)[k]).len() > 0 && i
                <= child_index(n, keys_from(n.children@, i)[k][0]),
        keys_from(n.children@, i).no_duplicates(),
        forall|p: Seq<char>|
            p.len() > 0 && i <= child_index(n, p[0]) && (#[trigger] lookup(n, p)) is Some ==> keys_from(
                n.children@,
                i,
            ).contains(p),
    decreases n, n.children@.len() - i,
{
    lemma_wf_children(n);
    let cs = n.children@;
    if i < cs.len() {
        let c = cs[i].0;
        let m = cs[i].1;
        lemma_keys_of(m);
        lemma_keys_from(n, i + 1);
        lemma_child_index_unique(n, c, i);
        let km = keys_of(m);
        let a = km.map_values(|q: Seq<char>| seq![c] + q);
        let bk = keys_from(cs, i + 1);
        let ks = keys_from(cs, i);
        assert(ks == a + bk);
        assert(values_from(cs, i) == values_of(m) + values_from(cs, i + 1));
        assert forall|k: int| 0 <= k < a.len() implies (#[trigger] a[k]).len() > 0 && a[k][0] == c && a[k].drop_first()
            == km[k] by {
            assert(a[k] == seq![c] + km[k]);
            assert(a[k].drop_first() =~= km[k]);
        }
        assert forall|k: int| 0 <= k < ks.len() implies lookup(n, #[trigger] ks[k]) == Some(values_from(cs, i)[k]) by {
            if k < a.len() {
                assert(ks[k] == a[k]);
                assert(lookup(n, a[k]) == lookup(m, km[k]));
                assert(values_from(cs, i)[k] == values_of(m)[k]);
            } else {
                assert(ks[k] == bk[k - a.len()]);
                assert(values_from(cs, i)[k] == values_from(cs, i + 1)[k - a.len()]);
            }
        }
        assert forall|k: int| 0 <= k < ks.len() implies (#[trigger] ks[k]).len() > 0 && i <= child_index(n, ks[k][0]) by {
            if k < a.len() {
                assert(ks[k] == a[k]);
            } else {
                assert(ks[k] == bk[k - a.len()]);
            }
        }
        assert forall|x: int, y: int| 0 <= x < ks.len() && 0 <= y < ks.len() && x != y implies ks[x] != ks[y] by {
            if x < a.len() && y < a.len() {
                assert(ks[x] == a[x] && ks[y] == a[y]);
                if a[x] == a[y] {
                    assert(a[x].drop_first() == a[y].drop_first());
                }
            } else if x < a.len() {
                assert(ks[x] == a[x] && ks[y] == bk[y - a.len()]);
                assert(child_index(n, bk[y - a.len()][0]) >= i + 1);
            } else if y < a.len() {
                assert(ks[y] == a[y] && ks[x] == bk[x - a.len()]);
                assert(child_index(n, bk[x - a.len()][0]) >= i + 1);
            } else {
                assert(ks[x] == bk[x - a.len()] && ks[y] == bk[y - a.len()]);
            }
        }
        assert forall|p: Seq<char>| p.len() > 0 && i <= child_index(n, p[0]) && (#[trigger] lookup(n, p)) is Some implies ks.contains(
            p,
        ) by {
            lemma_child_from(cs, p[0], 0);
            if child_index(n, p[0]) == i {
                let q = p.drop_first();
                assert(lookup(n, p) == lookup(m, q));
                assert(km.contains(q));
                let k = choose|k: int| 0 <= k < km.len() && km[k] == q;
                assert(a[k] == seq![c] + q);
                assert(a[k] =~= p);
                assert(ks[k] == p);
            } else {
                assert(bk.contains(p));
                let k = choose|k: int| 0 <= k < bk.len() && bk[k] == p;
                assert(ks[a.len() + k] == p);
            }
        }
    } else {
        assert(keys_from(cs, i) =~= Seq::<Seq<char>>::empty());
        assert forall|p: Seq<char>| p.len() > 0 && i <= child_index(n, p[0]) && (#[trigger] lookup(n, p)) is Some implies keys_from(
            cs,
            i,
        ).contains(p) by {
            lemma_child_from(cs, p[0], 0);
        }
    }
}

fn collect_rec(node: &TrieNode, out: &mut Vec<Arc<Function>>)
    ensures
        final(out)@ == old(out)@ + values_of(*node),
    decreases node,
{
    let ghost base = out@;
    match &node.value {
        Some(f) => {
            out.push(share(f));
        },
        None => {},
    }
    let ghost own: Seq<Arc<Function>> = if node.value is Some {
        seq![node.value->0]
    } else {
        Seq::empty()
    };
    assert(out@ =~= base + own);
    let mut i: usize = 0;
    while i < node.children.len()
        invariant
            i <= node.children@.len(),
            out@ + values_from(node.children@, i as int) =~= base + values_of(*node),
        decreases node.children@.len() - i,
    {
        let ghost before = out@;
        collect_rec(&node.children[i].1, out);
        assert(values_from(node.children@, i as int) == values_of(node.children@[i as int].1) + values_from(node.children@, i + 1));
        i = i + 1;
    }
    assert(values_from(node.children@, i as int) =~= Seq::<Arc<Function>>::empty());
}

/// A function is listed exactly when it is stored under some key.
pub proof fn lemma_values_of(n: TrieNode, v: Arc<Function>)
    requires
        wf(n),
    ensures
        values_of(n).contains(v) <==> exists|p: Seq<char>| #[trigger] lookup(n, p) == Some(v),
    decreases n, n.children@.len() + 1,
{
    lemma_wf_children(n);
    lemma_values_from(n, 0, v);
    let own = match n.value {
        Some(f) => seq![f],
        None => Seq::<Arc<Function>>::empty(),
    };
    assert(values_of(n) == own + values_from(n.children@, 0));
    if values_of(n).contains(v) {
        let k = choose|k: int| 0 <= k < values_of(n).len() && values_of(n)[k] == v;
        if k < own.len() {
            assert(lookup(n, Seq::<char>::empty()) == Some(v));
        } else {
            assert(values_from(n.children@, 0)[k - own.len()] == v);
            assert(values_from(n.children@, 0).contains(v));
        }
    }
    if exists|p: Seq<char>| #[trigger] lookup(n, p) == Some(v) {
        let p = choose|p: Seq<char>| #[trigger] lookup(n, p) == Some(v);
        if p.len() == 0 {
            assert(values_of(n)[0] == v);
        } else {
            let j = child_index(n, p[0]);
            lemma_child_from(n.children@, p[0], 0);
            assert(lookup(n, p) == lookup(n.children@[j].1, p.drop_first()));
            assert(values_from(n.children@, 0).contains(v));
            let k = choose|k: int| 0 <= k < values_from(n.children@, 0).len() && values_from(n.children@, 0)[k] == v;
            assert(values_of(n)[own.len() + k] == v);
        }
    }
}

/// The functions below children `i..` are those stored under keys that
/// start with one of those children's characters.
pub proof fn lemma_values_from(n: TrieNode, i: int, v: Arc<Function>)
    requires
        wf(n),
        0 <= i <= n.children@.len(),
    ensures
        values_from(n.children@, i).contains(v) <==> exists|p: Seq<char>|
            p.len() > 0 && i <= child_index(n, p[0]) && #[trigger] lookup(n, p) == Some(v),
    decreases n, n.children@.len() - i,
{
    lemma_wf_children(n);
    let cs = n.children@;
    if i < cs.len() {
        let c = cs[i].0;
        let m = cs[i].1;
        lemma_values_of(m, v);
        lemma_values_from(n, i + 1, v);
        lemma_child_index_unique(n, c, i);
        assert(values_from(cs, i) == values_of(m) + values_from(cs, i + 1));
        if values_from(cs, i).contains(v) {
            let k = choose|k: int| 0 <= k < values_from(cs, i).len() && values_from(cs, i)[k] == v;
            if k < values_of(m).len() {
                assert(values_of(m)[k] == v);
                assert(values_of(m).contains(v));
                let q = choose|q: Seq<char>| #[trigger] lookup(m, q) == Some(v);
                let p = seq![c] + q;
                assert(p[0] == c);
                assert(p.drop_first() =~= q);
                assert(lookup(n, p) == lookup(m, q));
            } else {
                assert(values_from(cs, i + 1)[k - values_of(m).len()] == v);
                assert(values_from(cs, i + 1).contains(v));
            }
        }
        if exists|p: Seq<char>| p.len() > 0 && i <= child_index(n, p[0]) && #[trigger] lookup(n, p) == Some(v) {
            let p = choose|p: Seq<char>| p.len() > 0 && i <= child_index(n, p[0]) && #[trigger] lookup(n, p) == Some(v);
            lemma_child_from(cs, p[0], 0);
            if child_index(n, p[0]) == i {
                assert(lookup(n, p) == lookup(m, p.drop_first()));
                assert(values_of(m).contains(v));
                let k = choose|k: int| 0 <= k < values_of(m).len() && values_of(m)[k] == v;
                assert(values_from(cs, i)[k] == v);
            } else {
                let rest = values_from(cs, i + 1);
                assert(rest.contains(v));
                let k = choose|k: int| 0 <= k < rest.len() && rest[k] == v;
                assert(values_from(cs, i)[values_of(m).len() + k] == v);
            }
        }
    } else {
        if exists|p: Seq<char>| p.len() > 0 && i <= child_index(n, p[0]) && #[trigger] lookup(n, p) == Some(v) {
            let p = choose|p: Seq<char>| p.len() > 0 && i <= child_index(n, p[0]) && #[trigger] lookup(n, p) == Some(v);
            lemma_child_from(cs, p[0], 0);
        }
    }
}

impl FunctionTrie {
    /// The functions in the order the trie lists them: depth first, a
    /// node's own function before those below it, children in order.
    pub closed spec fn listing(&self) -> Seq<Arc<Function>> {
        values_of(self.root)
    }

    /// Returns all functions stored in the trie, once per key under which
    /// each is stored, in the order of `listing`.
    pub fn collect_all(&self) -> (r: Vec<Arc<Function>>)
        ensures
            r@ == self.listing(),
            forall|f: Arc<Function>| r@.contains(f) <==> exists|k: Seq<char>| #[trigger] self.view().contains_key(k) && self.view()[k] == f,
            exists|ks: Seq<Seq<char>>| lists_once(r@, self.view(), ks),
    {
        proof {
            use_type_invariant(self);
        }
        let mut out: Vec<Arc<Function>> = Vec::new();
        collect_rec(&self.root, &mut out);
        proof {
            assert(out@ =~= values_of(self.root));
            assert forall|f: Arc<Function>| out@.contains(f) <==> exists|k: Seq<char>| #[trigger] self.view().contains_key(k) && self.view()[k] == f by {
                lemma_values_of(self.root, f);
                if out@.contains(f) {
                    let p = choose|p: Seq<char>| #[trigger] lookup(self.root, p) == Some(f);
                    assert(self.view().contains_key(p));
                }
                if exists|k: Seq<char>| #[trigger] self.view().contains_key(k) && self.view()[k] == f {
                    let k = choose|k: Seq<char>| #[trigger] self.view().contains_key(k) && self.view()[k] == f;
                    assert(lookup(self.root, k) == Some(f));
                }
            }
            lemma_keys_of(self.root);
            let ks = keys_of(self.root);
            assert forall|p: Seq<char>| self.view().contains_key(p) <==> ks.contains(p) by {
                if ks.contains(p) {
                    let k = choose|k: int| 0 <= k < ks.len() && ks[k] == p;
                    assert(lookup(self.root, ks[k]) is Some);
                }
                if self.view().contains_key(p) {
                    assert(lookup(self.root, p) is Some);
                }
            }
            assert forall|k: int| 0 <= k < ks.len() implies self.view()[#[trigger] ks[k]] == out@[k] by {
                assert(lookup(self.root, ks[k]) == Some(values_of(self.root)[k]));
            }
            assert(lists_once(out@, self.view(), ks));
        }
        out
    }
}

} // verus!
