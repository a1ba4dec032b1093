//! The document tree the crawler owns and rewrites: an arena of nodes
//! addressed by index. Every child (and template-fragment) index is strictly
//! greater than its parent's, which both rules out sharing cycles and gives
//! traversals an obvious termination measure. Traversal order is pre-order,
//! left to right, with a `<template>` element's fragment visited after its
//! ordinary children.

use vstd::prelude::*;

verus! {

/// One attribute of an element: a name/value pair.
pub struct Attr {
    pub name: String,
    pub value: String,
}

/// What a node is: an element with a tag name and attributes, a text node, a
/// comment, or anything else (document root, doctype, processing
/// instruction), which the crawler never inspects.
pub enum TreeData {
    Element { name: String, attrs: Vec<Attr> },
    Text { text: String },
    Comment { text: String },
    Other,
}

/// A node of the arena: its data, the indices of its children in document
/// order, and, for `<template>` elements, the index of the fragment root.
pub struct TreeNode {
    pub data: TreeData,
    pub children: Vec<usize>,
    pub template_contents: Option<usize>,
}

/// A document tree as an index arena.
pub struct Tree {
    pub nodes: Vec<TreeNode>,
}

impl Tree {
    /// The indices a traversal descends into from node `i`: the children in
    /// order, then the template fragment, if any.
    pub open spec fn child_list(&self, i: int) -> Seq<usize> {
        self.nodes[i].children@ + (match self.nodes[i].template_contents {
            Some(f) => seq![f],
            None => Seq::empty(),
        })
    }

    /// TreeNode `i` only points forward, and within the arena.
    pub open spec fn wf_at(&self, i: int) -> bool {
        forall|j: int|
            0 <= j < self.child_list(i).len() ==> i < #[trigger] self.child_list(i)[j]
                < self.nodes.len()
    }

    /// A well-formed arena: nonempty, every node pointing forward.
    pub open spec fn wf(&self) -> bool {
        self.nodes.len() > 0 && forall|i: int| 0 <= i < self.nodes.len() ==> self.wf_at(i)
    }
}

/// All indices of `l` lie strictly between `lo` and the arena's size.
pub open spec fn list_ok(t: &Tree, lo: usize, l: Seq<usize>) -> bool {
    forall|j: int| 0 <= j < l.len() ==> lo < #[trigger] l[j] < t.nodes.len()
}

/// The pre-order traversal sequence of the subtree rooted at `i`.
pub open spec fn pre_node(t: &Tree, i: usize) -> Seq<usize>
    decreases t.nodes.len() - i, 1int, 0int,
        when t.wf() && i < t.nodes.len()
{
    seq![i] + pre_list(t, i, t.child_list(i as int))
}

/// The concatenated pre-order sequences of the subtrees rooted at `l`, all of
/// which lie beyond `lo`.
pub open spec fn pre_list(t: &Tree, lo: usize, l: Seq<usize>) -> Seq<usize>
    decreases t.nodes.len() - lo, 0int, l.len(),
        when t.wf() && lo < t.nodes.len() && list_ok(t, lo, l)
{
    if l.len() == 0 {
        Seq::empty()
    } else {
        pre_node(t, l[0]) + pre_list(t, lo, l.drop_first())
    }
}

pub proof fn lemma_pre_node_bounds(t: &Tree, i: usize)
    requires
        t.wf(),
        i < t.nodes.len(),
    ensures
        forall|k: int|
            0 <= k < pre_node(t, i).len() ==> i <= #[trigger] pre_node(t, i)[k] < t.nodes.len(),
    decreases t.nodes.len() - i, 1int, 0int,
{
    assert(t.wf_at(i as int));
    let cl = t.child_list(i as int);
    assert(list_ok(t, i, cl));
    lemma_pre_list_bounds(t, i, cl);
    assert forall|k: int| 0 <= k < pre_node(t, i).len() implies i <= #[trigger] pre_node(t, i)[k]
        < t.nodes.len() by {
        if k == 0 {
            assert(pre_node(t, i)[0] == i);
        } else {
            assert(pre_node(t, i)[k] == pre_list(t, i, cl)[k - 1]);
        }
    }
}

pub proof fn lemma_pre_list_bounds(t: &Tree, lo: usize, l: Seq<usize>)
    requires
        t.wf(),
        lo < t.nodes.len(),
        list_ok(t, lo, l),
    ensures
        forall|k: int|
            0 <= k < pre_list(t, lo, l).len() ==> lo < #[trigger] pre_list(t, lo, l)[k]
                < t.nodes.len(),
    decreases t.nodes.len() - lo, 0int, l.len(),
{
    if l.len() > 0 {
        assert(lo < l[0] < t.nodes.len());
        lemma_pre_node_bounds(t, l[0]);
        assert(list_ok(t, lo, l.drop_first()));
        lemma_pre_list_bounds(t, lo, l.drop_first());
        let head = pre_node(t, l[0]);
        let rest = pre_list(t, lo, l.drop_first());
        assert forall|k: int| 0 <= k < pre_list(t, lo, l).len() implies lo < #[trigger] pre_list(
            t,
            lo,
            l,
        )[k] < t.nodes.len() by {
            if k < head.len() {
                assert(pre_list(t, lo, l)[k] == head[k]);
            } else {
                assert(pre_list(t, lo, l)[k] == rest[k - head.len()]);
            }
        }
    }
}

/// Appending one root to a list appends its whole subtree sequence.
pub proof fn lemma_pre_list_snoc(t: &Tree, lo: usize, l: Seq<usize>, x: usize)
    requires
        t.wf(),
        lo < t.nodes.len(),
        list_ok(t, lo, l),
        lo < x < t.nodes.len(),
    ensures
        pre_list(t, lo, l.push(x)) == pre_list(t, lo, l) + pre_node(t, x),
    decreases l.len(),
{
    assert(list_ok(t, lo, l.push(x)));
    if l.len() == 0 {
        assert(l.push(x)[0] == x);
        assert(l.push(x).drop_first() =~= l);
        assert(pre_list(t, lo, l.push(x)) == pre_node(t, x) + pre_list(t, lo, l));
        assert(pre_node(t, x) + Seq::<usize>::empty() =~= pre_node(t, x));
        assert(Seq::<usize>::empty() + pre_node(t, x) =~= pre_node(t, x));
    } else {
        assert(l.push(x)[0] == l[0]);
        assert(l.push(x).drop_first() =~= l.drop_first().push(x));
        lemma_pre_list_snoc(t, lo, l.drop_first(), x);
        assert(pre_list(t, lo, l.push(x)) == pre_node(t, l[0]) + (pre_list(t, lo, l.drop_first())
            + pre_node(t, x)));
        assert(pre_node(t, l[0]) + (pre_list(t, lo, l.drop_first()) + pre_node(t, x)) =~= (pre_node(
            t,
            l[0],
        ) + pre_list(t, lo, l.drop_first())) + pre_node(t, x));
    }
}

fn push_pre_order(t: &Tree, i: usize, out: &mut Vec<usize>)
    requires
        t.wf(),
        i < t.nodes.len(),
    ensures
        final(out)@ == old(out)@ + pre_node(t, i),
    decreases t.nodes.len() - i,
{
    out.push(i);
    let ghost cl = t.child_list(i as int);
    let mut k: usize = 0;
    let n = t.nodes[i].children.len();
    proof {
        assert(t.wf_at(i as int));
        assert(cl.take(0) =~= Seq::<usize>::empty());
        assert(out@ =~= old(out)@ + seq![i] + pre_list(t, i, cl.take(0)));
    }
    while k < n
        invariant
            t.wf(),
            i < t.nodes.len(),
            k <= n,
            n == t.nodes[i as int].children@.len(),
            cl == t.child_list(i as int),
            out@ == old(out)@ + seq![i] + pre_list(t, i, cl.take(k as int)),
        decreases n - k,
    {
        let c = t.nodes[i].children[k];
        proof {
            assert(t.wf_at(i as int));
            assert(cl[k as int] == c);
            assert(i < c < t.nodes.len());
            assert(list_ok(t, i, cl.take(k as int)));
            lemma_pre_list_snoc(t, i, cl.take(k as int), c);
            assert(cl.take(k as int).push(c) =~= cl.take(k + 1));
        }
        push_pre_order(t, c, out);
        proof {
            assert(out@ =~= old(out)@ + seq![i] + pre_list(t, i, cl.take(k + 1)));
        }
        k += 1;
    }
    if let Some(f) = t.nodes[i].template_contents {
        proof {
            assert(t.wf_at(i as int));
            assert(cl[cl.len() - 1] == f);
            assert(i < f < t.nodes.len());
            assert(list_ok(t, i, cl.take(n as int)));
            lemma_pre_list_snoc(t, i, cl.take(n as int), f);
            assert(cl.take(n as int).push(f) =~= cl);
        }
        push_pre_order(t, f, out);
        proof {
            assert(out@ =~= old(out)@ + pre_node(t, i));
        }
    } else {
        proof {
            assert(cl.take(n as int) =~= cl);
            assert(out@ =~= old(out)@ + pre_node(t, i));
        }
    }
}

/// The pre-order traversal of the subtree rooted at `root`, as an index list.
pub fn collect_order(t: &Tree, root: usize) -> (r: Vec<usize>)
    requires
        t.wf(),
        root < t.nodes.len(),
    ensures
        r@ == pre_node(t, root),
{
    let mut out: Vec<usize> = Vec::new();
    push_pre_order(t, root, &mut out);
    proof {
        assert(Seq::<usize>::empty() + pre_node(t, root) =~= pre_node(t, root));
    }
    out
}

} // verus!
