//! A document tree: nodes in an arena, each with its parent and its children.
use vstd::prelude::*;
use crate::node::Node;

verus! {

/// A document: `nodes[i]` is node `i`, `parents[i]` its parent and `children[i]`
/// its children in document order. Node 0 is the root. A node is always stored
/// after its parent, so walking up from any node ends at the root.
#[derive(Clone, Debug)]
pub struct Document {
    pub nodes: Vec<Node>,
    pub parents: Vec<Option<usize>>,
    pub children: Vec<Vec<usize>>,
}

impl Document {
    pub open spec fn len(&self) -> nat {
        self.nodes@.len()
    }

    pub open spec fn is_element(&self, i: int) -> bool {
        0 <= i < self.nodes@.len() && self.nodes@[i] is Element
    }

    /// The tree is well formed.
    pub open spec fn wf(&self) -> bool {
        let n = self.nodes@.len();
        &&& n >= 1
        &&& self.parents@.len() == n
        &&& self.children@.len() == n
        &&& self.parents@[0] is None
        &&& (self.nodes@[0] is Document || self.nodes@[0] is Fragment)
        &&& forall|i: int|
            1 <= i < n ==> (#[trigger] self.parents@[i] matches Some(p) && p < i)
        &&& forall|i: int, k: int|
            0 <= i < n && 0 <= k < self.children@[i]@.len() ==> {
                let c = #[trigger] self.children@[i]@[k];
                0 < c < n && self.parents@[c as int] == Some(i as usize)
            }
        &&& forall|c: int|
            1 <= c < n ==> self.children@[(#[trigger] self.parents@[c]).unwrap() as int]@.contains(
                c as usize,
            )
        &&& forall|i: int| 0 <= i < n ==> (#[trigger] self.children@[i])@.no_duplicates()
    }

    /// The element ancestors of node `i`, from the outermost down to the nearest.
    pub open spec fn element_ancestors(&self, i: int) -> Seq<usize>
        decreases i,
    {
        if 0 <= i < self.parents@.len() {
            match self.parents@[i] {
                Some(p) => if p < i {
                    let up = self.element_ancestors(p as int);
                    if self.is_element(p as int) {
                        up.push(p)
                    } else {
                        up
                    }
                } else {
                    Seq::empty()
                },
                None => Seq::empty(),
            }
        } else {
            Seq::empty()
        }
    }

    /// The nearest element ancestor of node `i`.
    pub open spec fn parent_element(&self, i: int) -> Option<usize> {
        let a = self.element_ancestors(i);
        if a.len() == 0 {
            None
        } else {
            Some(a.last())
        }
    }

    /// The number of element ancestors of node `i`.
    pub open spec fn depth(&self, i: int) -> nat {
        self.element_ancestors(i).len()
    }

    /// Node `i` and its descendants in preorder: the node, then the subtree of
    /// each child in document order.
    pub open spec fn subtree(&self, i: int) -> Seq<usize>
        decreases self.nodes@.len() - i, self.children@[i]@.len() + 1,
    {
        if 0 <= i < self.nodes@.len() && i < self.children@.len() {
            seq![i as usize] + self.forest(i, 0)
        } else {
            Seq::empty()
        }
    }

    /// The subtrees of the children of node `i` from the `k`-th on, in preorder.
    pub open spec fn forest(&self, i: int, k: int) -> Seq<usize>
        decreases self.nodes@.len() - i, self.children@[i]@.len() - k,
    {
        if 0 <= i < self.nodes@.len() && i < self.children@.len() && 0 <= k
            < self.children@[i]@.len() {
            let c = self.children@[i]@[k] as int;
            if i < c < self.nodes@.len() {
                self.subtree(c) + self.forest(i, k + 1)
            } else {
                self.forest(i, k + 1)
            }
        } else {
            Seq::empty()
        }
    }

    /// The element nodes among `s`, in order.
    pub open spec fn elements_in(&self, s: Seq<usize>) -> Seq<usize>
        decreases s.len(),
    {
        if s.len() == 0 {
            Seq::empty()
        } else {
            let rest = self.elements_in(s.drop_last());
            if self.is_element(s.last() as int) {
                rest.push(s.last())
            } else {
                rest
            }
        }
    }

    /// Creates a document holding only its root.
    pub fn new_document() -> (r: Document)
        ensures
            r.wf(),
            r.nodes@.len() == 1,
            r.nodes@[0] is Document,
    {
        Document { nodes: vec![Node::Document], parents: vec![None], children: vec![Vec::new()] }
    }

    /// Creates a fragment holding only its root.
    pub fn new_fragment() -> (r: Document)
        ensures
            r.wf(),
            r.nodes@.len() == 1,
            r.nodes@[0] is Fragment,
    {
        Document { nodes: vec![Node::Fragment], parents: vec![None], children: vec![Vec::new()] }
    }

    /// Appends `node` as the last child of `parent` and returns its index.
    pub fn append(&mut self, parent: usize, node: Node) -> (r: usize)
        requires
            old(self).wf(),
            parent < old(self).nodes@.len(),
            old(self).nodes@.len() < usize::MAX,
        ensures
            final(self).wf(),
            r == old(self).nodes@.len(),
            final(self).nodes@ == old(self).nodes@.push(node),
            final(self).parents@ == old(self).parents@.push(Some(parent)),
            final(self).children@.len() == r + 1,
            final(self).children@[r as int]@ == Seq::<usize>::empty(),
            final(self).children@[parent as int]@ == old(self).children@[parent as int]@.push(r),
            forall|i: int|
                0 <= i < r && i != parent ==> #[trigger] final(self).children@[i]
                    == old(self).children@[i],
    {
        let r = self.nodes.len();
        self.nodes.push(node);
        self.parents.push(Some(parent));
        let mut cs = self.children[parent].clone();
        cs.push(r);
        self.children.set(parent, cs);
        self.children.push(Vec::new());
        proof {
            let o = old(self);
            let n = self.nodes@.len();
            assert forall|i: int, k: int|
                0 <= i < n && 0 <= k < self.children@[i]@.len() implies {
                let c = #[trigger] self.children@[i]@[k];
                0 < c < n && self.parents@[c as int] == Some(i as usize)
            } by {
                if i != parent && i < r {
                    assert(self.children@[i] == o.children@[i]);
                    assert(o.children@[i]@[k] == self.children@[i]@[k]);
                } else if i == parent {
                    if k < o.children@[i]@.len() {
                        assert(o.children@[i]@[k] == self.children@[i]@[k]);
                    }
                }
            }
            assert forall|c: int| 1 <= c < n implies self.children@[(
            #[trigger] self.parents@[c]).unwrap() as int]@.contains(c as usize) by {
                if c < r {
                    let p = o.parents@[c].unwrap() as int;
                    assert(o.children@[p]@.contains(c as usize));
                    let k = choose|k: int| 0 <= k < o.children@[p]@.len() && o.children@[p]@[k] == c as usize;
                    if p == parent {
                        assert(self.children@[p]@[k] == c as usize);
                    }
                } else {
                    assert(self.children@[parent as int]@.last() == r);
                }
            }
            assert forall|i: int| 0 <= i < n implies (#[trigger] self.children@[i])@.no_duplicates() by {
                if i == parent {
                    assert(o.children@[i]@.no_duplicates());
                    assert forall|k: int| 0 <= k < o.children@[i]@.len() implies o.children@[i]@[k] != r by {
                        let c = o.children@[i]@[k];
                        assert(c < o.nodes@.len());
                    }
                } else if i < r {
                    assert(self.children@[i] == o.children@[i]);
                }
            }
            assert forall|i: int| 1 <= i < n implies (#[trigger] self.parents@[i] matches Some(p) && p < i) by {
                if i < r {
                    assert(self.parents@[i] == o.parents@[i]);
                }
            }
        }
        r
    }

    /// Returns the number of nodes.
    pub fn node_count(&self) -> (r: usize)
        ensures
            r == self.nodes@.len(),
    {
        self.nodes.len()
    }

    /// Returns node `i`.
    pub fn node(&self, i: usize) -> (r: &Node)
        requires
            i < self.nodes@.len(),
        ensures
            *r == self.nodes@[i as int],
    {
        &self.nodes[i]
    }

    /// Returns the parent of node `i`.
    pub fn parent(&self, i: usize) -> (r: Option<usize>)
        requires
            i < self.parents@.len(),
        ensures
            r == self.parents@[i as int],
    {
        self.parents[i]
    }

    /// Returns the children of node `i`, in document order.
    pub fn children(&self, i: usize) -> (r: &Vec<usize>)
        requires
            i < self.children@.len(),
        ensures
            r@ == self.children@[i as int]@,
    {
        &self.children[i]
    }

    /// Returns the element ancestors of node `i`, from the outermost down to the nearest.
    pub fn element_ancestors_of(&self, i: usize) -> (r: Vec<usize>)
        requires
            self.wf(),
            i < self.nodes@.len(),
        ensures
            r@ == self.element_ancestors(i as int),
        decreases i,
    {
        match self.parents[i] {
            None => Vec::new(),
            Some(p) => {
                assert(i >= 1);
                let mut up = self.element_ancestors_of(p);
                if self.nodes[p].is_element() {
                    up.push(p);
                }
                up
            },
        }
    }

    /// Returns the nearest element ancestor of node `i`.
    pub fn parent_element_of(&self, i: usize) -> (r: Option<usize>)
        requires
            self.wf(),
            i < self.nodes@.len(),
        ensures
            r == self.parent_element(i as int),
        decreases i,
    {
        match self.parents[i] {
            None => None,
            Some(p) => {
                assert(i >= 1);
                if self.nodes[p].is_element() {
                    Some(p)
                } else {
                    self.parent_element_of(p)
                }
            },
        }
    }
}

/// `cs` from the `k`-th on, last first.
pub open spec fn reversed_from(cs: Seq<usize>, k: int) -> Seq<usize>
    decreases cs.len() - k,
{
    if 0 <= k < cs.len() {
        reversed_from(cs, k + 1).push(cs[k])
    } else {
        Seq::empty()
    }
}

/// The nodes that a stack of pending subtrees will visit, top first.
pub open spec fn stack_order(doc: &Document, stack: Seq<usize>) -> Seq<usize>
    decreases stack.len(),
{
    if stack.len() == 0 {
        Seq::empty()
    } else {
        doc.subtree(stack.last() as int) + stack_order(doc, stack.drop_last())
    }
}

/// Pushing the children of `s`, last first, leaves their subtrees to be
/// visited in document order before the rest of the stack.
pub proof fn lemma_stack_children(doc: &Document, st: Seq<usize>, s: usize, k: int)
    requires
        doc.wf(),
        0 <= s < doc.nodes@.len(),
        0 <= k <= doc.children@[s as int]@.len(),
    ensures
        stack_order(doc, st + reversed_from(doc.children@[s as int]@, k)) == doc.forest(s as int, k) + stack_order(doc, st),
    decreases doc.children@[s as int]@.len() - k,
{
    let cs = doc.children@[s as int]@;
    if k < cs.len() {
        lemma_stack_children(doc, st, s, k + 1);
        let c = doc.children@[s as int]@[k];
        assert(0 < c < doc.nodes@.len());
        assert(doc.parents@[c as int] == Some(s));
        assert(doc.parents@[c as int] matches Some(p) && p < c);
        assert(s < c);
        let full = st + reversed_from(cs, k);
        assert(full =~= (st + reversed_from(cs, k + 1)).push(c));
        assert(full.drop_last() =~= st + reversed_from(cs, k + 1));
        assert(doc.forest(s as int, k) == doc.subtree(c as int) + doc.forest(s as int, k + 1));
        assert(stack_order(doc, full) == doc.subtree(c as int) + stack_order(doc, st + reversed_from(cs, k + 1)));
        assert(doc.subtree(c as int) + (doc.forest(s as int, k + 1) + stack_order(doc, st)) =~= (doc.subtree(c as int) + doc.forest(s as int, k + 1)) + stack_order(doc, st));
    } else {
        assert(st + reversed_from(cs, k) =~= st);
    }
}

/// Pushes `cs` onto the stack, last first, so that the first is on top.
fn push_reversed(stack: &mut Vec<usize>, cs: &Vec<usize>)
    ensures
        final(stack)@ == old(stack)@ + reversed_from(cs@, 0),
{
    let mut k: usize = cs.len();
    while k > 0
        invariant
            k <= cs@.len(),
            stack@ == old(stack)@ + reversed_from(cs@, k as int),
        decreases k,
    {
        k = k - 1;
        stack.push(cs[k]);
        proof {
            assert(reversed_from(cs@, k as int) == reversed_from(cs@, k + 1).push(cs@[k as int]));
            assert(stack@ =~= old(stack)@ + reversed_from(cs@, k as int));
        }
    }
}

/// Returns the indices of all elements of the document, in preorder: each
/// element before its descendants, siblings in document order.
pub fn get_elements(document: &Document) -> (r: Vec<usize>)
    requires
        document.wf(),
    ensures
        r@ == document.elements_in(document.subtree(0)),
        forall|j: int| 0 <= j < r@.len() ==> (#[trigger] r@[j]) < document.nodes@.len() && document.is_element(r@[j] as int),
{
    let n = document.nodes.len();
    let mut out: Vec<usize> = Vec::new();
    let mut stack: Vec<usize> = vec![0];
    let ghost mut order: Seq<usize> = Seq::empty();
    proof {
        assert(stack@ == seq![0usize]);
        assert(seq![0usize].drop_last() =~= Seq::<usize>::empty());
        assert(stack_order(document, seq![0usize]) == document.subtree(0) + stack_order(document, Seq::<usize>::empty()));
        assert(order + stack_order(document, stack@) =~= document.subtree(0));
        assert(document.elements_in(order) =~= Seq::<usize>::empty());
    }
    while stack.len() > 0
        invariant
            document.wf(),
            n == document.nodes@.len(),
            forall|k: int| 0 <= k < stack@.len() ==> (#[trigger] stack@[k]) < n,
            order + stack_order(document, stack@) == document.subtree(0),
            out@ == document.elements_in(order),
            forall|j: int| 0 <= j < out@.len() ==> (#[trigger] out@[j]) < n && document.is_element(out@[j] as int),
        decreases stack_order(document, stack@).len(),
    {
        let ghost old_stack = stack@;
        let ghost old_order = order;
        let i = stack.pop().unwrap();
        let ghost popped = stack@;
        proof {
            assert(old_stack =~= popped.push(i));
            assert(old_stack.drop_last() =~= popped);
            assert(old_stack[old_stack.len() - 1] == i);
            order = order.push(i);
            assert(order.drop_last() =~= old_order);
        }
        if document.nodes[i].is_element() {
            out.push(i);
        }
        let cs = document.children(i);
        push_reversed(&mut stack, cs);
        proof {
            lemma_stack_children(document, popped, i, 0);
            assert(stack_order(document, old_stack) == document.subtree(i as int) + stack_order(document, popped));
            assert(document.subtree(i as int) == seq![i] + document.forest(i as int, 0));
            assert(order + stack_order(document, stack@) =~= old_order + stack_order(document, old_stack));
            assert forall|k: int| 0 <= k < stack@.len() implies (#[trigger] stack@[k]) < n by {
                if k >= popped.len() {
                    let t = k - popped.len();
                    lemma_reversed_from_members(cs@, 0, t);
                    let c = reversed_from(cs@, 0)[t];
                    let u = choose|u: int| 0 <= u < cs@.len() && cs@[u] == c;
                    assert(document.children@[i as int]@[u] == c);
                } else {
                    assert(stack@[k] == old_stack[k]);
                }
            }
        }
    }
    proof {
        assert(stack@ =~= Seq::<usize>::empty());
        assert(order =~= document.subtree(0));
    }
    out
}

/// Every member of `reversed_from(cs, k)` is a member of `cs`.
pub proof fn lemma_reversed_from_members(cs: Seq<usize>, k: int, t: int)
    requires
        0 <= k,
        0 <= t < reversed_from(cs, k).len(),
    ensures
        reversed_from(cs, k).len() == cs.len() - k,
        cs.contains(reversed_from(cs, k)[t]),
    decreases cs.len() - k,
{
    if k < cs.len() {
        if t < reversed_from(cs, k + 1).len() {
            lemma_reversed_from_members(cs, k + 1, t);
        } else {
            if k + 1 < cs.len() {
                lemma_reversed_from_members(cs, k + 1, 0);
            }
            assert(reversed_from(cs, k)[t] == cs[k]);
        }
    }
}

} // verus!
