//! A min-oriented pairing heap.
//!
//! The heap is a single heap-ordered multiway tree: every node's element is
//! less than or equal to every element in its subtree.  Insertion merges a
//! fresh singleton node with the root in O(1); removal of the minimum detaches
//! the root and reassembles its children with a right-to-left multi-pass merge
//! in amortized O(log n).
//!
//! The abstract view of a heap is the multiset of elements it holds; every
//! public operation is specified against that view.

use vstd::multiset::Multiset;
use vstd::prelude::*;

verus! {

broadcast use vstd::multiset::group_multiset_axioms;

/// One subtree root: a payload together with the ordered sequence of child
/// subtrees it exclusively owns.
struct Node {
    elem: i64,
    children: Vec<Box<Node>>,
}

/// The multiset of elements stored in the whole subtree rooted at `n`.
spec fn node_ms(n: Node) -> Multiset<i64>
    decreases n,
{
    seq_ms(n.children@).insert(n.elem)
}

/// The multiset of elements stored across a sequence of sibling subtrees.
spec fn seq_ms(s: Seq<Box<Node>>) -> Multiset<i64>
    decreases s,
{
    if s.len() == 0 {
        Multiset::empty()
    } else {
        seq_ms(s.subrange(0, s.len() - 1)).add(node_ms(*s[s.len() - 1]))
    }
}

/// Heap order at `n`: every child subtree is itself heap-ordered and `n.elem`
/// is a lower bound for everything stored below `n`.
spec fn node_wf(n: Node) -> bool
    decreases n,
{
    &&& seq_wf(n.children@)
    &&& forall|x: i64| seq_ms(n.children@).count(x) > 0 ==> n.elem <= x
}

/// Heap order across a sequence of sibling subtrees.
spec fn seq_wf(s: Seq<Box<Node>>) -> bool
    decreases s,
{
    s.len() == 0 || (seq_wf(s.subrange(0, s.len() - 1)) && node_wf(*s[s.len() - 1]))
}

spec fn opt_ms(o: Option<Box<Node>>) -> Multiset<i64> {
    match o {
        None => Multiset::empty(),
        Some(n) => node_ms(*n),
    }
}

spec fn opt_wf(o: Option<Box<Node>>) -> bool {
    match o {
        None => true,
        Some(n) => node_wf(*n),
    }
}

/// `v` is the minimum of the multiset `m`: it occurs in `m` and is a lower
/// bound for every element of `m`.  A nonempty multiset of integers has
/// exactly one minimum value.
pub open spec fn is_min_of(v: i64, m: Multiset<i64>) -> bool {
    &&& m.count(v) > 0
    &&& forall|x: i64| m.count(x) > 0 ==> v <= x
}

/// A min-oriented pairing heap over `i64` elements.
///
/// The abstract view `h@` is the multiset of elements currently stored.
pub struct PairingHeap {
    root: Option<Box<Node>>,
}

impl View for PairingHeap {
    type V = Multiset<i64>;

    closed spec fn view(&self) -> Multiset<i64> {
        opt_ms(self.root)
    }
}

impl PairingHeap {
    /// Heap-order invariant: the tree under the root (if any) is heap-ordered.
    #[verifier::type_invariant]
    spec fn wf(self) -> bool {
        opt_wf(self.root)
    }

    /// Creates an empty pairing heap.
    pub fn new() -> (h: Self)
        ensures
            h@ == Multiset::<i64>::empty(),
    {
        PairingHeap { root: None }
    }

    /// Returns `true` if the heap contains no elements.
    pub fn is_empty(&self) -> (r: bool)
        ensures
            r <==> self@.len() == 0,
    {
        proof {
            if self.root is Some {
                lemma_node_elem_in_ms(*self.root->0);
            }
        }
        self.root.is_none()
    }

    /// Two-way merge: combines two optional heap-ordered subtrees into one.
    /// The root with the smaller element wins and the other tree becomes its
    /// last child; ties favor the second operand.  O(1): only the roots are
    /// relinked.
    fn merge_nodes(n1: Option<Box<Node>>, n2: Option<Box<Node>>) -> (r: Box<Node>)
        requires
            n1 is Some || n2 is Some,
            opt_wf(n1),
            opt_wf(n2),
        ensures
            node_wf(*r),
            node_ms(*r) == opt_ms(n1).add(opt_ms(n2)),
    {
        match (n1, n2) {
            (Some(x), None) => {
                proof {
                    assert(node_ms(*x).add(Multiset::<i64>::empty()) =~= node_ms(*x));
                }
                x
            }
            (None, Some(x)) => {
                proof {
                    assert(Multiset::<i64>::empty().add(node_ms(*x)) =~= node_ms(*x));
                }
                x
            }
            (Some(a), Some(b)) => {
                if a.elem < b.elem {
                    let mut a = a;
                    let ghost old_a = *a;
                    let ghost lose = b;
                    a.children.push(b);
                    proof {
                        lemma_merged_node_wf(old_a, lose, *a);
                    }
                    a
                } else {
                    let mut b = b;
                    let ghost old_b = *b;
                    let ghost lose = a;
                    b.children.push(a);
                    proof {
                        lemma_merged_node_wf(old_b, lose, *b);
                        assert(node_ms(*lose).add(node_ms(old_b)) =~= node_ms(old_b).add(node_ms(*lose)));
                    }
                    b
                }
            }
            (None, None) => vstd::pervasive::unreached(),
        }
    }

    /// Returns a reference to the minimum element without removing it, or
    /// `None` if the heap has no elements.  O(1), no mutation.
    pub fn peek(&self) -> (r: Option<&i64>)
        ensures
            r is Some <==> self@.len() > 0,
            match r {
                None => self@.len() == 0,
                Some(v) => is_min_of(*v, self@),
            },
    {
        proof {
            use_type_invariant(&*self);
        }
        match &self.root {
            None => None,
            Some(node) => {
                proof {
                    lemma_node_min(**node);
                }
                Some(&node.elem)
            }
        }
    }

    /// Inserts a new element: wraps it in a fresh singleton node and two-way
    /// merges it with the current root.  Always succeeds; amortized O(1).
    ///
    /// Each insert grows the contents by exactly the inserted element.
    pub fn insert(&mut self, elem: i64)
        ensures
            final(self)@ == old(self)@.insert(elem),
            final(self)@.len() == old(self)@.len() + 1,
    {
        proof {
            use_type_invariant(&*self);
        }
        let new_node = Box::new(Node { elem: elem, children: Vec::new() });
        proof {
            assert(seq_ms(new_node.children@) =~= Multiset::<i64>::empty());
            assert(node_wf(*new_node));
        }
        let mut old_root = None;
        std::mem::swap(&mut old_root, &mut self.root);
        let merged = Self::merge_nodes(old_root, Some(new_node));
        proof {
            assert(node_ms(*merged) =~= old(self)@.insert(elem));
        }
        self.root = Some(merged);
    }

    /// Removes and returns the minimum element, or returns `None` and leaves
    /// the heap empty if it already was.  Amortized O(log n).
    ///
    /// A successful pop removes exactly one occurrence of the minimum.
    pub fn pop(&mut self) -> (r: Option<i64>)
        ensures
            r is Some <==> old(self)@.len() > 0,
            old(self)@.len() == 0 ==> final(self)@ == old(self)@,
            r matches Some(v) ==> is_min_of(v, old(self)@) && final(self)@ == old(self)@.remove(
                v,
            ),
            r is Some ==> final(self)@.len() == old(self)@.len() - 1,
    {
        proof {
            use_type_invariant(&*self);
        }
        let mut root = None;
        std::mem::swap(&mut root, &mut self.root);
        match root {
            None => None,
            Some(node) => {
                let ghost n0 = *node;
                proof {
                    lemma_node_min(n0);
                }
                let Node { elem, children } = *node;
                let new_root = Self::merge_pairs(children);
                self.root = new_root;
                proof {
                    assert(seq_ms(n0.children@) =~= seq_ms(n0.children@).insert(n0.elem).remove(
                        n0.elem,
                    ));
                }
                Some(elem)
            }
        }
    }

    /// Removes the minimum element, discarding its value; does nothing if the
    /// heap is empty.  Amortized O(log n).
    ///
    /// Removing the minimum is deterministic on the contents: every minimum
    /// value of the old contents (there is exactly one) leads to the same new
    /// contents, so `delete` leaves the heap exactly as `pop` would.
    pub fn delete(&mut self)
        ensures
            old(self)@.len() == 0 ==> final(self)@ == old(self)@,
            old(self)@.len() > 0 ==> exists|v: i64| is_min_of(v, old(self)@),
            forall|v: i64|
                is_min_of(v, old(self)@) ==> final(self)@ == old(self)@.remove(v),
            old(self)@.len() > 0 ==> final(self)@.len() == old(self)@.len() - 1,
    {
        proof {
            use_type_invariant(&*self);
        }
        let mut root = None;
        std::mem::swap(&mut root, &mut self.root);
        match root {
            None => {},
            Some(node) => {
                let ghost n0 = *node;
                proof {
                    lemma_node_min(n0);
                }
                let Node { elem: _, children } = *node;
                let new_root = Self::merge_pairs(children);
                self.root = new_root;
                proof {
                    assert(seq_ms(n0.children@) =~= seq_ms(n0.children@).insert(n0.elem).remove(
                        n0.elem,
                    ));
                    assert forall|v: i64| is_min_of(v, old(self)@) implies self@ == old(
                        self,
                    )@.remove(v) by {
                        assert(v == n0.elem);
                    }
                }
            }
        }
    }

    /// Multi-pass merge: reassembles a sequence of sibling subtrees (the
    /// children of a removed root) into a single heap-ordered tree.  Siblings
    /// are taken two at a time from the end, merged pairwise, and each pair is
    /// folded together with the merge of the remaining siblings; this realizes
    /// the pairing heap's two-pass reassembly as one recursion and keeps
    /// minimum-removal at amortized O(log n).
    fn merge_pairs(heaps: Vec<Box<Node>>) -> (r: Option<Box<Node>>)
        requires
            seq_wf(heaps@),
        ensures
            opt_wf(r),
            opt_ms(r) == seq_ms(heaps@),
            r is Some <==> heaps@.len() > 0,
        decreases heaps@.len(),
    {
        let ghost s = heaps@;
        let mut heaps = heaps;
        match heaps.len() {
            0 => {
                proof {
                    assert(seq_ms(s) =~= Multiset::<i64>::empty());
                }
                None
            }
            1 => {
                let x = heaps.pop().unwrap();
                proof {
                    assert(seq_ms(s) == seq_ms(s.subrange(0, 0)).add(node_ms(*s[0])));
                    assert(s.subrange(0, 0).len() == 0);
                    assert(seq_ms(s) =~= node_ms(*x));
                }
                Some(x)
            }
            _ => {
                let ghost l = s.len() as int;
                let a = heaps.pop();
                let b = heaps.pop();
                proof {
                    assert(s.subrange(0, l - 1).subrange(0, l - 2) =~= s.subrange(0, l - 2));
                    assert(s.subrange(0, l - 1)[l - 2] == s[l - 2]);
                    assert(seq_wf(s.subrange(0, l - 1)) && node_wf(*s[l - 1]));
                    assert(seq_wf(s.subrange(0, l - 2)) && node_wf(*s[l - 2]));
                }
                let merged = Self::merge_nodes(a, b);
                let rest = Self::merge_pairs(heaps);
                proof {
                    assert(seq_ms(s) == seq_ms(s.subrange(0, l - 1)).add(node_ms(*s[l - 1])));
                    assert(seq_ms(s.subrange(0, l - 1)) == seq_ms(s.subrange(0, l - 2)).add(
                        node_ms(*s[l - 2]),
                    ));
                    assert(node_ms(*merged).add(opt_ms(rest)) =~= seq_ms(s));
                }
                Some(Self::merge_nodes(Some(merged), rest))
            }
        }
    }
}

/// A node's own element is stored in its subtree, so a subtree is never empty.
proof fn lemma_node_elem_in_ms(n: Node)
    ensures
        node_ms(n).count(n.elem) > 0,
        node_ms(n).len() > 0,
{
    assert(node_ms(n) == seq_ms(n.children@).insert(n.elem));
}

/// In a heap-ordered subtree the root element is the minimum of the whole
/// subtree's contents.
proof fn lemma_node_min(n: Node)
    requires
        node_wf(n),
    ensures
        is_min_of(n.elem, node_ms(n)),
{
    lemma_node_elem_in_ms(n);
    assert forall|x: i64| node_ms(n).count(x) > 0 implies n.elem <= x by {
        if x != n.elem {
            assert(seq_ms(n.children@).count(x) > 0);
        }
    }
}

/// Appending one sibling subtree extends the contents by that subtree's
/// elements and preserves the shape of the well-formedness predicate.
proof fn lemma_seq_push(s: Seq<Box<Node>>, n: Box<Node>)
    ensures
        seq_ms(s.push(n)) == seq_ms(s).add(node_ms(*n)),
        seq_wf(s.push(n)) <==> (seq_wf(s) && node_wf(*n)),
{
    let t = s.push(n);
    assert(t.subrange(0, t.len() - 1) =~= s);
    assert(t[t.len() - 1] == n);
}

/// After a two-way merge attaches the losing root `lose` as a new child of the
/// winning root (`win` before, `merged` after), the merged tree is
/// heap-ordered and holds exactly the union of both trees' contents.
proof fn lemma_merged_node_wf(win: Node, lose: Box<Node>, merged: Node)
    requires
        node_wf(win),
        node_wf(*lose),
        win.elem <= lose.elem,
        merged.elem == win.elem,
        merged.children@ == win.children@.push(lose),
    ensures
        node_wf(merged),
        node_ms(merged) == node_ms(win).add(node_ms(*lose)),
{
    lemma_node_min(*lose);
    lemma_seq_push(win.children@, lose);
    assert(seq_ms(merged.children@) == seq_ms(win.children@).add(node_ms(*lose)));
    assert forall|x: i64| seq_ms(merged.children@).count(x) > 0 implies merged.elem <= x by {
        if seq_ms(win.children@).count(x) > 0 {
            assert(win.elem <= x);
        } else {
            assert(node_ms(*lose).count(x) > 0);
            assert(lose.elem <= x);
        }
    }
    assert(node_ms(merged) =~= node_ms(win).add(node_ms(*lose)));
}

/// A nonempty multiset of integers has exactly one minimum value: any two
/// minima are equal.  Together with the contracts of `pop` and `delete` this
/// pins both successors of a heap state down to a single multiset.
pub proof fn lemma_min_unique(m: Multiset<i64>, v1: i64, v2: i64)
    requires
        is_min_of(v1, m),
        is_min_of(v2, m),
    ensures
        v1 == v2,
{
}

/// Sorted extraction: when the minimum `v1` of some contents `m` is removed,
/// the minimum of what remains is at least `v1`.  Repeatedly popping a heap
/// until it is empty therefore yields its elements in non-decreasing order.
pub proof fn lemma_sorted_extraction(m: Multiset<i64>, v1: i64, v2: i64)
    requires
        is_min_of(v1, m),
        is_min_of(v2, m.remove(v1)),
    ensures
        v1 <= v2,
{
    if v2 != v1 {
        assert(m.count(v2) > 0);
    }
}

/// Delete/pop equivalence: removing a minimum is deterministic on the
/// contents.  If two heaps arise from the same contents `m` by removing some
/// minimum of `m` — as `delete` does, and as `pop` does while also handing
/// the value back — then their contents are equal; since the contracts of
/// `peek`, `pop`, `delete` and `is_empty` speak of the contents alone, all
/// subsequent observable behavior agrees as well.
pub proof fn lemma_delete_pop_equivalence(m: Multiset<i64>, d: Multiset<i64>, p: Multiset<i64>)
    requires
        exists|v: i64| is_min_of(v, m) && d == m.remove(v),
        exists|v: i64| is_min_of(v, m) && p == m.remove(v),
    ensures
        d == p,
{
    let v1 = choose|v: i64| is_min_of(v, m) && d == m.remove(v);
    let v2 = choose|v: i64| is_min_of(v, m) && p == m.remove(v);
    lemma_min_unique(m, v1, v2);
}

} // verus!
