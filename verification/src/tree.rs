//! A snapshot of a syntax tree: every node with its extent in bytes, its
//! parent and its children, held in one list and named by its index.
use vstd::prelude::*;

verus! {

/// One node of the tree.
#[derive(Debug, Clone)]
pub struct SyntaxNode {
    /// First byte of the node.
    pub start_byte: usize,
    /// The byte behind the node's last.
    pub end_byte: usize,
    /// Whether the grammar names the node.
    pub named: bool,
    /// The node's parent; `None` for the root.
    pub parent: Option<usize>,
    /// The node's place among the children of its parent; 0 for the root.
    pub position: usize,
    /// The node's children, in the order of the text.
    pub children: Vec<usize>,
}

/// A syntax tree. Node 0 is its root.
#[derive(Debug, Clone)]
pub struct SyntaxTree {
    nodes: Vec<SyntaxNode>,
}

impl View for SyntaxTree {
    type V = Seq<SyntaxNode>;

    closed spec fn view(&self) -> Seq<SyntaxNode> {
        self.nodes@
    }
}

/// Whether child `k` of node `n` is a node behind `n` in the list that
/// knows its parent and its place, and starts where its elder sibling ends
/// or later.
pub open spec fn child_ok(s: Seq<SyntaxNode>, n: int, k: int) -> bool {
    let c = s[n].children@[k] as int;
    &&& n < c < s.len()
    &&& s[c].parent == Some(n as usize)
    &&& s[c].position == k
    &&& k > 0 ==> s[s[n].children@[k - 1] as int].end_byte <= s[c].start_byte
}

/// Whether node `n` ends where it starts or later, lies within its parent,
/// is listed by its parent at its place, and has the children it lists.
pub open spec fn node_ok(s: Seq<SyntaxNode>, n: int) -> bool {
    let node = s[n];
    &&& node.start_byte <= node.end_byte
    &&& n == 0 ==> node.parent is None
    &&& n > 0 ==> {
        &&& node.parent is Some
        &&& node.parent.unwrap() < n
        &&& node.position < s[node.parent.unwrap() as int].children@.len()
        &&& s[node.parent.unwrap() as int].children@[node.position as int] == n
        &&& s[node.parent.unwrap() as int].start_byte <= node.start_byte
        &&& node.end_byte <= s[node.parent.unwrap() as int].end_byte
    }
    &&& forall|k: int| 0 <= k < node.children@.len() ==> #[trigger] child_ok(s, n, k)
}

/// Whether the list of nodes is a tree.
pub open spec fn well_formed(s: Seq<SyntaxNode>) -> bool {
    &&& s.len() > 0
    &&& forall|n: int| 0 <= n < s.len() ==> #[trigger] node_ok(s, n)
}

/// Whether the node holds the bytes from `from` to `to`: it starts at
/// `from` or before, ends at `to` or later, and ends behind `from`.
pub open spec fn holds(node: SyntaxNode, from: int, to: int) -> bool {
    node.start_byte <= from && to <= node.end_byte && from < node.end_byte
}

/// The first of `children` that holds the bytes from `from` to `to`.
pub open spec fn first_holding(
    s: Seq<SyntaxNode>,
    children: Seq<usize>,
    from: int,
    to: int,
) -> Option<usize>
    decreases children.len(),
{
    if children.len() == 0 {
        None
    } else if 0 <= children[0] < s.len() && holds(s[children[0] as int], from, to) {
        Some(children[0])
    } else {
        first_holding(s, children.drop_first(), from, to)
    }
}

/// The node reached from `n` by going down, as long as a child holds the
/// bytes from `from` to `to`, to the first child that does.
pub open spec fn descend(s: Seq<SyntaxNode>, n: int, from: int, to: int) -> int
    decreases s.len() - n,
{
    if 0 <= n < s.len() {
        match first_holding(s, s[n].children@, from, to) {
            Some(c) => if n < c < s.len() {
                descend(s, c as int, from, to)
            } else {
                n
            },
            None => n,
        }
    } else {
        n
    }
}

/// The smallest node that covers the bytes from `from` to `to`, where the
/// root covers them.
pub open spec fn covering(s: Seq<SyntaxNode>, from: int, to: int) -> Option<int> {
    if s.len() > 0 && s[0].start_byte <= from && from <= to && to <= s[0].end_byte {
        Some(descend(s, 0, from, to))
    } else {
        None
    }
}

/// The children of node `n` that the grammar names, in order.
pub open spec fn named_children(s: Seq<SyntaxNode>, n: int) -> Seq<usize> {
    s[n].children@.filter(|c: usize| 0 <= c < s.len() && s[c as int].named)
}

/// The first named node among `children` at place `k` or behind it.
pub open spec fn named_from(s: Seq<SyntaxNode>, children: Seq<usize>, k: int) -> Option<usize>
    decreases children.len() - k,
{
    if k < 0 || k >= children.len() {
        None
    } else if children[k] < s.len() && s[children[k] as int].named {
        Some(children[k])
    } else {
        named_from(s, children, k + 1)
    }
}

/// The last named node among `children` at place `k` or before it.
pub open spec fn named_upto(s: Seq<SyntaxNode>, children: Seq<usize>, k: int) -> Option<usize>
    decreases k + 1,
{
    if k < 0 || k >= children.len() {
        None
    } else if children[k] < s.len() && s[children[k] as int].named {
        Some(children[k])
    } else {
        named_upto(s, children, k - 1)
    }
}

/// The next named child of the parent of `n` behind `n`.
pub open spec fn next_named_sibling(s: Seq<SyntaxNode>, n: int) -> Option<usize> {
    if 0 <= n < s.len() && s[n].parent is Some && s[n].parent.unwrap() < s.len() {
        named_from(s, s[s[n].parent.unwrap() as int].children@, s[n].position + 1)
    } else {
        None
    }
}

/// The last named child of the parent of `n` before `n`.
pub open spec fn prev_named_sibling(s: Seq<SyntaxNode>, n: int) -> Option<usize> {
    if 0 <= n < s.len() && s[n].parent is Some && s[n].parent.unwrap() < s.len() {
        named_upto(s, s[s[n].parent.unwrap() as int].children@, s[n].position - 1)
    } else {
        None
    }
}

/// What `first_holding` returns: one of the children, which holds the
/// bytes, or nothing where no child holds them.
pub proof fn lemma_first_holding(s: Seq<SyntaxNode>, children: Seq<usize>, from: int, to: int)
    ensures
        first_holding(s, children, from, to) matches Some(c) ==> children.contains(c) && c
            < s.len() && holds(s[c as int], from, to),
        first_holding(s, children, from, to) is None ==> forall|k: int|
            0 <= k < children.len() && children[k] < s.len() ==> !holds(
                s[#[trigger] children[k] as int],
                from,
                to,
            ),
    decreases children.len(),
{
    if children.len() > 0 {
        lemma_first_holding(s, children.drop_first(), from, to);
        let rest = children.drop_first();
        if first_holding(s, children, from, to) is None {
            assert forall|k: int| 0 <= k < children.len() && children[k] < s.len() implies !holds(
                s[#[trigger] children[k] as int],
                from,
                to,
            ) by {
                if k > 0 {
                    assert(children[k] == rest[k - 1]);
                }
            }
        } else if !(0 <= children[0] < s.len() && holds(s[children[0] as int], from, to)) {
            let c = first_holding(s, rest, from, to).unwrap();
            let k = choose|k: int| 0 <= k < rest.len() && rest[k] == c;
            assert(children[k + 1] == c);
        }
    }
}

/// Where node `n` covers the bytes from `from` to `to`, the node that
/// `descend` reaches covers them too, is `n` or holds them, and has no child
/// that holds them: it is the smallest.
pub proof fn lemma_descend(s: Seq<SyntaxNode>, n: int, from: int, to: int)
    requires
        well_formed(s),
        0 <= n < s.len(),
        s[n].start_byte <= from <= to <= s[n].end_byte,
    ensures
        n <= descend(s, n, from, to) < s.len(),
        s[descend(s, n, from, to)].start_byte <= from,
        to <= s[descend(s, n, from, to)].end_byte,
        s[n].start_byte <= s[descend(s, n, from, to)].start_byte,
        s[descend(s, n, from, to)].end_byte <= s[n].end_byte,
        descend(s, n, from, to) == n || holds(s[descend(s, n, from, to)], from, to),
        first_holding(s, s[descend(s, n, from, to)].children@, from, to) is None,
    decreases s.len() - n,
{
    lemma_first_holding(s, s[n].children@, from, to);
    match first_holding(s, s[n].children@, from, to) {
        Some(c) => {
            let k = choose|k: int| 0 <= k < s[n].children@.len() && s[n].children@[k] == c;
            assert(node_ok(s, n));
            assert(child_ok(s, n, k));
            assert(node_ok(s, c as int));
            lemma_descend(s, c as int, from, to);
        },
        None => {},
    }
}

/// Every node lies within the root.
pub proof fn lemma_within_root(s: Seq<SyntaxNode>, n: int)
    requires
        well_formed(s),
        0 <= n < s.len(),
    ensures
        s[0].start_byte <= s[n].start_byte,
        s[n].end_byte <= s[0].end_byte,
    decreases n,
{
    assert(node_ok(s, n));
    if n > 0 {
        lemma_within_root(s, s[n].parent.unwrap() as int);
    }
}

impl SyntaxTree {
    /// Whether the nodes form a tree.
    pub open spec fn wf(&self) -> bool {
        well_formed(self@)
    }

    /// A tree of one node, the root, from `start_byte` to `end_byte`.
    /// `None` where the root would end before it starts.
    pub fn new(start_byte: usize, end_byte: usize, named: bool) -> (r: Option<SyntaxTree>)
        ensures
            r is Some <==> start_byte <= end_byte,
            r matches Some(tree) ==> tree.wf() && tree@.len() == 1 && tree@[0].start_byte
                == start_byte && tree@[0].end_byte == end_byte && tree@[0].named == named
                && tree@[0].children@.len() == 0,
    {
        if start_byte > end_byte {
            return None;
        }
        let mut nodes: Vec<SyntaxNode> = Vec::new();
        nodes.push(
            SyntaxNode {
                start_byte,
                end_byte,
                named,
                parent: None,
                position: 0,
                children: Vec::new(),
            },
        );
        let tree = SyntaxTree { nodes };
        assert(node_ok(tree@, 0));
        Some(tree)
    }

    /// Number of nodes.
    pub fn len(&self) -> (r: usize)
        ensures
            r == self@.len(),
    {
        self.nodes.len()
    }

    /// The node of index `id`.
    pub fn node(&self, id: usize) -> (r: Option<&SyntaxNode>)
        ensures
            r is Some <==> id < self@.len(),
            r matches Some(node) ==> *node == self@[id as int],
    {
        if id < self.nodes.len() {
            Some(&self.nodes[id])
        } else {
            None
        }
    }

    /// Whether a node from `start_byte` to `end_byte` can become the last
    /// child of `parent`: it lies within the parent and behind the children
    /// that the parent has.
    pub open spec fn can_add(
        s: Seq<SyntaxNode>,
        parent: usize,
        start_byte: usize,
        end_byte: usize,
    ) -> bool {
        &&& parent < s.len()
        &&& s.len() < usize::MAX
        &&& start_byte <= end_byte
        &&& s[parent as int].start_byte <= start_byte
        &&& end_byte <= s[parent as int].end_byte
        &&& s[parent as int].children@.len() > 0 ==> s[s[parent as int].children@.last() as int]
            .end_byte <= start_byte
    }

    /// Adds a node as the last child of `parent` and returns its index.
    /// Where the node cannot stand there, the tree stays as it is.
    pub fn add_child(
        &mut self,
        parent: usize,
        start_byte: usize,
        end_byte: usize,
        named: bool,
    ) -> (r: Option<usize>)
        requires
            old(self).wf(),
        ensures
            final(self).wf(),
            r is Some <==> Self::can_add(old(self)@, parent, start_byte, end_byte),
            r is None ==> final(self)@ == old(self)@,
            r matches Some(id) ==> {
                &&& id == old(self)@.len()
                &&& final(self)@.len() == id + 1
                &&& final(self)@[id as int].start_byte == start_byte
                &&& final(self)@[id as int].end_byte == end_byte
                &&& final(self)@[id as int].named == named
                &&& final(self)@[id as int].parent == Some(parent)
                &&& final(self)@[id as int].position == old(self)@[parent as int].children@.len()
                &&& final(self)@[id as int].children@.len() == 0
                &&& final(self)@[parent as int].children@ == old(
                    self,
                )@[parent as int].children@.push(id)
                &&& final(self)@[parent as int].start_byte == old(self)@[parent as int].start_byte
                &&& final(self)@[parent as int].end_byte == old(self)@[parent as int].end_byte
                &&& final(self)@[parent as int].named == old(self)@[parent as int].named
                &&& final(self)@[parent as int].parent == old(self)@[parent as int].parent
                &&& final(self)@[parent as int].position == old(self)@[parent as int].position
                &&& forall|n: int| 0 <= n < id && n != parent ==> final(self)@[n] == old(self)@[n]
            },
    {
        let id = self.nodes.len();
        if parent >= id || id == usize::MAX || start_byte > end_byte {
            return None;
        }
        let above = &self.nodes[parent];
        if above.start_byte > start_byte || end_byte > above.end_byte {
            return None;
        }
        let position = above.children.len();
        if position > 0 {
            proof {
                assert(node_ok(self@, parent as int));
                assert(child_ok(self@, parent as int, position - 1));
            }
            let elder = above.children[position - 1];
            if self.nodes[elder].end_byte > start_byte {
                return None;
            }
        }
        let ghost before = self@;
        let mut children = above.children.clone();
        children.push(id);
        let replaced = SyntaxNode {
            start_byte: above.start_byte,
            end_byte: above.end_byte,
            named: above.named,
            parent: above.parent,
            position: above.position,
            children,
        };
        self.nodes.set(parent, replaced);
        self.nodes.push(
            SyntaxNode {
                start_byte,
                end_byte,
                named,
                parent: Some(parent),
                position,
                children: Vec::new(),
            },
        );
        proof {
            let after = self@;
            assert forall|n: int| 0 <= n < after.len() implies #[trigger] node_ok(after, n) by {
                if n < id {
                    assert(node_ok(before, n));
                    assert forall|k: int|
                        0 <= k < after[n].children@.len() implies #[trigger] child_ok(
                        after,
                        n,
                        k,
                    ) by {
                        if n == parent && k == position {
                            if k > 0 {
                                assert(child_ok(before, n, k - 1));
                            }
                        } else {
                            assert(child_ok(before, n, k));
                            if k > 0 {
                                assert(child_ok(before, n, k - 1));
                            }
                        }
                    }
                }
            }
        }
        Some(id)
    }

    /// The root.
    pub fn root(&self) -> (r: usize)
        ensures
            r == 0,
    {
        0
    }

    /// The parent of node `id`.
    pub fn parent(&self, id: usize) -> (r: Option<usize>)
        requires
            self.wf(),
        ensures
            r == if id < self@.len() {
                self@[id as int].parent
            } else {
                None
            },
            r matches Some(p) ==> p < id,
    {
        if id < self.nodes.len() {
            proof {
                assert(node_ok(self@, id as int));
            }
            self.nodes[id].parent
        } else {
            None
        }
    }

    /// Number of children of node `id`; 0 where there is no such node.
    pub fn child_count(&self, id: usize) -> (r: usize)
        ensures
            r == if id < self@.len() {
                self@[id as int].children@.len()
            } else {
                0
            },
    {
        if id < self.nodes.len() {
            self.nodes[id].children.len()
        } else {
            0
        }
    }

    /// Child `i` of node `id`.
    pub fn child(&self, id: usize, i: usize) -> (r: Option<usize>)
        requires
            self.wf(),
        ensures
            r == if id < self@.len() && i < self@[id as int].children@.len() {
                Some(self@[id as int].children@[i as int])
            } else {
                None
            },
            r matches Some(c) ==> id < c < self@.len(),
    {
        if id < self.nodes.len() && i < self.nodes[id].children.len() {
            proof {
                assert(node_ok(self@, id as int));
                assert(child_ok(self@, id as int, i as int));
            }
            Some(self.nodes[id].children[i])
        } else {
            None
        }
    }

    /// The first and the last byte of node `id`, the last not included.
    pub fn byte_range(&self, id: usize) -> (r: Option<(usize, usize)>)
        ensures
            r == if id < self@.len() {
                Some((self@[id as int].start_byte, self@[id as int].end_byte))
            } else {
                None
            },
    {
        if id < self.nodes.len() {
            Some((self.nodes[id].start_byte, self.nodes[id].end_byte))
        } else {
            None
        }
    }

    /// The children of node `id` that the grammar names, in order.
    pub fn named_children(&self, id: usize) -> (r: Vec<usize>)
        requires
            self.wf(),
        ensures
            r@ == if id < self@.len() {
                named_children(self@, id as int)
            } else {
                Seq::<usize>::empty()
            },
            forall|k: int| 0 <= k < r@.len() ==> id < #[trigger] r@[k] < self@.len(),
    {
        let mut named: Vec<usize> = Vec::new();
        if id >= self.nodes.len() {
            return named;
        }
        let children = &self.nodes[id].children;
        let ghost is_named = |c: usize| 0 <= c < self@.len() && self@[c as int].named;
        let mut i: usize = 0;
        assert(children@.take(0) =~= Seq::<usize>::empty());
        while i < children.len()
            invariant
                self.wf(),
                id < self@.len(),
                children@ == self@[id as int].children@,
                is_named == |c: usize| 0 <= c < self@.len() && self@[c as int].named,
                0 <= i <= children.len(),
                named@ == children@.take(i as int).filter(is_named),
                forall|k: int| 0 <= k < named@.len() ==> id < #[trigger] named@[k] < self@.len(),
            decreases children.len() - i,
        {
            let c = children[i];
            proof {
                assert(node_ok(self@, id as int));
                assert(child_ok(self@, id as int, i as int));
                assert(children@.take(i + 1).drop_last() =~= children@.take(i as int));
                assert(children@.take(i + 1).last() == c);
                reveal(Seq::filter);
            }
            if self.nodes[c].named {
                named.push(c);
            }
            i += 1;
        }
        assert(children@.take(i as int) =~= children@);
        named
    }

    /// The smallest node that covers the bytes from `from` to `to`.
    pub fn descendant_for_byte_range(&self, from: usize, to: usize) -> (r: Option<usize>)
        requires
            self.wf(),
        ensures
            r is Some <==> covering(self@, from as int, to as int) is Some,
            r matches Some(id) ==> {
                &&& id as int == covering(self@, from as int, to as int).unwrap()
                &&& id < self@.len()
                &&& self@[id as int].start_byte <= from
                &&& to <= self@[id as int].end_byte
                &&& first_holding(self@, self@[id as int].children@, from as int, to as int) is None
            },
    {
        let root = &self.nodes[0];
        if !(root.start_byte <= from && from <= to && to <= root.end_byte) {
            return None;
        }
        proof {
            lemma_descend(self@, 0, from as int, to as int);
        }
        let mut current: usize = 0;
        loop
            invariant
                self.wf(),
                current < self@.len(),
                descend(self@, 0, from as int, to as int) == descend(
                    self@,
                    current as int,
                    from as int,
                    to as int,
                ),
            ensures
                current as int == descend(self@, 0, from as int, to as int),
            decreases self@.len() - current,
        {
            let children = &self.nodes[current].children;
            let mut next: Option<usize> = None;
            let mut k: usize = 0;
            assert(children@.skip(0) =~= children@);
            while k < children.len() && next.is_none()
                invariant
                    self.wf(),
                    current < self@.len(),
                    children@ == self@[current as int].children@,
                    0 <= k <= children.len(),
                    next is None ==> first_holding(
                        self@,
                        children@,
                        from as int,
                        to as int,
                    ) == first_holding(self@, children@.skip(k as int), from as int, to as int),
                    next is Some ==> first_holding(self@, children@, from as int, to as int)
                        == next,
                    next matches Some(c) ==> current < c < self@.len(),
                decreases children.len() - k + if next is None { 1int } else { 0int },
            {
                let c = children[k];
                proof {
                    assert(node_ok(self@, current as int));
                    assert(child_ok(self@, current as int, k as int));
                    assert(children@.skip(k as int)[0] == c);
                    assert(children@.skip(k as int).drop_first() =~= children@.skip(k + 1));
                }
                let node = &self.nodes[c];
                if node.start_byte <= from && to <= node.end_byte && from < node.end_byte {
                    next = Some(c);
                } else {
                    k += 1;
                }
            }
            match next {
                Some(c) => {
                    current = c;
                },
                None => {
                    break ;
                },
            }
        }
        Some(current)
    }

    /// The next named sibling of node `id`.
    pub fn next_named_sibling(&self, id: usize) -> (r: Option<usize>)
        requires
            self.wf(),
        ensures
            r == next_named_sibling(self@, id as int),
            r matches Some(c) ==> c < self@.len(),
    {
        if id >= self.nodes.len() {
            return None;
        }
        let parent = match self.nodes[id].parent {
            Some(parent) => parent,
            None => return None,
        };
        proof {
            assert(node_ok(self@, id as int));
        }
        let children = &self.nodes[parent].children;
        if self.nodes[id].position >= children.len() {
            return None;
        }
        let mut k: usize = self.nodes[id].position + 1;
        while k < children.len()
            invariant
                self.wf(),
                parent < self@.len(),
                children@ == self@[parent as int].children@,
                0 <= k <= children.len(),
                next_named_sibling(self@, id as int) == named_from(self@, children@, k as int),
            decreases children.len() - k,
        {
            let c = children[k];
            proof {
                assert(node_ok(self@, parent as int));
                assert(child_ok(self@, parent as int, k as int));
            }
            if self.nodes[c].named {
                return Some(c);
            }
            k += 1;
        }
        None
    }

    /// The previous named sibling of node `id`.
    pub fn prev_named_sibling(&self, id: usize) -> (r: Option<usize>)
        requires
            self.wf(),
        ensures
            r == prev_named_sibling(self@, id as int),
            r matches Some(c) ==> c < self@.len(),
    {
        if id >= self.nodes.len() {
            return None;
        }
        let parent = match self.nodes[id].parent {
            Some(parent) => parent,
            None => return None,
        };
        proof {
            assert(node_ok(self@, id as int));
        }
        let children = &self.nodes[parent].children;
        let mut k: usize = self.nodes[id].position;
        while k > 0
            invariant
                self.wf(),
                parent < self@.len(),
                children@ == self@[parent as int].children@,
                0 <= k <= children.len(),
                prev_named_sibling(self@, id as int) == named_upto(self@, children@, k - 1),
            decreases k,
        {
            let c = children[k - 1];
            proof {
                assert(node_ok(self@, parent as int));
                assert(child_ok(self@, parent as int, k - 1));
            }
            if self.nodes[c].named {
                return Some(c);
            }
            k -= 1;
        }
        None
    }
}

} // verus!
