//! Intrusive red-black tree.
//!
//! The tree keeps its links inside the entities of a caller-owned arena and
//! allocates nothing. An entity is named by its slot in the arena, and the slot
//! is also the tie-breaker between equal keys, so the ordering is total.

use core::marker::PhantomData;
use vstd::prelude::*;

verus! {

#[derive(Clone, Copy, Debug, PartialEq, Eq, Structural)]
pub enum Color {
    Red,
    Black,
}

/// Red-black tree links embedded inside an owning entity.
#[derive(Clone, Copy, Debug, PartialEq, Eq, Structural)]
pub struct RbNode {
    pub parent: Option<usize>,
    pub left: Option<usize>,
    pub right: Option<usize>,
    pub color: Color,
}

impl RbNode {
    /// The links of an entity that belongs to no tree.
    pub open spec fn detached() -> RbNode {
        RbNode { parent: None, left: None, right: None, color: Color::Red }
    }

    pub fn new() -> (node: Self)
        ensures
            node == Self::detached(),
    {
        Self { parent: None, left: None, right: None, color: Color::Red }
    }

    pub fn reset_links(&mut self)
        ensures
            *final(self) == Self::detached(),
    {
        self.parent = None;
        self.left = None;
        self.right = None;
        self.color = Color::Red;
    }

    /// Whether some link of the node is set. The only node of a tree has none.
    pub fn is_linked(&self) -> (linked: bool)
        ensures
            linked == (self.parent is Some || self.left is Some || self.right is Some),
    {
        self.parent.is_some() || self.left.is_some() || self.right.is_some()
    }
}

impl Default for RbNode {
    fn default() -> (node: Self)
        ensures
            node == Self::detached(),
    {
        Self::new()
    }
}

/// Entity contract for using `RBTree`.
pub trait RBTreeNode: Sized {
    /// Everything the entity holds besides its links.
    type Payload;

    spec fn links(&self) -> RbNode;

    spec fn payload(&self) -> Self::Payload;

    /// Primary and secondary ordering key.
    spec fn rank(payload: Self::Payload) -> (int, int);

    fn node(&self) -> (node: RbNode)
        ensures
            node == self.links(),
    ;

    fn set_node(&mut self, node: RbNode)
        ensures
            final(self).links() == node,
            final(self).payload() == old(self).payload(),
    ;

    fn key(&self) -> (key: (u64, u32))
        ensures
            key.0 == Self::rank(self.payload()).0,
            key.1 == Self::rank(self.payload()).1,
    ;
}

/// What the entities of an arena hold besides their links.
pub open spec fn payloads<T: RBTreeNode>(arena: Seq<T>) -> Seq<T::Payload> {
    Seq::new(arena.len(), |i: int| arena[i].payload())
}

/// The links of the entities of an arena.
pub open spec fn links<T: RBTreeNode>(arena: Seq<T>) -> Seq<RbNode> {
    Seq::new(arena.len(), |i: int| arena[i].links())
}

/// Strict total order of slots: by key, then by slot.
pub open spec fn before<T: RBTreeNode>(data: Seq<T::Payload>, a: usize, b: usize) -> bool {
    let x = T::rank(data[a as int]);
    let y = T::rank(data[b as int]);
    x.0 < y.0 || (x.0 == y.0 && (x.1 < y.1 || (x.1 == y.1 && a < b)))
}

/// `slot` is the least element of `ids`.
pub open spec fn is_first<T: RBTreeNode>(
    data: Seq<T::Payload>,
    ids: Set<usize>,
    slot: usize,
) -> bool {
    &&& ids.contains(slot)
    &&& forall|i: usize| #[trigger] ids.contains(i) && i != slot ==> before::<T>(data, slot, i)
}

/// The least element of `ids`, if there is one.
pub open spec fn first_of<T: RBTreeNode>(data: Seq<T::Payload>, ids: Set<usize>) -> Option<usize> {
    if exists|i: usize| is_first::<T>(data, ids, i) {
        Some(choose|i: usize| is_first::<T>(data, ids, i))
    } else {
        None
    }
}

/// `slot` is the greatest element of `ids`.
pub open spec fn is_last<T: RBTreeNode>(
    data: Seq<T::Payload>,
    ids: Set<usize>,
    slot: usize,
) -> bool {
    &&& ids.contains(slot)
    &&& forall|i: usize| #[trigger] ids.contains(i) && i != slot ==> before::<T>(data, i, slot)
}

/// `order` lists the slots in strictly ascending order.
pub open spec fn ascending<T: RBTreeNode>(data: Seq<T::Payload>, order: Seq<usize>) -> bool {
    forall|j: int, k: int|
        0 <= j < k < order.len() ==> before::<T>(data, #[trigger] order[j], #[trigger] order[k])
}

/// `order` lists the elements of `ids` in ascending order.
pub open spec fn lists<T: RBTreeNode>(
    data: Seq<T::Payload>,
    ids: Set<usize>,
    order: Seq<usize>,
) -> bool {
    &&& ascending::<T>(data, order)
    &&& forall|i: usize| #[trigger] ids.contains(i) <==> order.contains(i)
}

/// The elements of `ids` in ascending order.
pub open spec fn in_order<T: RBTreeNode>(data: Seq<T::Payload>, ids: Set<usize>) -> Seq<usize> {
    choose|order: Seq<usize>| lists::<T>(data, ids, order)
}

/// Stretch of the in-order sequence that the subtree of a node covers: it runs
/// from `lo` up to `hi`, with the node itself at `pos`.
pub struct Span {
    pub lo: int,
    pub pos: int,
    pub hi: int,
}

/// In-order sequence of a tree and the span of each of its nodes.
pub struct Shape {
    pub order: Seq<usize>,
    pub span: Map<usize, Span>,
}

impl Shape {
    pub open spec fn has(self, i: usize) -> bool {
        self.span.dom().contains(i)
    }

    pub open spec fn width(self, i: usize) -> int {
        self.span[i].hi - self.span[i].lo
    }
}

pub open spec fn span_ok(nodes: Seq<RbNode>, s: Shape, i: usize) -> bool {
    &&& i < nodes.len()
    &&& 0 <= s.span[i].lo <= s.span[i].pos < s.span[i].hi <= s.order.len()
    &&& s.order[s.span[i].pos] == i
}

pub open spec fn left_ok(nodes: Seq<RbNode>, s: Shape, i: usize) -> bool {
    match nodes[i as int].left {
        None => s.span[i].lo == s.span[i].pos,
        Some(l) => {
            &&& s.has(l)
            &&& nodes[l as int].parent == Some(i)
            &&& s.span[l].lo == s.span[i].lo
            &&& s.span[l].hi == s.span[i].pos
        },
    }
}

pub open spec fn right_ok(nodes: Seq<RbNode>, s: Shape, i: usize) -> bool {
    match nodes[i as int].right {
        None => s.span[i].pos + 1 == s.span[i].hi,
        Some(r) => {
            &&& s.has(r)
            &&& nodes[r as int].parent == Some(i)
            &&& s.span[r].lo == s.span[i].pos + 1
            &&& s.span[r].hi == s.span[i].hi
        },
    }
}

pub open spec fn parent_ok(
    nodes: Seq<RbNode>,
    root: Option<usize>,
    s: Shape,
    i: usize,
) -> bool {
    match nodes[i as int].parent {
        None => {
            &&& root == Some(i)
            &&& s.span[i].lo == 0
            &&& s.span[i].hi == s.order.len()
        },
        Some(p) => {
            &&& s.has(p)
            &&& nodes[p as int].left == Some(i) || nodes[p as int].right == Some(i)
        },
    }
}

/// Local consistency of one node: its span, its children and its parent.
pub open spec fn node_ok(nodes: Seq<RbNode>, root: Option<usize>, s: Shape, i: usize) -> bool {
    &&& span_ok(nodes, s, i)
    &&& left_ok(nodes, s, i)
    &&& right_ok(nodes, s, i)
    &&& parent_ok(nodes, root, s, i)
}

/// The links below `root` form the binary tree that `s` describes.
pub open spec fn linked(nodes: Seq<RbNode>, root: Option<usize>, s: Shape) -> bool {
    &&& forall|i: usize| s.has(i) ==> #[trigger] node_ok(nodes, root, s, i)
    &&& forall|k: int|
        0 <= k < s.order.len() ==> s.has(#[trigger] s.order[k]) && s.span[s.order[k]].pos == k
    &&& match root {
        None => s.order.len() == 0,
        Some(r) => s.has(r) && nodes[r as int].parent is None,
    }
}

pub open spec fn color_at(nodes: Seq<RbNode>, i: Option<usize>) -> Color {
    match i {
        None => Color::Black,
        Some(i) => nodes[i as int].color,
    }
}

pub open spec fn height_at(bh: Map<usize, int>, i: Option<usize>) -> int {
    match i {
        None => 0,
        Some(i) => bh[i],
    }
}

pub open spec fn blackness(color: Color) -> int {
    if color == Color::Black {
        1
    } else {
        0
    }
}

/// Both subtrees of the node have the same number of black nodes on each path.
pub open spec fn balanced_at(nodes: Seq<RbNode>, bh: Map<usize, int>, i: usize) -> bool {
    let n = nodes[i as int];
    &&& height_at(bh, n.left) == height_at(bh, n.right)
    &&& bh[i] == height_at(bh, n.left) + blackness(n.color)
    &&& height_at(bh, n.left) >= 0
}

/// A red node has black children.
pub open spec fn red_at(nodes: Seq<RbNode>, i: usize) -> bool {
    let n = nodes[i as int];
    n.color == Color::Red ==> color_at(nodes, n.left) == Color::Black && color_at(nodes, n.right)
        == Color::Black
}

/// The red-black rules of the whole tree.
pub open spec fn colored(
    nodes: Seq<RbNode>,
    root: Option<usize>,
    s: Shape,
    bh: Map<usize, int>,
) -> bool {
    &&& forall|i: usize| s.has(i) ==> #[trigger] balanced_at(nodes, bh, i)
    &&& forall|i: usize| s.has(i) ==> #[trigger] red_at(nodes, i)
    &&& color_at(nodes, root) == Color::Black
}

/// Red-black tree over the entities of an arena.
pub struct RBTree<T: RBTreeNode> {
    pub root: Option<usize>,
    pub len: usize,
    pub shape: Ghost<Shape>,
    pub heights: Ghost<Map<usize, int>>,
    pub entity: PhantomData<T>,
}

impl<T: RBTreeNode> RBTree<T> {
    /// The tree obeys the red-black rules and lists its entities in order.
    pub open spec fn wf(&self, arena: Seq<T>) -> bool {
        &&& linked(links(arena), self.root, self.shape@)
        &&& colored(links(arena), self.root, self.shape@, self.heights@)
        &&& ascending::<T>(payloads(arena), self.shape@.order)
        &&& self.len == self.shape@.order.len()
    }

    /// Slots of the queued entities.
    pub open spec fn ids(&self) -> Set<usize> {
        self.shape@.span.dom()
    }

    /// Slots of the queued entities in ascending order.
    pub open spec fn order(&self) -> Seq<usize> {
        self.shape@.order
    }
}

/// Nodes agree on everything but their colors.
pub open spec fn same_links(a: Seq<RbNode>, b: Seq<RbNode>) -> bool {
    &&& a.len() == b.len()
    &&& forall|i: int|
        0 <= i < a.len() ==> (#[trigger] b[i]).parent == a[i].parent && b[i].left == a[i].left
            && b[i].right == a[i].right
}

proof fn lemma_recolor(a: Seq<RbNode>, b: Seq<RbNode>, root: Option<usize>, s: Shape)
    requires
        linked(a, root, s),
        same_links(a, b),
    ensures
        linked(b, root, s),
{
    assert forall|i: usize| s.has(i) implies #[trigger] node_ok(b, root, s, i) by {
        assert(node_ok(a, root, s, i));
        if let Some(l) = a[i as int].left {
            assert(node_ok(a, root, s, l));
            assert(b[l as int].parent == a[l as int].parent);
        }
        if let Some(r) = a[i as int].right {
            assert(node_ok(a, root, s, r));
            assert(b[r as int].parent == a[r as int].parent);
        }
        if let Some(p) = a[i as int].parent {
            assert(node_ok(a, root, s, p));
            assert(b[p as int].left == a[p as int].left);
        }
        assert(b[i as int].parent == a[i as int].parent);
    }
    if let Some(r) = root {
        assert(node_ok(a, root, s, r));
        assert(b[r as int].parent == a[r as int].parent);
    }
}

/// `b` is `a` after the left rotation at `x`, whose right child is `y`.
spec fn rotated_left(
    a: Seq<RbNode>,
    ra: Option<usize>,
    b: Seq<RbNode>,
    rb: Option<usize>,
    x: usize,
    y: usize,
) -> bool {
    let p = a[x as int].parent;
    let m = a[y as int].left;
    &&& b.len() == a.len()
    &&& b[x as int] == (RbNode { parent: Some(y), right: m, ..a[x as int] })
    &&& b[y as int] == (RbNode { parent: p, left: Some(x), ..a[y as int] })
    &&& forall|i: usize|
        #![trigger b[i as int]]
        i < a.len() && i != x && i != y ==> b[i as int] == (RbNode {
            parent: if m == Some(i) { Some(x) } else { a[i as int].parent },
            left: if p == Some(i) && a[i as int].left == Some(x) { Some(y) } else { a[i as int].left },
            right: if p == Some(i) && a[i as int].left != Some(x) {
                Some(y)
            } else {
                a[i as int].right
            },
            color: a[i as int].color,
        })
    &&& rb == if p is None { Some(y) } else { ra }
}

/// `b` is `a` after the right rotation at `y`, whose left child is `x`.
spec fn rotated_right(
    a: Seq<RbNode>,
    ra: Option<usize>,
    b: Seq<RbNode>,
    rb: Option<usize>,
    y: usize,
    x: usize,
) -> bool {
    let p = a[y as int].parent;
    let m = a[x as int].right;
    &&& b.len() == a.len()
    &&& b[y as int] == (RbNode { parent: Some(x), left: m, ..a[y as int] })
    &&& b[x as int] == (RbNode { parent: p, right: Some(y), ..a[x as int] })
    &&& forall|i: usize|
        #![trigger b[i as int]]
        i < a.len() && i != x && i != y ==> b[i as int] == (RbNode {
            parent: if m == Some(i) { Some(y) } else { a[i as int].parent },
            left: if p == Some(i) && a[i as int].right != Some(y) {
                Some(x)
            } else {
                a[i as int].left
            },
            right: if p == Some(i) && a[i as int].right == Some(y) {
                Some(x)
            } else {
                a[i as int].right
            },
            color: a[i as int].color,
        })
    &&& rb == if p is None { Some(x) } else { ra }
}

/// Spans after the left rotation at `x`.
spec fn shape_left(s: Shape, x: usize, y: usize) -> Shape {
    let sx = s.span[x];
    let sy = s.span[y];
    Shape {
        order: s.order,
        span: s.span.insert(x, Span { lo: sx.lo, pos: sx.pos, hi: sy.pos }).insert(
            y,
            Span { lo: sx.lo, pos: sy.pos, hi: sy.hi },
        ),
    }
}

/// Spans after the right rotation at `y`.
spec fn shape_right(s: Shape, y: usize, x: usize) -> Shape {
    let sx = s.span[x];
    let sy = s.span[y];
    Shape {
        order: s.order,
        span: s.span.insert(y, Span { lo: sx.pos + 1, pos: sy.pos, hi: sy.hi }).insert(
            x,
            Span { lo: sx.lo, pos: sx.pos, hi: sy.hi },
        ),
    }
}

proof fn lemma_rotate_left(
    a: Seq<RbNode>,
    ra: Option<usize>,
    b: Seq<RbNode>,
    rb: Option<usize>,
    s: Shape,
    x: usize,
    y: usize,
)
    requires
        linked(a, ra, s),
        s.has(x),
        a[x as int].right == Some(y),
        rotated_left(a, ra, b, rb, x, y),
    ensures
        linked(b, rb, shape_left(s, x, y)),
        shape_left(s, x, y).span.dom() == s.span.dom(),
{
    let t = shape_left(s, x, y);
    assert(node_ok(a, ra, s, x));
    assert(node_ok(a, ra, s, y));
    assert(t.span.dom() =~= s.span.dom());
    assert forall|i: usize| t.has(i) implies #[trigger] node_ok(b, rb, t, i) by {
        assert(node_ok(a, ra, s, i));
        if let Some(l) = a[i as int].left {
            assert(node_ok(a, ra, s, l));
        }
        if let Some(r) = a[i as int].right {
            assert(node_ok(a, ra, s, r));
        }
        if let Some(p) = a[i as int].parent {
            assert(node_ok(a, ra, s, p));
        }
        if let Some(m) = a[y as int].left {
            assert(node_ok(a, ra, s, m));
        }
        if let Some(p) = a[x as int].parent {
            assert(node_ok(a, ra, s, p));
        }
        assert(b[i as int].color == a[i as int].color);
        if let Some(l) = b[i as int].left {
            assert(b[l as int].color == a[l as int].color);
        }
        if let Some(r) = b[i as int].right {
            assert(b[r as int].color == a[r as int].color);
        }
        if let Some(p) = b[i as int].parent {
            assert(b[p as int].color == a[p as int].color);
        }
    }
    if let Some(r) = rb {
        assert(node_ok(b, rb, t, r));
        if a[x as int].parent is Some {
            assert(node_ok(a, ra, s, r));
        }
    }
}

proof fn lemma_rotate_right(
    a: Seq<RbNode>,
    ra: Option<usize>,
    b: Seq<RbNode>,
    rb: Option<usize>,
    s: Shape,
    y: usize,
    x: usize,
)
    requires
        linked(a, ra, s),
        s.has(y),
        a[y as int].left == Some(x),
        rotated_right(a, ra, b, rb, y, x),
    ensures
        linked(b, rb, shape_right(s, y, x)),
        shape_right(s, y, x).span.dom() == s.span.dom(),
{
    let t = shape_right(s, y, x);
    assert(node_ok(a, ra, s, y));
    assert(node_ok(a, ra, s, x));
    assert(t.span.dom() =~= s.span.dom());
    assert forall|i: usize| t.has(i) implies #[trigger] node_ok(b, rb, t, i) by {
        assert(node_ok(a, ra, s, i));
        if let Some(l) = a[i as int].left {
            assert(node_ok(a, ra, s, l));
        }
        if let Some(r) = a[i as int].right {
            assert(node_ok(a, ra, s, r));
        }
        if let Some(p) = a[i as int].parent {
            assert(node_ok(a, ra, s, p));
        }
        if let Some(m) = a[x as int].right {
            assert(node_ok(a, ra, s, m));
        }
        if let Some(p) = a[y as int].parent {
            assert(node_ok(a, ra, s, p));
        }
        assert(b[i as int].color == a[i as int].color);
        if let Some(l) = b[i as int].left {
            assert(b[l as int].color == a[l as int].color);
        }
        if let Some(r) = b[i as int].right {
            assert(b[r as int].color == a[r as int].color);
        }
        if let Some(p) = b[i as int].parent {
            assert(b[p as int].color == a[p as int].color);
        }
    }
    if let Some(r) = rb {
        assert(node_ok(b, rb, t, r));
        if a[y as int].parent is Some {
            assert(node_ok(a, ra, s, r));
        }
    }
}

fn node_at<T: RBTreeNode>(arena: &Vec<T>, i: usize) -> (node: RbNode)
    requires
        i < arena.len(),
    ensures
        node == links(arena@)[i as int],
{
    arena[i].node()
}

fn set_node_at<T: RBTreeNode>(arena: &mut Vec<T>, i: usize, node: RbNode)
    requires
        i < old(arena).len(),
    ensures
        links(final(arena)@) == links(old(arena)@).update(i as int, node),
        payloads(final(arena)@) == payloads(old(arena)@),
        final(arena).len() == old(arena).len(),
{
    arena[i].set_node(node);
    assert(links(arena@) =~= links(old(arena)@).update(i as int, node));
    assert(payloads(arena@) =~= payloads(old(arena)@));
}

fn set_color<T: RBTreeNode>(arena: &mut Vec<T>, i: usize, color: Color)
    requires
        i < old(arena).len(),
    ensures
        links(final(arena)@) == links(old(arena)@).update(
            i as int,
            (RbNode { color, ..links(old(arena)@)[i as int] }),
        ),
        same_links(links(old(arena)@), links(final(arena)@)),
        payloads(final(arena)@) == payloads(old(arena)@),
        final(arena).len() == old(arena).len(),
{
    let mut node = node_at(arena, i);
    node.color = color;
    set_node_at(arena, i, node);
}

fn set_parent<T: RBTreeNode>(arena: &mut Vec<T>, i: usize, parent: Option<usize>)
    requires
        i < old(arena).len(),
    ensures
        links(final(arena)@) == links(old(arena)@).update(
            i as int,
            (RbNode { parent, ..links(old(arena)@)[i as int] }),
        ),
        payloads(final(arena)@) == payloads(old(arena)@),
        final(arena).len() == old(arena).len(),
{
    let mut node = node_at(arena, i);
    node.parent = parent;
    set_node_at(arena, i, node);
}

fn set_left<T: RBTreeNode>(arena: &mut Vec<T>, i: usize, left: Option<usize>)
    requires
        i < old(arena).len(),
    ensures
        links(final(arena)@) == links(old(arena)@).update(
            i as int,
            (RbNode { left, ..links(old(arena)@)[i as int] }),
        ),
        payloads(final(arena)@) == payloads(old(arena)@),
        final(arena).len() == old(arena).len(),
{
    let mut node = node_at(arena, i);
    node.left = left;
    set_node_at(arena, i, node);
}

fn set_right<T: RBTreeNode>(arena: &mut Vec<T>, i: usize, right: Option<usize>)
    requires
        i < old(arena).len(),
    ensures
        links(final(arena)@) == links(old(arena)@).update(
            i as int,
            (RbNode { right, ..links(old(arena)@)[i as int] }),
        ),
        payloads(final(arena)@) == payloads(old(arena)@),
        final(arena).len() == old(arena).len(),
{
    let mut node = node_at(arena, i);
    node.right = right;
    set_node_at(arena, i, node);
}

impl<T: RBTreeNode> RBTree<T> {
    fn left_rotate(&mut self, arena: &mut Vec<T>, x: usize)
        requires
            linked(links(old(arena)@), old(self).root, old(self).shape@),
            old(self).shape@.has(x),
            links(old(arena)@)[x as int].right is Some,
        ensures
            ({
                let y = links(old(arena)@)[x as int].right->0;
                &&& rotated_left(
                    links(old(arena)@),
                    old(self).root,
                    links(final(arena)@),
                    final(self).root,
                    x,
                    y,
                )
                &&& final(self).shape@ == shape_left(old(self).shape@, x, y)
            }),
            linked(links(final(arena)@), final(self).root, final(self).shape@),
            final(self).shape@.span.dom() == old(self).shape@.span.dom(),
            payloads(final(arena)@) == payloads(old(arena)@),
            final(arena).len() == old(arena).len(),
            final(self).len == old(self).len,
            final(self).heights == old(self).heights,
    {
        let ghost a = links(arena@);
        let ghost ra = self.root;
        let ghost s = self.shape@;
        proof {
            assert(node_ok(a, ra, s, x));
            assert(node_ok(a, ra, s, a[x as int].right->0));
        }
        let nx = node_at(arena, x);
        let y: usize = nx.right.unwrap();
        let ny = node_at(arena, y);
        proof {
            if let Some(m) = a[y as int].left {
                assert(node_ok(a, ra, s, m));
            }
            if let Some(p) = a[x as int].parent {
                assert(node_ok(a, ra, s, p));
            }
        }
        set_right(arena, x, ny.left);
        if let Some(m) = ny.left {
            set_parent(arena, m, Some(x));
        }
        set_parent(arena, y, nx.parent);
        match nx.parent {
            None => {
                self.root = Some(y);
            },
            Some(p) => {
                if node_at(arena, p).left == Some(x) {
                    set_left(arena, p, Some(y));
                } else {
                    set_right(arena, p, Some(y));
                }
            },
        }
        set_left(arena, y, Some(x));
        set_parent(arena, x, Some(y));
        proof {
            lemma_rotate_left(a, ra, links(arena@), self.root, s, x, y);
        }
        self.shape = Ghost(shape_left(s, x, y));
    }

    fn right_rotate(&mut self, arena: &mut Vec<T>, y: usize)
        requires
            linked(links(old(arena)@), old(self).root, old(self).shape@),
            old(self).shape@.has(y),
            links(old(arena)@)[y as int].left is Some,
        ensures
            ({
                let x = links(old(arena)@)[y as int].left->0;
                &&& rotated_right(
                    links(old(arena)@),
                    old(self).root,
                    links(final(arena)@),
                    final(self).root,
                    y,
                    x,
                )
                &&& final(self).shape@ == shape_right(old(self).shape@, y, x)
            }),
            linked(links(final(arena)@), final(self).root, final(self).shape@),
            final(self).shape@.span.dom() == old(self).shape@.span.dom(),
            payloads(final(arena)@) == payloads(old(arena)@),
            final(arena).len() == old(arena).len(),
            final(self).len == old(self).len,
            final(self).heights == old(self).heights,
    {
        let ghost a = links(arena@);
        let ghost ra = self.root;
        let ghost s = self.shape@;
        proof {
            assert(node_ok(a, ra, s, y));
            assert(node_ok(a, ra, s, a[y as int].left->0));
        }
        let ny = node_at(arena, y);
        let x: usize = ny.left.unwrap();
        let nx = node_at(arena, x);
        proof {
            if let Some(m) = a[x as int].right {
                assert(node_ok(a, ra, s, m));
            }
            if let Some(p) = a[y as int].parent {
                assert(node_ok(a, ra, s, p));
            }
        }
        set_left(arena, y, nx.right);
        if let Some(m) = nx.right {
            set_parent(arena, m, Some(y));
        }
        set_parent(arena, x, ny.parent);
        match ny.parent {
            None => {
                self.root = Some(x);
            },
            Some(p) => {
                if node_at(arena, p).right == Some(y) {
                    set_right(arena, p, Some(x));
                } else {
                    set_left(arena, p, Some(x));
                }
            },
        }
        set_right(arena, x, Some(y));
        set_parent(arena, y, Some(x));
        proof {
            lemma_rotate_right(a, ra, links(arena@), self.root, s, y, x);
        }
        self.shape = Ghost(shape_right(s, y, x));
    }
}

/// A red node has black children, the child `x` aside.
spec fn red_but(nodes: Seq<RbNode>, i: usize, x: Option<usize>) -> bool {
    let n = nodes[i as int];
    n.color == Color::Red ==> {
        &&& color_at(nodes, n.left) == Color::Black || (n.left is Some && n.left == x)
        &&& color_at(nodes, n.right) == Color::Black || (n.right is Some && n.right == x)
    }
}

/// Invariant of the walk after an insertion: the rules hold, except that the
/// red node `z` may be the root or have a red parent.
spec fn insert_inv(
    nodes: Seq<RbNode>,
    root: Option<usize>,
    s: Shape,
    bh: Map<usize, int>,
    z: usize,
) -> bool {
    &&& linked(nodes, root, s)
    &&& s.has(z)
    &&& nodes[z as int].color == Color::Red
    &&& forall|i: usize| s.has(i) ==> #[trigger] balanced_at(nodes, bh, i)
    &&& forall|i: usize| s.has(i) ==> #[trigger] red_but(nodes, i, Some(z))
    &&& color_at(nodes, root) == Color::Black || root == Some(z)
}

spec fn with_color(nodes: Seq<RbNode>, i: usize, color: Color) -> Seq<RbNode> {
    nodes.update(i as int, RbNode { color, ..nodes[i as int] })
}

/// A red parent and a red uncle become black, the grandparent becomes red.
proof fn lemma_insert_recolor(
    a: Seq<RbNode>,
    root: Option<usize>,
    s: Shape,
    bh: Map<usize, int>,
    z: usize,
    p: usize,
    u: usize,
    g: usize,
)
    requires
        insert_inv(a, root, s, bh, z),
        a[z as int].parent == Some(p),
        a[p as int].parent == Some(g),
        a[p as int].color == Color::Red,
        a[u as int].color == Color::Red,
        (a[g as int].left == Some(p) && a[g as int].right == Some(u)) || (a[g as int].left == Some(
            u,
        ) && a[g as int].right == Some(p)),
    ensures
        insert_inv(
            with_color(
                with_color(with_color(a, p, Color::Black), u, Color::Black),
                g,
                Color::Red,
            ),
            root,
            s,
            bh.insert(p, bh[p] + 1).insert(u, bh[u] + 1),
            g,
        ),
        s.width(g) > s.width(z),
{
    let b = with_color(with_color(with_color(a, p, Color::Black), u, Color::Black), g, Color::Red);
    let bh2 = bh.insert(p, bh[p] + 1).insert(u, bh[u] + 1);
    assert(node_ok(a, root, s, z));
    assert(node_ok(a, root, s, p));
    assert(node_ok(a, root, s, g));
    assert(node_ok(a, root, s, u));
    lemma_recolor(a, b, root, s);
    assert(balanced_at(a, bh, p));
    assert(balanced_at(a, bh, g));
    assert(balanced_at(a, bh, u));
    assert(red_but(a, g, Some(z)));
    assert forall|i: usize| s.has(i) implies #[trigger] balanced_at(b, bh2, i) by {
        assert(node_ok(a, root, s, i));
        assert(balanced_at(a, bh, i));
    }
    assert forall|i: usize| s.has(i) implies #[trigger] red_but(b, i, Some(g)) by {
        assert(node_ok(a, root, s, i));
        assert(red_but(a, i, Some(z)));
        if let Some(l) = a[i as int].left {
            assert(node_ok(a, root, s, l));
        }
        if let Some(r) = a[i as int].right {
            assert(node_ok(a, root, s, r));
        }
    }
    if let Some(r) = root {
        assert(node_ok(a, root, s, r));
    }
}

/// The inner grandchild `z` of the left child `p` moves to the outside.
proof fn lemma_insert_inner_left(
    a: Seq<RbNode>,
    ra: Option<usize>,
    b: Seq<RbNode>,
    rb: Option<usize>,
    s: Shape,
    bh: Map<usize, int>,
    z: usize,
    p: usize,
    g: usize,
)
    requires
        insert_inv(a, ra, s, bh, z),
        a[z as int].parent == Some(p),
        a[p as int].parent == Some(g),
        a[p as int].right == Some(z),
        a[p as int].color == Color::Red,
        a[g as int].left == Some(p),
        a[g as int].color == Color::Black,
        color_at(a, a[g as int].right) == Color::Black,
        rotated_left(a, ra, b, rb, p, z),
    ensures
        insert_inv(b, rb, shape_left(s, p, z), bh, p),
        b[p as int].parent == Some(z),
        b[z as int].left == Some(p),
        b[z as int].parent == Some(g),
        b[z as int].color == Color::Red,
        b[g as int].left == Some(z),
        b[g as int].color == Color::Black,
        color_at(b, b[g as int].right) == Color::Black,
{
    let t = shape_left(s, p, z);
    assert(node_ok(a, ra, s, z));
    assert(node_ok(a, ra, s, p));
    assert(node_ok(a, ra, s, g));
    lemma_rotate_left(a, ra, b, rb, s, p, z);
    assert(balanced_at(a, bh, p));
    assert(balanced_at(a, bh, z));
    assert(red_but(a, p, Some(z)));
    assert(red_but(a, z, Some(z)));
    assert forall|i: usize| t.has(i) implies #[trigger] balanced_at(b, bh, i) by {
        assert(node_ok(a, ra, s, i));
        assert(balanced_at(a, bh, i));
        assert(b[i as int].color == a[i as int].color);
    }
    assert forall|i: usize| t.has(i) implies #[trigger] red_but(b, i, Some(p)) by {
        assert(node_ok(a, ra, s, i));
        assert(red_but(a, i, Some(z)));
        assert(b[i as int].color == a[i as int].color);
        if let Some(l) = b[i as int].left {
            assert(node_ok(b, rb, t, i));
            assert(node_ok(b, rb, t, l));
            assert(b[l as int].color == a[l as int].color);
        }
        if let Some(r) = b[i as int].right {
            assert(node_ok(b, rb, t, i));
            assert(node_ok(b, rb, t, r));
            assert(b[r as int].color == a[r as int].color);
        }
    }
    assert(b[g as int].color == a[g as int].color);
    if let Some(u) = a[g as int].right {
        assert(node_ok(a, ra, s, u));
        assert(b[u as int].color == a[u as int].color);
    }
    if let Some(r) = ra {
        assert(node_ok(a, ra, s, r));
        assert(b[r as int].color == a[r as int].color);
    }
}

/// The inner grandchild `z` of the right child `p` moves to the outside.
proof fn lemma_insert_inner_right(
    a: Seq<RbNode>,
    ra: Option<usize>,
    b: Seq<RbNode>,
    rb: Option<usize>,
    s: Shape,
    bh: Map<usize, int>,
    z: usize,
    p: usize,
    g: usize,
)
    requires
        insert_inv(a, ra, s, bh, z),
        a[z as int].parent == Some(p),
        a[p as int].parent == Some(g),
        a[p as int].left == Some(z),
        a[p as int].color == Color::Red,
        a[g as int].right == Some(p),
        a[g as int].color == Color::Black,
        color_at(a, a[g as int].left) == Color::Black,
        rotated_right(a, ra, b, rb, p, z),
    ensures
        insert_inv(b, rb, shape_right(s, p, z), bh, p),
        b[p as int].parent == Some(z),
        b[z as int].right == Some(p),
        b[z as int].parent == Some(g),
        b[z as int].color == Color::Red,
        b[g as int].right == Some(z),
        b[g as int].color == Color::Black,
        color_at(b, b[g as int].left) == Color::Black,
{
    let t = shape_right(s, p, z);
    assert(node_ok(a, ra, s, z));
    assert(node_ok(a, ra, s, p));
    assert(node_ok(a, ra, s, g));
    lemma_rotate_right(a, ra, b, rb, s, p, z);
    assert(balanced_at(a, bh, p));
    assert(balanced_at(a, bh, z));
    assert(red_but(a, p, Some(z)));
    assert(red_but(a, z, Some(z)));
    assert forall|i: usize| t.has(i) implies #[trigger] balanced_at(b, bh, i) by {
        assert(node_ok(a, ra, s, i));
        assert(balanced_at(a, bh, i));
        assert(b[i as int].color == a[i as int].color);
    }
    assert forall|i: usize| t.has(i) implies #[trigger] red_but(b, i, Some(p)) by {
        assert(node_ok(a, ra, s, i));
        assert(red_but(a, i, Some(z)));
        assert(b[i as int].color == a[i as int].color);
        if let Some(l) = b[i as int].left {
            assert(node_ok(b, rb, t, i));
            assert(node_ok(b, rb, t, l));
            assert(b[l as int].color == a[l as int].color);
        }
        if let Some(r) = b[i as int].right {
            assert(node_ok(b, rb, t, i));
            assert(node_ok(b, rb, t, r));
            assert(b[r as int].color == a[r as int].color);
        }
    }
    assert(b[g as int].color == a[g as int].color);
    if let Some(u) = a[g as int].left {
        assert(node_ok(a, ra, s, u));
        assert(b[u as int].color == a[u as int].color);
    }
    if let Some(r) = ra {
        assert(node_ok(a, ra, s, r));
        assert(b[r as int].color == a[r as int].color);
    }
}

/// The outer grandchild `z` on the left is lifted by a rotation at `g`.
proof fn lemma_insert_outer_left(
    a: Seq<RbNode>,
    ra: Option<usize>,
    c: Seq<RbNode>,
    rc: Option<usize>,
    s: Shape,
    bh: Map<usize, int>,
    z: usize,
    p: usize,
    g: usize,
)
    requires
        insert_inv(a, ra, s, bh, z),
        a[z as int].parent == Some(p),
        a[p as int].parent == Some(g),
        a[p as int].left == Some(z),
        a[p as int].color == Color::Red,
        a[g as int].left == Some(p),
        a[g as int].color == Color::Black,
        color_at(a, a[g as int].right) == Color::Black,
        rotated_right(
            with_color(with_color(a, p, Color::Black), g, Color::Red),
            ra,
            c,
            rc,
            g,
            p,
        ),
    ensures
        insert_inv(c, rc, shape_right(s, g, p), bh.insert(p, bh[g]).insert(g, bh[p]), z),
        c[z as int].parent == Some(p),
        c[p as int].color == Color::Black,
{
    let b = with_color(with_color(a, p, Color::Black), g, Color::Red);
    let t = shape_right(s, g, p);
    let bh2 = bh.insert(p, bh[g]).insert(g, bh[p]);
    assert(node_ok(a, ra, s, z));
    assert(node_ok(a, ra, s, p));
    assert(node_ok(a, ra, s, g));
    lemma_recolor(a, b, ra, s);
    lemma_rotate_right(b, ra, c, rc, s, g, p);
    assert(balanced_at(a, bh, p));
    assert(balanced_at(a, bh, g));
    assert(balanced_at(a, bh, z));
    assert(red_but(a, p, Some(z)));
    assert(red_but(a, z, Some(z)));
    if let Some(u) = a[g as int].right {
        assert(node_ok(a, ra, s, u));
    }
    if let Some(m) = a[p as int].right {
        assert(node_ok(a, ra, s, m));
    }
    assert forall|i: usize| t.has(i) implies #[trigger] balanced_at(c, bh2, i) by {
        assert(node_ok(a, ra, s, i));
        assert(balanced_at(a, bh, i));
        assert(c[i as int].color == b[i as int].color);
        if let Some(l) = a[i as int].left {
            assert(node_ok(a, ra, s, l));
        }
        if let Some(r) = a[i as int].right {
            assert(node_ok(a, ra, s, r));
        }
    }
    assert forall|i: usize| t.has(i) implies #[trigger] red_but(c, i, Some(z)) by {
        assert(node_ok(a, ra, s, i));
        assert(red_but(a, i, Some(z)));
        assert(c[i as int].color == b[i as int].color);
        assert(node_ok(c, rc, t, i));
        if let Some(l) = c[i as int].left {
            assert(node_ok(c, rc, t, l));
            assert(c[l as int].color == b[l as int].color);
        }
        if let Some(r) = c[i as int].right {
            assert(node_ok(c, rc, t, r));
            assert(c[r as int].color == b[r as int].color);
        }
    }
    assert(c[z as int].color == b[z as int].color);
    if let Some(r) = ra {
        assert(node_ok(a, ra, s, r));
        assert(c[r as int].color == b[r as int].color);
    }
}

/// The outer grandchild `z` on the right is lifted by a rotation at `g`.
proof fn lemma_insert_outer_right(
    a: Seq<RbNode>,
    ra: Option<usize>,
    c: Seq<RbNode>,
    rc: Option<usize>,
    s: Shape,
    bh: Map<usize, int>,
    z: usize,
    p: usize,
    g: usize,
)
    requires
        insert_inv(a, ra, s, bh, z),
        a[z as int].parent == Some(p),
        a[p as int].parent == Some(g),
        a[p as int].right == Some(z),
        a[p as int].color == Color::Red,
        a[g as int].right == Some(p),
        a[g as int].color == Color::Black,
        color_at(a, a[g as int].left) == Color::Black,
        rotated_left(
            with_color(with_color(a, p, Color::Black), g, Color::Red),
            ra,
            c,
            rc,
            g,
            p,
        ),
    ensures
        insert_inv(c, rc, shape_left(s, g, p), bh.insert(p, bh[g]).insert(g, bh[p]), z),
        c[z as int].parent == Some(p),
        c[p as int].color == Color::Black,
{
    let b = with_color(with_color(a, p, Color::Black), g, Color::Red);
    let t = shape_left(s, g, p);
    let bh2 = bh.insert(p, bh[g]).insert(g, bh[p]);
    assert(node_ok(a, ra, s, z));
    assert(node_ok(a, ra, s, p));
    assert(node_ok(a, ra, s, g));
    lemma_recolor(a, b, ra, s);
    lemma_rotate_left(b, ra, c, rc, s, g, p);
    assert(balanced_at(a, bh, p));
    assert(balanced_at(a, bh, g));
    assert(balanced_at(a, bh, z));
    assert(red_but(a, p, Some(z)));
    assert(red_but(a, z, Some(z)));
    if let Some(u) = a[g as int].left {
        assert(node_ok(a, ra, s, u));
    }
    if let Some(m) = a[p as int].left {
        assert(node_ok(a, ra, s, m));
    }
    assert forall|i: usize| t.has(i) implies #[trigger] balanced_at(c, bh2, i) by {
        assert(node_ok(a, ra, s, i));
        assert(balanced_at(a, bh, i));
        assert(c[i as int].color == b[i as int].color);
        if let Some(l) = a[i as int].left {
            assert(node_ok(a, ra, s, l));
        }
        if let Some(r) = a[i as int].right {
            assert(node_ok(a, ra, s, r));
        }
    }
    assert forall|i: usize| t.has(i) implies #[trigger] red_but(c, i, Some(z)) by {
        assert(node_ok(a, ra, s, i));
        assert(red_but(a, i, Some(z)));
        assert(c[i as int].color == b[i as int].color);
        assert(node_ok(c, rc, t, i));
        if let Some(l) = c[i as int].left {
            assert(node_ok(c, rc, t, l));
            assert(c[l as int].color == b[l as int].color);
        }
        if let Some(r) = c[i as int].right {
            assert(node_ok(c, rc, t, r));
            assert(c[r as int].color == b[r as int].color);
        }
    }
    assert(c[z as int].color == b[z as int].color);
    if let Some(r) = ra {
        assert(node_ok(a, ra, s, r));
        assert(c[r as int].color == b[r as int].color);
    }
}

impl<T: RBTreeNode> RBTree<T> {
    fn color_of(arena: &Vec<T>, node: Option<usize>) -> (color: Color)
        requires
            node is Some ==> node->0 < arena.len(),
        ensures
            color == color_at(links(arena@), node),
    {
        match node {
            None => Color::Black,
            Some(i) => node_at(arena, i).color,
        }
    }

    fn insert_fixup(&mut self, arena: &mut Vec<T>, entity: usize)
        requires
            insert_inv(
                links(old(arena)@),
                old(self).root,
                old(self).shape@,
                old(self).heights@,
                entity,
            ),
        ensures
            linked(links(final(arena)@), final(self).root, final(self).shape@),
            colored(
                links(final(arena)@),
                final(self).root,
                final(self).shape@,
                final(self).heights@,
            ),
            final(self).shape@.order == old(self).shape@.order,
            final(self).shape@.span.dom() == old(self).shape@.span.dom(),
            forall|i: usize|
                i < old(arena).len() && !old(self).shape@.has(i) ==> #[trigger] links(
                    final(arena)@,
                )[i as int] == links(old(arena)@)[i as int],
            payloads(final(arena)@) == payloads(old(arena)@),
            final(arena).len() == old(arena).len(),
            final(self).len == old(self).len,
    {
        let mut z: usize = entity;
        proof {
            assert(node_ok(links(arena@), self.root, self.shape@, z));
            if let Some(p) = links(arena@)[z as int].parent {
                assert(node_ok(links(arena@), self.root, self.shape@, p));
            }
        }
        while Self::color_of(arena, node_at(arena, z).parent) == Color::Red
            invariant
                insert_inv(links(arena@), self.root, self.shape@, self.heights@, z),
                z < arena.len(),
                links(arena@)[z as int].parent is Some ==> links(arena@)[z as int].parent->0
                    < arena.len(),
                self.shape@.order == old(self).shape@.order,
                self.shape@.span.dom() == old(self).shape@.span.dom(),
                forall|i: usize|
                    i < arena.len() && !old(self).shape@.has(i) ==> #[trigger] links(
                        arena@,
                    )[i as int] == links(old(arena)@)[i as int],
                payloads(arena@) == payloads(old(arena)@),
                arena.len() == old(arena).len(),
                self.len == old(self).len,
            decreases
                    (if color_at(links(arena@), links(arena@)[z as int].parent) == Color::Red {
                        1int
                    } else {
                        0int
                    }),
                    self.shape@.order.len() - self.shape@.width(z),
        {
            let ghost a = links(arena@);
            let ghost ra = self.root;
            let ghost s = self.shape@;
            let ghost bh = self.heights@;
            proof {
                assert(node_ok(a, ra, s, z));
                assert(node_ok(a, ra, s, a[z as int].parent->0));
                assert(node_ok(a, ra, s, a[a[z as int].parent->0 as int].parent->0));
                assert(red_but(a, a[a[z as int].parent->0 as int].parent->0, Some(z)));
            }
            let parent: usize = node_at(arena, z).parent.unwrap();
            let grandparent: usize = node_at(arena, parent).parent.unwrap();
            let top = node_at(arena, grandparent);
            proof {
                if let Some(l) = top.left {
                    assert(node_ok(a, ra, s, l));
                }
                if let Some(r) = top.right {
                    assert(node_ok(a, ra, s, r));
                }
            }
            if top.left == Some(parent) {
                let uncle = top.right;
                if Self::color_of(arena, uncle) == Color::Red {
                    let uncle: usize = uncle.unwrap();
                    set_color(arena, parent, Color::Black);
                    set_color(arena, uncle, Color::Black);
                    set_color(arena, grandparent, Color::Red);
                    proof {
                        lemma_insert_recolor(a, ra, s, bh, z, parent, uncle, grandparent);
                        self.heights@ = bh.insert(parent, bh[parent] + 1).insert(
                            uncle,
                            bh[uncle] + 1,
                        );
                    }
                    z = grandparent;
                } else {
                    if node_at(arena, parent).right == Some(z) {
                        self.left_rotate(arena, parent);
                        proof {
                            lemma_insert_inner_left(
                                a,
                                ra,
                                links(arena@),
                                self.root,
                                s,
                                bh,
                                z,
                                parent,
                                grandparent,
                            );
                        }
                        z = parent;
                    }
                    let ghost b = links(arena@);
                    let ghost rb = self.root;
                    let ghost t = self.shape@;
                    proof {
                        assert(node_ok(b, rb, t, z));
                        assert(node_ok(b, rb, t, b[z as int].parent->0));
                        assert(node_ok(b, rb, t, b[b[z as int].parent->0 as int].parent->0));
                    }
                    let parent: usize = node_at(arena, z).parent.unwrap();
                    let grandparent: usize = node_at(arena, parent).parent.unwrap();
                    set_color(arena, parent, Color::Black);
                    set_color(arena, grandparent, Color::Red);
                    proof {
                        lemma_recolor(b, links(arena@), rb, t);
                    }
                    self.right_rotate(arena, grandparent);
                    proof {
                        lemma_insert_outer_left(
                            b,
                            rb,
                            links(arena@),
                            self.root,
                            t,
                            bh,
                            z,
                            parent,
                            grandparent,
                        );
                        self.heights@ = bh.insert(parent, bh[grandparent]).insert(
                            grandparent,
                            bh[parent],
                        );
                    }
                }
            } else {
                let uncle = top.left;
                if Self::color_of(arena, uncle) == Color::Red {
                    let uncle: usize = uncle.unwrap();
                    set_color(arena, parent, Color::Black);
                    set_color(arena, uncle, Color::Black);
                    set_color(arena, grandparent, Color::Red);
                    proof {
                        lemma_insert_recolor(a, ra, s, bh, z, parent, uncle, grandparent);
                        self.heights@ = bh.insert(parent, bh[parent] + 1).insert(
                            uncle,
                            bh[uncle] + 1,
                        );
                    }
                    z = grandparent;
                } else {
                    if node_at(arena, parent).left == Some(z) {
                        self.right_rotate(arena, parent);
                        proof {
                            lemma_insert_inner_right(
                                a,
                                ra,
                                links(arena@),
                                self.root,
                                s,
                                bh,
                                z,
                                parent,
                                grandparent,
                            );
                        }
                        z = parent;
                    }
                    let ghost b = links(arena@);
                    let ghost rb = self.root;
                    let ghost t = self.shape@;
                    proof {
                        assert(node_ok(b, rb, t, z));
                        assert(node_ok(b, rb, t, b[z as int].parent->0));
                        assert(node_ok(b, rb, t, b[b[z as int].parent->0 as int].parent->0));
                    }
                    let parent: usize = node_at(arena, z).parent.unwrap();
                    let grandparent: usize = node_at(arena, parent).parent.unwrap();
                    set_color(arena, parent, Color::Black);
                    set_color(arena, grandparent, Color::Red);
                    proof {
                        lemma_recolor(b, links(arena@), rb, t);
                    }
                    self.left_rotate(arena, grandparent);
                    proof {
                        lemma_insert_outer_right(
                            b,
                            rb,
                            links(arena@),
                            self.root,
                            t,
                            bh,
                            z,
                            parent,
                            grandparent,
                        );
                        self.heights@ = bh.insert(parent, bh[grandparent]).insert(
                            grandparent,
                            bh[parent],
                        );
                    }
                }
            }
            proof {
                let n = links(arena@);
                assert(node_ok(n, self.root, self.shape@, z));
                if let Some(p) = n[z as int].parent {
                    assert(node_ok(n, self.root, self.shape@, p));
                }
            }
        }
        let ghost a = links(arena@);
        let ghost bh = self.heights@;
        let ghost s = self.shape@;
        if let Some(root) = self.root {
            proof {
                assert(node_ok(a, self.root, s, root));
            }
            set_color(arena, root, Color::Black);
            proof {
                let b = links(arena@);
                lemma_recolor(a, b, self.root, s);
                let bh2 = if a[root as int].color == Color::Red {
                    bh.insert(root, bh[root] + 1)
                } else {
                    bh
                };
                self.heights@ = bh2;
                assert(red_but(a, z, Some(z)));
                assert(node_ok(a, self.root, s, z));
                if let Some(p) = a[z as int].parent {
                    assert(node_ok(a, self.root, s, p));
                }
                assert forall|i: usize| s.has(i) implies #[trigger] balanced_at(b, bh2, i) by {
                    assert(node_ok(a, self.root, s, i));
                    assert(balanced_at(a, bh, i));
                }
                assert forall|i: usize| s.has(i) implies #[trigger] red_at(b, i) by {
                    assert(node_ok(a, self.root, s, i));
                    assert(red_but(a, i, Some(z)));
                    if let Some(l) = a[i as int].left {
                        assert(node_ok(a, self.root, s, l));
                    }
                    if let Some(r) = a[i as int].right {
                        assert(node_ok(a, self.root, s, r));
                    }
                }
            }
        }
    }
}

/// A tree depends on the links of its own nodes only.
proof fn lemma_links_frame(
    a: Seq<RbNode>,
    b: Seq<RbNode>,
    root: Option<usize>,
    s: Shape,
    bh: Map<usize, int>,
)
    requires
        linked(a, root, s),
        colored(a, root, s, bh),
        a.len() <= b.len(),
        forall|i: usize| i < a.len() && s.has(i) ==> a[i as int] == #[trigger] b[i as int],
    ensures
        linked(b, root, s),
        colored(b, root, s, bh),
{
    assert forall|i: usize| s.has(i) implies #[trigger] node_ok(b, root, s, i) && balanced_at(
        b,
        bh,
        i,
    ) && red_at(b, i) by {
        assert(node_ok(a, root, s, i));
        assert(balanced_at(a, bh, i));
        assert(red_at(a, i));
        assert(b[i as int] == a[i as int]);
        if let Some(l) = a[i as int].left {
            assert(node_ok(a, root, s, l));
            assert(b[l as int] == a[l as int]);
        }
        if let Some(r) = a[i as int].right {
            assert(node_ok(a, root, s, r));
            assert(b[r as int] == a[r as int]);
        }
        if let Some(p) = a[i as int].parent {
            assert(node_ok(a, root, s, p));
            assert(b[p as int] == a[p as int]);
        }
    }
    assert forall|i: usize| s.has(i) implies #[trigger] balanced_at(b, bh, i) by {
        assert(node_ok(b, root, s, i));
    }
    assert forall|i: usize| s.has(i) implies #[trigger] red_at(b, i) by {
        assert(node_ok(b, root, s, i));
    }
    if let Some(r) = root {
        assert(node_ok(a, root, s, r));
        assert(b[r as int] == a[r as int]);
    }
}

/// A tree has no more nodes than its arena has slots.
proof fn lemma_order_bound(a: Seq<RbNode>, root: Option<usize>, s: Shape)
    requires
        linked(a, root, s),
    ensures
        s.order.len() <= a.len(),
{
    let q = Seq::new(s.order.len(), |k: int| s.order[k] as int);
    assert(q.no_duplicates()) by {
        assert forall|j: int, k: int| 0 <= j < q.len() && 0 <= k < q.len() && j != k implies q[j]
            != q[k] by {
            assert(s.has(s.order[j]) && s.has(s.order[k]));
        }
    }
    q.unique_seq_to_set();
    assert forall|v: int| q.to_set().contains(v) implies vstd::set_lib::set_int_range(
        0,
        a.len() as int,
    ).contains(v) by {
        let k = choose|k: int| 0 <= k < q.len() && q[k] == v;
        assert(node_ok(a, root, s, s.order[k]));
    }
    vstd::set_lib::lemma_int_range(0, a.len() as int);
    vstd::set_lib::lemma_len_subset(
        q.to_set(),
        vstd::set_lib::set_int_range(0, a.len() as int),
    );
}

/// In-order sequence with `e` put at position `q`.
spec fn order_insert(order: Seq<usize>, q: int, e: usize) -> Seq<usize> {
    Seq::new(
        order.len() + 1,
        |k: int|
            if k < q {
                order[k]
            } else if k == q {
                e
            } else {
                order[k - 1]
            },
    )
}

/// Shape after `e` becomes a leaf at position `q`, to the left of its parent or
/// to the right.
spec fn shape_insert(s: Shape, q: int, e: usize, left: bool) -> Shape {
    Shape {
        order: order_insert(s.order, q, e),
        span: Map::new(
            |i: usize| s.has(i) || i == e,
            |i: usize|
                if i == e {
                    Span { lo: q, pos: q, hi: q + 1 }
                } else {
                    let o = s.span[i];
                    Span {
                        lo: if o.lo > q || (!left && o.lo == q) { o.lo + 1 } else { o.lo },
                        pos: if o.pos >= q { o.pos + 1 } else { o.pos },
                        hi: if o.hi > q || (!left && o.hi == q) { o.hi + 1 } else { o.hi },
                    }
                },
        ),
    }
}

/// Linking the detached node `e` below `parent` as a red leaf.
proof fn lemma_link_leaf(
    a: Seq<RbNode>,
    ra: Option<usize>,
    b: Seq<RbNode>,
    rb: Option<usize>,
    s: Shape,
    bh: Map<usize, int>,
    e: usize,
    parent: Option<usize>,
    q: int,
    left: bool,
)
    requires
        linked(a, ra, s),
        colored(a, ra, s, bh),
        e < a.len(),
        !s.has(e),
        b.len() == a.len(),
        b[e as int] == (RbNode { parent, left: None, right: None, color: Color::Red }),
        match parent {
            None => {
                &&& ra is None
                &&& rb == Some(e)
                &&& q == 0
                &&& left
                &&& forall|i: usize|
                    i < a.len() && i != e ==> #[trigger] b[i as int] == a[i as int]
            },
            Some(p) => {
                &&& s.has(p)
                &&& rb == ra
                &&& if left {
                    &&& a[p as int].left is None
                    &&& q == s.span[p].pos
                    &&& b[p as int] == (RbNode { left: Some(e), ..a[p as int] })
                } else {
                    &&& a[p as int].right is None
                    &&& q == s.span[p].pos + 1
                    &&& b[p as int] == (RbNode { right: Some(e), ..a[p as int] })
                }
                &&& forall|i: usize|
                    i < a.len() && i != e && i != p ==> #[trigger] b[i as int] == a[i as int]
            },
        },
    ensures
        insert_inv(b, rb, shape_insert(s, q, e, left), bh.insert(e, 0), e),
{
    let t = shape_insert(s, q, e, left);
    let bh2 = bh.insert(e, 0);
    if let Some(p) = parent {
        assert(node_ok(a, ra, s, p));
    }
    assert forall|i: usize| t.has(i) implies #[trigger] node_ok(b, rb, t, i) by {
        if i != e {
            assert(node_ok(a, ra, s, i));
            if let Some(l) = a[i as int].left {
                assert(node_ok(a, ra, s, l));
                assert(b[l as int].parent == a[l as int].parent);
            }
            if let Some(r) = a[i as int].right {
                assert(node_ok(a, ra, s, r));
                assert(b[r as int].parent == a[r as int].parent);
            }
            if let Some(p) = a[i as int].parent {
                assert(node_ok(a, ra, s, p));
                assert(b[p as int].parent == a[p as int].parent);
            }
            assert(b[i as int].parent == a[i as int].parent);
        }
    }
    assert forall|k: int| 0 <= k < t.order.len() implies t.has(#[trigger] t.order[k])
        && t.span[t.order[k]].pos == k by {
        if k < q {
            assert(s.has(s.order[k]));
        } else if k > q {
            assert(s.has(s.order[k - 1]));
        }
    }
    if let Some(r) = ra {
        assert(node_ok(a, ra, s, r));
        assert(b[r as int].parent == a[r as int].parent);
    }
    assert forall|i: usize| t.has(i) implies #[trigger] balanced_at(b, bh2, i) by {
        if i != e {
            assert(node_ok(a, ra, s, i));
            assert(balanced_at(a, bh, i));
            assert(b[i as int].color == a[i as int].color);
        }
    }
    assert forall|i: usize| t.has(i) implies #[trigger] red_but(b, i, Some(e)) by {
        if i != e {
            assert(node_ok(a, ra, s, i));
            assert(red_at(a, i));
            assert(b[i as int].color == a[i as int].color);
            if let Some(l) = a[i as int].left {
                assert(node_ok(a, ra, s, l));
                assert(b[l as int].color == a[l as int].color);
            }
            if let Some(r) = a[i as int].right {
                assert(node_ok(a, ra, s, r));
                assert(b[r as int].color == a[r as int].color);
            }
        }
    }
    if let Some(r) = ra {
        assert(b[r as int].color == a[r as int].color);
    }
}

impl<T: RBTreeNode> RBTree<T> {
    /// Whether slot `a` sorts before slot `b`.
    fn precedes(arena: &Vec<T>, a: usize, b: usize) -> (less: bool)
        requires
            a < arena.len(),
            b < arena.len(),
        ensures
            less == before::<T>(payloads(arena@), a, b),
    {
        let x = arena[a].key();
        let y = arena[b].key();
        x.0 < y.0 || (x.0 == y.0 && (x.1 < y.1 || (x.1 == y.1 && a < b)))
    }

    /// Insert a detached entity into the tree.
    pub fn insert(&mut self, arena: &mut Vec<T>, entity: usize)
        requires
            old(self).wf(old(arena)@),
            entity < old(arena).len(),
            !old(self).ids().contains(entity),
        ensures
            final(self).wf(final(arena)@),
            final(self).ids() == old(self).ids().insert(entity),
            final(self).len == old(self).len + 1,
            payloads(final(arena)@) == payloads(old(arena)@),
            final(arena).len() == old(arena).len(),
            forall|i: usize|
                i < old(arena).len() && !final(self).ids().contains(i) ==> #[trigger] links(
                    final(arena)@,
                )[i as int] == links(old(arena)@)[i as int],
    {
        set_node_at(arena, entity, RbNode::new());
        let ghost a = links(arena@);
        let ghost data = payloads(arena@);
        let ghost s = self.shape@;
        proof {
            lemma_links_frame(links(old(arena)@), a, self.root, s, self.heights@);
        }
        let mut parent: Option<usize> = None;
        let mut current: Option<usize> = self.root;
        let mut left: bool = true;
        let ghost mut lo: int = 0;
        let ghost mut hi: int = s.order.len() as int;
        proof {
            if let Some(r) = self.root {
                assert(node_ok(a, self.root, s, r));
            }
        }
        while current.is_some()
            invariant
                linked(a, self.root, s),
                a == links(arena@),
                data == payloads(arena@),
                ascending::<T>(data, s.order),
                !s.has(entity),
                entity < arena.len(),
                0 <= lo <= hi <= s.order.len(),
                match current {
                    Some(c) => {
                        &&& s.has(c)
                        &&& s.span[c].lo == lo
                        &&& s.span[c].hi == hi
                    },
                    None => {
                        &&& lo == hi
                        &&& match parent {
                            None => self.root is None && left && lo == 0,
                            Some(p) => {
                                &&& s.has(p)
                                &&& if left {
                                    a[p as int].left is None && lo == s.span[p].pos
                                } else {
                                    a[p as int].right is None && lo == s.span[p].pos + 1
                                }
                            },
                        }
                    },
                },
                forall|k: int| 0 <= k < lo ==> before::<T>(data, #[trigger] s.order[k], entity),
                forall|k: int|
                    hi <= k < s.order.len() ==> before::<T>(data, entity, #[trigger] s.order[k]),
            decreases
                    (if current is Some {
                        1int
                    } else {
                        0int
                    }),
                    hi - lo,
        {
            let c: usize = current.unwrap();
            proof {
                assert(node_ok(a, self.root, s, c));
                assert(s.order[s.span[c].pos] == c);
            }
            let node = node_at(arena, c);
            parent = Some(c);
            left = Self::precedes(arena, entity, c);
            if left {
                current = node.left;
                proof {
                    hi = s.span[c].pos;
                    if let Some(l) = node.left {
                        assert(node_ok(a, self.root, s, l));
                    }
                }
            } else {
                current = node.right;
                proof {
                    lo = s.span[c].pos + 1;
                    if let Some(r) = node.right {
                        assert(node_ok(a, self.root, s, r));
                    }
                }
            }
        }
        let ghost ra = self.root;
        if let Some(p) = parent {
            proof {
                assert(node_ok(a, self.root, s, p));
            }
            set_parent(arena, entity, parent);
            if left {
                set_left(arena, p, Some(entity));
            } else {
                set_right(arena, p, Some(entity));
            }
        } else {
            self.root = Some(entity);
        }
        proof {
            let t = shape_insert(s, lo, entity, left);
            lemma_link_leaf(
                a,
                ra,
                links(arena@),
                self.root,
                s,
                self.heights@,
                entity,
                parent,
                lo,
                left,
            );
            self.heights@ = self.heights@.insert(entity, 0);
            self.shape@ = t;
            assert(ascending::<T>(data, t.order));
            lemma_order_bound(links(arena@), self.root, t);
            assert(t.span.dom() =~= s.span.dom().insert(entity));
        }
        self.insert_fixup(arena, entity);
        self.len = self.len + 1;
    }
}

/// The subtree of `p` on the side of its child `x` lacks one black node.
spec fn short_at(nodes: Seq<RbNode>, bh: Map<usize, int>, p: usize, x: Option<usize>) -> bool {
    let n = nodes[p as int];
    ||| {
        &&& n.left == x
        &&& 0 <= height_at(bh, n.left)
        &&& height_at(bh, n.left) + 1 == height_at(bh, n.right)
        &&& bh[p] == height_at(bh, n.right) + blackness(n.color)
    }
    ||| {
        &&& n.right == x
        &&& 0 <= height_at(bh, n.right)
        &&& height_at(bh, n.right) + 1 == height_at(bh, n.left)
        &&& bh[p] == height_at(bh, n.left) + blackness(n.color)
    }
}

/// Invariant of the walk after a removal: the rules hold, except that the
/// subtree `x` below `parent` lacks one black node and that its root may be red
/// below a red parent.
spec fn remove_inv(
    nodes: Seq<RbNode>,
    root: Option<usize>,
    s: Shape,
    bh: Map<usize, int>,
    x: Option<usize>,
    parent: Option<usize>,
) -> bool {
    &&& linked(nodes, root, s)
    &&& forall|i: usize|
        s.has(i) && parent != Some(i) ==> #[trigger] balanced_at(nodes, bh, i)
    &&& forall|i: usize| s.has(i) && x != Some(i) ==> #[trigger] red_but(nodes, i, x)
    &&& color_at(nodes, root) == Color::Black || root == x
    &&& match parent {
        None => root == x,
        Some(p) => s.has(p) && short_at(nodes, bh, p, x),
    }
    &&& match x {
        None => true,
        Some(i) => s.has(i) && nodes[i as int].parent == parent,
    }
}

/// In-order sequence without position `q`.
spec fn order_remove(order: Seq<usize>, q: int) -> Seq<usize> {
    Seq::new(
        (order.len() - 1) as nat,
        |k: int|
            if k < q {
                order[k]
            } else {
                order[k + 1]
            },
    )
}

/// Shape without `e`; `heir` is the successor that takes its place when `e` has
/// two children.
spec fn shape_remove(s: Shape, e: usize, heir: Option<usize>) -> Shape {
    let q = s.span[e].pos;
    Shape {
        order: order_remove(s.order, q),
        span: Map::new(
            |i: usize| s.has(i) && i != e,
            |i: usize|
                if heir == Some(i) {
                    Span { lo: s.span[e].lo, pos: q, hi: s.span[e].hi - 1 }
                } else {
                    let o = s.span[i];
                    Span {
                        lo: if o.lo > q + 1 || (heir is None && o.lo == q + 1) {
                            o.lo - 1
                        } else {
                            o.lo
                        },
                        pos: if o.pos > q { o.pos - 1 } else { o.pos },
                        hi: if o.hi > q { o.hi - 1 } else { o.hi },
                    }
                },
        ),
    }
}

/// `b` is `a` after the only child `c` of `e`, if any, took the place of `e`.
spec fn spliced(
    a: Seq<RbNode>,
    ra: Option<usize>,
    b: Seq<RbNode>,
    rb: Option<usize>,
    e: usize,
    c: Option<usize>,
) -> bool {
    let p = a[e as int].parent;
    &&& b.len() == a.len()
    &&& rb == if p is None { c } else { ra }
    &&& forall|i: usize|
        #![trigger b[i as int]]
        i < a.len() && i != e ==> b[i as int] == (RbNode {
            parent: if c == Some(i) { p } else { a[i as int].parent },
            left: if p == Some(i) && a[i as int].left == Some(e) { c } else { a[i as int].left },
            right: if p == Some(i) && a[i as int].left != Some(e) { c } else { a[i as int].right },
            color: a[i as int].color,
        })
}

/// `b` is `a` after the successor `y` took the place of `e`, which has two
/// children.
spec fn replaced(
    a: Seq<RbNode>,
    ra: Option<usize>,
    b: Seq<RbNode>,
    rb: Option<usize>,
    e: usize,
    y: usize,
) -> bool {
    let p = a[e as int].parent;
    let l = a[e as int].left;
    let r = a[e as int].right;
    let x = a[y as int].right;
    let q = a[y as int].parent;
    let deep = q != Some(e);
    &&& b.len() == a.len()
    &&& rb == if p is None { Some(y) } else { ra }
    &&& b[y as int] == (RbNode {
        parent: p,
        left: l,
        right: if deep { r } else { x },
        color: a[e as int].color,
    })
    &&& forall|i: usize|
        #![trigger b[i as int]]
        i < a.len() && i != e && i != y ==> b[i as int] == (RbNode {
            parent: if l == Some(i) || (deep && r == Some(i)) {
                Some(y)
            } else if deep && x == Some(i) {
                q
            } else {
                a[i as int].parent
            },
            left: if p == Some(i) && a[i as int].left == Some(e) {
                Some(y)
            } else if deep && q == Some(i) {
                x
            } else {
                a[i as int].left
            },
            right: if p == Some(i) && a[i as int].left != Some(e) {
                Some(y)
            } else {
                a[i as int].right
            },
            color: a[i as int].color,
        })
}

proof fn lemma_splice_node(
    a: Seq<RbNode>,
    ra: Option<usize>,
    b: Seq<RbNode>,
    rb: Option<usize>,
    s: Shape,
    e: usize,
    c: Option<usize>,
    i: usize,
)
    requires
        linked(a, ra, s),
        s.has(e),
        (a[e as int].left is None && c == a[e as int].right) || (a[e as int].right is None && c
            == a[e as int].left),
        spliced(a, ra, b, rb, e, c),
        s.has(i),
        i != e,
    ensures
        node_ok(b, rb, shape_remove(s, e, None), i),
{
    let t = shape_remove(s, e, None);
    let q = s.span[e].pos;
    assert(node_ok(a, ra, s, e));
    assert(node_ok(a, ra, s, i));
    assert(b[i as int].color == a[i as int].color);
    assert(s.span[i].pos != q);
    if let Some(k) = c {
        assert(node_ok(a, ra, s, k));
        assert(b[k as int].color == a[k as int].color);
    }
    assert(span_ok(b, t, i));
    assert(left_ok(b, t, i)) by {
        if let Some(l) = a[i as int].left {
            assert(node_ok(a, ra, s, l));
            if l != e {
                assert(b[l as int].color == a[l as int].color);
            }
        }
    }
    assert(right_ok(b, t, i)) by {
        if let Some(r) = a[i as int].right {
            assert(node_ok(a, ra, s, r));
            if r != e {
                assert(b[r as int].color == a[r as int].color);
            }
        }
    }
    assert(parent_ok(b, rb, t, i)) by {
        if let Some(p) = a[e as int].parent {
            assert(node_ok(a, ra, s, p));
            assert(b[p as int].color == a[p as int].color);
        }
        if let Some(p) = a[i as int].parent {
            assert(node_ok(a, ra, s, p));
            if p != e {
                assert(b[p as int].color == a[p as int].color);
            }
        }
    }
}

proof fn lemma_splice_links(
    a: Seq<RbNode>,
    ra: Option<usize>,
    b: Seq<RbNode>,
    rb: Option<usize>,
    s: Shape,
    e: usize,
    c: Option<usize>,
)
    requires
        linked(a, ra, s),
        s.has(e),
        (a[e as int].left is None && c == a[e as int].right) || (a[e as int].right is None && c
            == a[e as int].left),
        spliced(a, ra, b, rb, e, c),
    ensures
        linked(b, rb, shape_remove(s, e, None)),
        shape_remove(s, e, None).span.dom() == s.span.dom().remove(e),
{
    let t = shape_remove(s, e, None);
    assert(t.span.dom() =~= s.span.dom().remove(e));
    assert(node_ok(a, ra, s, e));
    if let Some(p) = a[e as int].parent {
        assert(node_ok(a, ra, s, p));
    }
    if let Some(k) = c {
        assert(node_ok(a, ra, s, k));
    }
    assert forall|i: usize| t.has(i) implies #[trigger] node_ok(b, rb, t, i) by {
        lemma_splice_node(a, ra, b, rb, s, e, c, i);
    }
    assert forall|k: int| 0 <= k < t.order.len() implies t.has(#[trigger] t.order[k])
        && t.span[t.order[k]].pos == k by {
        if k < s.span[e].pos {
            assert(s.has(s.order[k]));
        } else {
            assert(s.has(s.order[k + 1]));
        }
    }
    if let Some(r) = rb {
        assert(node_ok(a, ra, s, r));
        assert(b[r as int].color == a[r as int].color);
    }
    if let Some(r) = ra {
        assert(node_ok(a, ra, s, r));
    }
}

proof fn lemma_splice(
    a: Seq<RbNode>,
    ra: Option<usize>,
    b: Seq<RbNode>,
    rb: Option<usize>,
    s: Shape,
    bh: Map<usize, int>,
    e: usize,
    c: Option<usize>,
)
    requires
        linked(a, ra, s),
        colored(a, ra, s, bh),
        s.has(e),
        (a[e as int].left is None && c == a[e as int].right) || (a[e as int].right is None && c
            == a[e as int].left),
        spliced(a, ra, b, rb, e, c),
    ensures
        linked(b, rb, shape_remove(s, e, None)),
        shape_remove(s, e, None).span.dom() == s.span.dom().remove(e),
        a[e as int].color == Color::Black ==> remove_inv(
            b,
            rb,
            shape_remove(s, e, None),
            bh,
            c,
            a[e as int].parent,
        ),
        a[e as int].color == Color::Red ==> colored(b, rb, shape_remove(s, e, None), bh),
{
    let t = shape_remove(s, e, None);
    lemma_splice_links(a, ra, b, rb, s, e, c);
    assert(node_ok(a, ra, s, e));
    assert(balanced_at(a, bh, e));
    assert(red_at(a, e));
    if let Some(p) = a[e as int].parent {
        assert(node_ok(a, ra, s, p));
        assert(balanced_at(a, bh, p));
        assert(red_at(a, p));
    }
    if let Some(k) = c {
        assert(node_ok(a, ra, s, k));
        assert(balanced_at(a, bh, k));
        assert(red_at(a, k));
    }
    if let Some(r) = rb {
        assert(node_ok(a, ra, s, r));
        assert(b[r as int].color == a[r as int].color);
    }
    if let Some(r) = ra {
        assert(node_ok(a, ra, s, r));
    }
    assert forall|i: usize|
        t.has(i) && (a[e as int].color == Color::Red || a[e as int].parent != Some(
            i,
        )) implies #[trigger] balanced_at(b, bh, i) by {
        assert(node_ok(a, ra, s, i));
        assert(balanced_at(a, bh, i));
        assert(b[i as int].color == a[i as int].color);
    }
    if let Some(p) = a[e as int].parent {
        assert(b[p as int].color == a[p as int].color);
    }
    assert forall|i: usize| t.has(i) implies #[trigger] red_but(b, i, c) && (a[e as int].color
        == Color::Red ==> red_at(b, i)) by {
        assert(node_ok(a, ra, s, i));
        assert(red_at(a, i));
        assert(b[i as int].color == a[i as int].color);
        if let Some(l) = b[i as int].left {
            assert(node_ok(b, rb, t, i));
            assert(node_ok(b, rb, t, l));
            assert(b[l as int].color == a[l as int].color);
        }
        if let Some(r) = b[i as int].right {
            assert(node_ok(b, rb, t, i));
            assert(node_ok(b, rb, t, r));
            assert(b[r as int].color == a[r as int].color);
        }
    }
    assert forall|i: usize| t.has(i) && a[e as int].color == Color::Red implies #[trigger] red_at(
        b,
        i,
    ) by {
        assert(red_but(b, i, c));
    }
}

proof fn lemma_replace_node(
    a: Seq<RbNode>,
    ra: Option<usize>,
    b: Seq<RbNode>,
    rb: Option<usize>,
    s: Shape,
    e: usize,
    y: usize,
    i: usize,
)
    requires
        linked(a, ra, s),
        s.has(e),
        a[e as int].left is Some,
        a[e as int].right is Some,
        s.has(y),
        a[y as int].left is None,
        s.span[y].pos == s.span[e].pos + 1,
        replaced(a, ra, b, rb, e, y),
        s.has(i),
        i != e,
    ensures
        node_ok(b, rb, shape_remove(s, e, Some(y)), i),
{
    let t = shape_remove(s, e, Some(y));
    let q = a[y as int].parent;
    let x = a[y as int].right;
    let l = a[e as int].left->0;
    let r = a[e as int].right->0;
    assert(node_ok(a, ra, s, e));
    assert(node_ok(a, ra, s, y));
    assert(node_ok(a, ra, s, i));
    assert(node_ok(a, ra, s, l));
    assert(node_ok(a, ra, s, r));
    assert(s.span[i].pos != s.span[e].pos);
    assert(i != y ==> s.span[i].pos != s.span[y].pos);
    if let Some(p) = a[e as int].parent {
        assert(node_ok(a, ra, s, p));
        assert(b[p as int].color == a[p as int].color);
    }
    if let Some(k) = x {
        assert(node_ok(a, ra, s, k));
        assert(b[k as int].color == a[k as int].color);
    }
    assert(node_ok(a, ra, s, q->0));
    if q != Some(e) {
        assert(b[q->0 as int].color == a[q->0 as int].color);
    }
    if i == y {
        assert(b[l as int].color == a[l as int].color);
        assert(span_ok(b, t, i));
        assert(left_ok(b, t, i));
        assert(right_ok(b, t, i)) by {
            if r != y {
                assert(b[r as int].color == a[r as int].color);
            }
        }
        assert(parent_ok(b, rb, t, i));
    } else {
        assert(b[i as int].color == a[i as int].color);
        assert(span_ok(b, t, i));
        assert(left_ok(b, t, i)) by {
            if let Some(k) = a[i as int].left {
                assert(node_ok(a, ra, s, k));
                if k != e && k != y {
                    assert(b[k as int].color == a[k as int].color);
                }
            }
        }
        assert(right_ok(b, t, i)) by {
            if let Some(k) = a[i as int].right {
                assert(node_ok(a, ra, s, k));
                if k != e && k != y {
                    assert(b[k as int].color == a[k as int].color);
                }
            }
        }
        assert(parent_ok(b, rb, t, i)) by {
            if let Some(p) = a[i as int].parent {
                assert(node_ok(a, ra, s, p));
                if p != e && p != y {
                    assert(b[p as int].color == a[p as int].color);
                }
            }
        }
    }
}

proof fn lemma_replace_links(
    a: Seq<RbNode>,
    ra: Option<usize>,
    b: Seq<RbNode>,
    rb: Option<usize>,
    s: Shape,
    e: usize,
    y: usize,
)
    requires
        linked(a, ra, s),
        s.has(e),
        a[e as int].left is Some,
        a[e as int].right is Some,
        s.has(y),
        a[y as int].left is None,
        s.span[y].pos == s.span[e].pos + 1,
        replaced(a, ra, b, rb, e, y),
    ensures
        linked(b, rb, shape_remove(s, e, Some(y))),
        shape_remove(s, e, Some(y)).span.dom() == s.span.dom().remove(e),
{
    let t = shape_remove(s, e, Some(y));
    let q = a[y as int].parent;
    let x = a[y as int].right;
    assert(t.span.dom() =~= s.span.dom().remove(e));
    assert(node_ok(a, ra, s, e));
    assert(node_ok(a, ra, s, y));
    if let Some(p) = a[e as int].parent {
        assert(node_ok(a, ra, s, p));
    }
    assert(node_ok(a, ra, s, a[e as int].left->0));
    assert(node_ok(a, ra, s, a[e as int].right->0));
    assert(node_ok(a, ra, s, q->0));
    if let Some(k) = x {
        assert(node_ok(a, ra, s, k));
    }
    assert forall|i: usize| t.has(i) implies #[trigger] node_ok(b, rb, t, i) by {
        lemma_replace_node(a, ra, b, rb, s, e, y, i);
    }
    assert forall|k: int| 0 <= k < t.order.len() implies t.has(#[trigger] t.order[k])
        && t.span[t.order[k]].pos == k by {
        if k < s.span[e].pos {
            assert(s.has(s.order[k]));
        } else {
            assert(s.has(s.order[k + 1]));
        }
    }
    if let Some(r) = rb {
        assert(node_ok(a, ra, s, r));
        assert(b[r as int].color == a[r as int].color || r == y);
    }
    if let Some(r) = ra {
        assert(node_ok(a, ra, s, r));
    }
}

proof fn lemma_replace(
    a: Seq<RbNode>,
    ra: Option<usize>,
    b: Seq<RbNode>,
    rb: Option<usize>,
    s: Shape,
    bh: Map<usize, int>,
    e: usize,
    y: usize,
)
    requires
        linked(a, ra, s),
        colored(a, ra, s, bh),
        s.has(e),
        a[e as int].left is Some,
        a[e as int].right is Some,
        s.has(y),
        a[y as int].left is None,
        s.span[y].pos == s.span[e].pos + 1,
        replaced(a, ra, b, rb, e, y),
    ensures
        linked(b, rb, shape_remove(s, e, Some(y))),
        shape_remove(s, e, Some(y)).span.dom() == s.span.dom().remove(e),
        a[y as int].color == Color::Black ==> remove_inv(
            b,
            rb,
            shape_remove(s, e, Some(y)),
            bh.insert(y, bh[e]),
            a[y as int].right,
            if a[y as int].parent == Some(e) {
                Some(y)
            } else {
                a[y as int].parent
            },
        ),
        a[y as int].color == Color::Red ==> colored(
            b,
            rb,
            shape_remove(s, e, Some(y)),
            bh.insert(y, bh[e]),
        ),
{
    let t = shape_remove(s, e, Some(y));
    let bh2 = bh.insert(y, bh[e]);
    let q = a[y as int].parent;
    let x = a[y as int].right;
    let xp = if q == Some(e) {
        Some(y)
    } else {
        q
    };
    lemma_replace_links(a, ra, b, rb, s, e, y);
    assert(node_ok(a, ra, s, e));
    assert(node_ok(a, ra, s, y));
    assert(balanced_at(a, bh, e) && red_at(a, e));
    assert(balanced_at(a, bh, y) && red_at(a, y));
    if let Some(p) = a[e as int].parent {
        assert(node_ok(a, ra, s, p));
        assert(balanced_at(a, bh, p));
        assert(red_at(a, p));
    }
    assert(node_ok(a, ra, s, a[e as int].left->0));
    assert(node_ok(a, ra, s, a[e as int].right->0));
    assert(node_ok(a, ra, s, q->0));
    assert(balanced_at(a, bh, q->0) && red_at(a, q->0));
    if let Some(k) = x {
        assert(node_ok(a, ra, s, k));
        assert(balanced_at(a, bh, k));
        assert(red_at(a, k));
    }
    if let Some(r) = rb {
        assert(node_ok(a, ra, s, r));
        assert(b[r as int].color == a[r as int].color || r == y);
    }
    if let Some(r) = ra {
        assert(node_ok(a, ra, s, r));
    }
    assert forall|i: usize|
        t.has(i) && (a[y as int].color == Color::Red || xp != Some(
            i,
        )) implies #[trigger] balanced_at(b, bh2, i) by {
        assert(node_ok(a, ra, s, i));
        assert(balanced_at(a, bh, i));
        assert(b[i as int].color == a[i as int].color || i == y);
    }
    assert(b[xp->0 as int].color == a[xp->0 as int].color || xp == Some(y));
    assert forall|i: usize| t.has(i) implies #[trigger] red_but(b, i, x) && (a[y as int].color
        == Color::Red ==> red_at(b, i)) by {
        assert(node_ok(a, ra, s, i));
        assert(red_at(a, i));
        assert(b[i as int].color == a[i as int].color || i == y);
        assert(node_ok(b, rb, t, i));
        if let Some(l) = b[i as int].left {
            assert(node_ok(b, rb, t, l));
            assert(b[l as int].color == a[l as int].color || l == y);
        }
        if let Some(r) = b[i as int].right {
            assert(node_ok(b, rb, t, r));
            assert(b[r as int].color == a[r as int].color || r == y);
        }
    }
    assert forall|i: usize| t.has(i) && a[y as int].color == Color::Red implies #[trigger] red_at(
        b,
        i,
    ) by {
        assert(red_but(b, i, x));
    }
    if let Some(k) = x {
        assert(b[k as int].color == a[k as int].color);
    }
}

/// A red sibling `w` is rotated above `p`, so that `x` gets a black sibling.
proof fn lemma_remove_red_sibling_left(
    a: Seq<RbNode>,
    ra: Option<usize>,
    c: Seq<RbNode>,
    rc: Option<usize>,
    s: Shape,
    bh: Map<usize, int>,
    x: Option<usize>,
    p: usize,
    w: usize,
)
    requires
        remove_inv(a, ra, s, bh, x, Some(p)),
        color_at(a, x) == Color::Black,
        a[p as int].left == x,
        a[p as int].right == Some(w),
        a[w as int].color == Color::Red,
        rotated_left(with_color(with_color(a, w, Color::Black), p, Color::Red), ra, c, rc, p, w),
    ensures
        remove_inv(c, rc, shape_left(s, p, w), bh.insert(w, bh[p]).insert(p, bh[w]), x, Some(p)),
        color_at(c, x) == Color::Black,
        c[p as int].left == x,
        c[p as int].color == Color::Red,
        c[p as int].right is Some,
        color_at(c, c[p as int].right) == Color::Black,
{
    let b = with_color(with_color(a, w, Color::Black), p, Color::Red);
    let t = shape_left(s, p, w);
    let bh2 = bh.insert(w, bh[p]).insert(p, bh[w]);
    assert(node_ok(a, ra, s, p));
    assert(node_ok(a, ra, s, w));
    lemma_recolor(a, b, ra, s);
    lemma_rotate_left(b, ra, c, rc, s, p, w);
    assert(balanced_at(a, bh, w));
    assert(red_but(a, w, x));
    assert(red_but(a, p, x));
    if let Some(m) = a[w as int].left {
        assert(node_ok(a, ra, s, m));
        assert(c[m as int].color == b[m as int].color);
    }
    if let Some(m) = a[w as int].right {
        assert(node_ok(a, ra, s, m));
    }
    if let Some(k) = x {
        assert(node_ok(a, ra, s, k));
        assert(c[k as int].color == b[k as int].color);
    }
    assert forall|i: usize| t.has(i) && i != p implies #[trigger] balanced_at(c, bh2, i) by {
        assert(node_ok(a, ra, s, i));
        assert(balanced_at(a, bh, i));
        assert(c[i as int].color == b[i as int].color);
        if let Some(k) = a[i as int].left {
            assert(node_ok(a, ra, s, k));
        }
        if let Some(k) = a[i as int].right {
            assert(node_ok(a, ra, s, k));
        }
    }
    assert forall|i: usize| t.has(i) && x != Some(i) implies #[trigger] red_but(c, i, x) by {
        assert(node_ok(a, ra, s, i));
        assert(red_but(a, i, x));
        assert(c[i as int].color == b[i as int].color);
        assert(node_ok(c, rc, t, i));
        if let Some(k) = c[i as int].left {
            assert(node_ok(c, rc, t, k));
            assert(c[k as int].color == b[k as int].color);
        }
        if let Some(k) = c[i as int].right {
            assert(node_ok(c, rc, t, k));
            assert(c[k as int].color == b[k as int].color);
        }
    }
    if let Some(r) = ra {
        assert(node_ok(a, ra, s, r));
        assert(c[r as int].color == b[r as int].color);
    }
}

/// A black sibling `w` with black children becomes red; the missing black node
/// moves up to `p`.
proof fn lemma_remove_push_up_left(
    a: Seq<RbNode>,
    root: Option<usize>,
    s: Shape,
    bh: Map<usize, int>,
    x: Option<usize>,
    p: usize,
    w: usize,
)
    requires
        remove_inv(a, root, s, bh, x, Some(p)),
        color_at(a, x) == Color::Black,
        a[p as int].left == x,
        a[p as int].right == Some(w),
        a[w as int].color == Color::Black,
        color_at(a, a[w as int].left) == Color::Black,
        color_at(a, a[w as int].right) == Color::Black,
    ensures
        remove_inv(
            with_color(a, w, Color::Red),
            root,
            s,
            bh.insert(w, bh[w] - 1).insert(p, bh[p] - 1),
            Some(p),
            a[p as int].parent,
        ),
        a[p as int].parent is Some ==> s.width(a[p as int].parent->0) > s.width(p),
{
    let b = with_color(a, w, Color::Red);
    let bh2 = bh.insert(w, bh[w] - 1).insert(p, bh[p] - 1);
    assert(node_ok(a, root, s, p));
    assert(node_ok(a, root, s, w));
    lemma_recolor(a, b, root, s);
    assert(balanced_at(a, bh, w));
    if let Some(g) = a[p as int].parent {
        assert(node_ok(a, root, s, g));
        assert(balanced_at(a, bh, g));
    }
    if let Some(m) = a[w as int].left {
        assert(node_ok(a, root, s, m));
    }
    if let Some(m) = a[w as int].right {
        assert(node_ok(a, root, s, m));
    }
    if let Some(k) = x {
        assert(node_ok(a, root, s, k));
    }
    assert forall|i: usize|
        s.has(i) && a[p as int].parent != Some(i) implies #[trigger] balanced_at(b, bh2, i) by {
        assert(node_ok(a, root, s, i));
        if i != p {
            assert(balanced_at(a, bh, i));
        }
    }
    assert forall|i: usize| s.has(i) && i != p implies #[trigger] red_but(b, i, Some(p)) by {
        assert(node_ok(a, root, s, i));
        if x != Some(i) {
            assert(red_but(a, i, x));
        }
        if let Some(k) = a[i as int].left {
            assert(node_ok(a, root, s, k));
        }
        if let Some(k) = a[i as int].right {
            assert(node_ok(a, root, s, k));
        }
    }
    if let Some(r) = root {
        assert(node_ok(a, root, s, r));
    }
}

/// A red inner nephew `m` is rotated above the black sibling `w`.
proof fn lemma_remove_inner_nephew_left(
    a: Seq<RbNode>,
    ra: Option<usize>,
    c: Seq<RbNode>,
    rc: Option<usize>,
    s: Shape,
    bh: Map<usize, int>,
    x: Option<usize>,
    p: usize,
    w: usize,
    m: usize,
)
    requires
        remove_inv(a, ra, s, bh, x, Some(p)),
        color_at(a, x) == Color::Black,
        a[p as int].left == x,
        a[p as int].right == Some(w),
        a[w as int].color == Color::Black,
        a[w as int].left == Some(m),
        a[m as int].color == Color::Red,
        color_at(a, a[w as int].right) == Color::Black,
        rotated_right(with_color(with_color(a, m, Color::Black), w, Color::Red), ra, c, rc, w, m),
    ensures
        remove_inv(c, rc, shape_right(s, w, m), bh.insert(m, bh[w]).insert(w, bh[m]), x, Some(p)),
        color_at(c, x) == Color::Black,
        c[p as int].left == x,
        c[p as int].right == Some(m),
        c[m as int].color == Color::Black,
        c[m as int].right == Some(w),
        c[w as int].color == Color::Red,
{
    let b = with_color(with_color(a, m, Color::Black), w, Color::Red);
    let t = shape_right(s, w, m);
    let bh2 = bh.insert(m, bh[w]).insert(w, bh[m]);
    assert(node_ok(a, ra, s, p));
    assert(node_ok(a, ra, s, w));
    assert(node_ok(a, ra, s, m));
    lemma_recolor(a, b, ra, s);
    lemma_rotate_right(b, ra, c, rc, s, w, m);
    assert(balanced_at(a, bh, w));
    assert(balanced_at(a, bh, m));
    assert(red_but(a, m, x));
    assert(c[p as int].color == b[p as int].color);
    if let Some(k) = a[w as int].right {
        assert(node_ok(a, ra, s, k));
    }
    if let Some(k) = a[m as int].left {
        assert(node_ok(a, ra, s, k));
    }
    if let Some(k) = a[m as int].right {
        assert(node_ok(a, ra, s, k));
    }
    if let Some(k) = x {
        assert(node_ok(a, ra, s, k));
        assert(c[k as int].color == b[k as int].color);
    }
    assert forall|i: usize| t.has(i) && i != p implies #[trigger] balanced_at(c, bh2, i) by {
        assert(node_ok(a, ra, s, i));
        assert(balanced_at(a, bh, i));
        assert(c[i as int].color == b[i as int].color);
        if let Some(k) = a[i as int].left {
            assert(node_ok(a, ra, s, k));
        }
        if let Some(k) = a[i as int].right {
            assert(node_ok(a, ra, s, k));
        }
    }
    assert forall|i: usize| t.has(i) && x != Some(i) implies #[trigger] red_but(c, i, x) by {
        assert(node_ok(a, ra, s, i));
        assert(red_but(a, i, x));
        assert(c[i as int].color == b[i as int].color);
        assert(node_ok(c, rc, t, i));
        if let Some(k) = c[i as int].left {
            assert(node_ok(c, rc, t, k));
            assert(c[k as int].color == b[k as int].color);
        }
        if let Some(k) = c[i as int].right {
            assert(node_ok(c, rc, t, k));
            assert(c[k as int].color == b[k as int].color);
        }
    }
    if let Some(r) = ra {
        assert(node_ok(a, ra, s, r));
        assert(c[r as int].color == b[r as int].color);
    }
}

/// A red outer nephew `n` pays for the missing black node.
proof fn lemma_remove_outer_nephew_left(
    a: Seq<RbNode>,
    ra: Option<usize>,
    c: Seq<RbNode>,
    rc: Option<usize>,
    s: Shape,
    bh: Map<usize, int>,
    x: Option<usize>,
    p: usize,
    w: usize,
    n: usize,
)
    requires
        remove_inv(a, ra, s, bh, x, Some(p)),
        color_at(a, x) == Color::Black,
        a[p as int].left == x,
        a[p as int].right == Some(w),
        a[w as int].color == Color::Black,
        a[w as int].right == Some(n),
        a[n as int].color == Color::Red,
        rotated_left(
            with_color(
                with_color(with_color(a, w, a[p as int].color), p, Color::Black),
                n,
                Color::Black,
            ),
            ra,
            c,
            rc,
            p,
            w,
        ),
    ensures
        remove_inv(
            c,
            rc,
            shape_left(s, p, w),
            bh.insert(w, bh[p]).insert(p, bh[w]).insert(n, bh[n] + 1),
            rc,
            None,
        ),
{
    let b = with_color(
        with_color(with_color(a, w, a[p as int].color), p, Color::Black),
        n,
        Color::Black,
    );
    let t = shape_left(s, p, w);
    let bh2 = bh.insert(w, bh[p]).insert(p, bh[w]).insert(n, bh[n] + 1);
    assert(node_ok(a, ra, s, p));
    assert(node_ok(a, ra, s, w));
    assert(node_ok(a, ra, s, n));
    lemma_recolor(a, b, ra, s);
    lemma_rotate_left(b, ra, c, rc, s, p, w);
    assert(balanced_at(a, bh, w));
    assert(balanced_at(a, bh, n));
    assert(red_but(a, p, x));
    assert(red_but(a, n, x));
    assert(c[p as int].color == b[p as int].color);
    if let Some(k) = a[w as int].left {
        assert(node_ok(a, ra, s, k));
    }
    if let Some(k) = x {
        assert(node_ok(a, ra, s, k));
        assert(c[k as int].color == b[k as int].color);
    }
    if let Some(g) = a[p as int].parent {
        assert(node_ok(a, ra, s, g));
        assert(red_but(a, g, x));
    }
    if let Some(r) = ra {
        assert(node_ok(a, ra, s, r));
        assert(c[r as int].color == b[r as int].color);
    }
    assert(node_ok(c, rc, t, w));
    assert forall|i: usize| t.has(i) implies #[trigger] balanced_at(c, bh2, i) by {
        assert(node_ok(a, ra, s, i));
        if i != p {
            assert(balanced_at(a, bh, i));
        }
        assert(c[i as int].color == b[i as int].color);
        if let Some(k) = a[i as int].left {
            assert(node_ok(a, ra, s, k));
        }
        if let Some(k) = a[i as int].right {
            assert(node_ok(a, ra, s, k));
        }
    }
    assert forall|i: usize| t.has(i) implies #[trigger] red_but(c, i, rc) by {
        assert(node_ok(a, ra, s, i));
        if x != Some(i) {
            assert(red_but(a, i, x));
        }
        assert(c[i as int].color == b[i as int].color);
        assert(node_ok(c, rc, t, i));
        if let Some(k) = c[i as int].left {
            assert(node_ok(c, rc, t, k));
            assert(c[k as int].color == b[k as int].color);
        }
        if let Some(k) = c[i as int].right {
            assert(node_ok(c, rc, t, k));
            assert(c[k as int].color == b[k as int].color);
        }
    }
}

/// A red sibling `w` is rotated above `p`, so that `x` gets a black sibling.
proof fn lemma_remove_red_sibling_right(
    a: Seq<RbNode>,
    ra: Option<usize>,
    c: Seq<RbNode>,
    rc: Option<usize>,
    s: Shape,
    bh: Map<usize, int>,
    x: Option<usize>,
    p: usize,
    w: usize,
)
    requires
        remove_inv(a, ra, s, bh, x, Some(p)),
        color_at(a, x) == Color::Black,
        a[p as int].right == x,
        a[p as int].left == Some(w),
        a[w as int].color == Color::Red,
        rotated_right(with_color(with_color(a, w, Color::Black), p, Color::Red), ra, c, rc, p, w),
    ensures
        remove_inv(c, rc, shape_right(s, p, w), bh.insert(w, bh[p]).insert(p, bh[w]), x, Some(p)),
        color_at(c, x) == Color::Black,
        c[p as int].right == x,
        c[p as int].color == Color::Red,
        c[p as int].left is Some,
        color_at(c, c[p as int].left) == Color::Black,
{
    let b = with_color(with_color(a, w, Color::Black), p, Color::Red);
    let t = shape_right(s, p, w);
    let bh2 = bh.insert(w, bh[p]).insert(p, bh[w]);
    assert(node_ok(a, ra, s, p));
    assert(node_ok(a, ra, s, w));
    lemma_recolor(a, b, ra, s);
    lemma_rotate_right(b, ra, c, rc, s, p, w);
    assert(balanced_at(a, bh, w));
    assert(red_but(a, w, x));
    assert(red_but(a, p, x));
    if let Some(m) = a[w as int].right {
        assert(node_ok(a, ra, s, m));
        assert(c[m as int].color == b[m as int].color);
    }
    if let Some(m) = a[w as int].left {
        assert(node_ok(a, ra, s, m));
    }
    if let Some(k) = x {
        assert(node_ok(a, ra, s, k));
        assert(c[k as int].color == b[k as int].color);
    }
    assert forall|i: usize| t.has(i) && i != p implies #[trigger] balanced_at(c, bh2, i) by {
        assert(node_ok(a, ra, s, i));
        assert(balanced_at(a, bh, i));
        assert(c[i as int].color == b[i as int].color);
        if let Some(k) = a[i as int].right {
            assert(node_ok(a, ra, s, k));
        }
        if let Some(k) = a[i as int].left {
            assert(node_ok(a, ra, s, k));
        }
    }
    assert forall|i: usize| t.has(i) && x != Some(i) implies #[trigger] red_but(c, i, x) by {
        assert(node_ok(a, ra, s, i));
        assert(red_but(a, i, x));
        assert(c[i as int].color == b[i as int].color);
        assert(node_ok(c, rc, t, i));
        if let Some(k) = c[i as int].right {
            assert(node_ok(c, rc, t, k));
            assert(c[k as int].color == b[k as int].color);
        }
        if let Some(k) = c[i as int].left {
            assert(node_ok(c, rc, t, k));
            assert(c[k as int].color == b[k as int].color);
        }
    }
    if let Some(r) = ra {
        assert(node_ok(a, ra, s, r));
        assert(c[r as int].color == b[r as int].color);
    }
}

/// A black sibling `w` with black children becomes red; the missing black node
/// moves up to `p`.
proof fn lemma_remove_push_up_right(
    a: Seq<RbNode>,
    root: Option<usize>,
    s: Shape,
    bh: Map<usize, int>,
    x: Option<usize>,
    p: usize,
    w: usize,
)
    requires
        remove_inv(a, root, s, bh, x, Some(p)),
        color_at(a, x) == Color::Black,
        a[p as int].right == x,
        a[p as int].left == Some(w),
        a[w as int].color == Color::Black,
        color_at(a, a[w as int].right) == Color::Black,
        color_at(a, a[w as int].left) == Color::Black,
    ensures
        remove_inv(
            with_color(a, w, Color::Red),
            root,
            s,
            bh.insert(w, bh[w] - 1).insert(p, bh[p] - 1),
            Some(p),
            a[p as int].parent,
        ),
        a[p as int].parent is Some ==> s.width(a[p as int].parent->0) > s.width(p),
{
    let b = with_color(a, w, Color::Red);
    let bh2 = bh.insert(w, bh[w] - 1).insert(p, bh[p] - 1);
    assert(node_ok(a, root, s, p));
    assert(node_ok(a, root, s, w));
    lemma_recolor(a, b, root, s);
    assert(balanced_at(a, bh, w));
    if let Some(g) = a[p as int].parent {
        assert(node_ok(a, root, s, g));
        assert(balanced_at(a, bh, g));
    }
    if let Some(m) = a[w as int].right {
        assert(node_ok(a, root, s, m));
    }
    if let Some(m) = a[w as int].left {
        assert(node_ok(a, root, s, m));
    }
    if let Some(k) = x {
        assert(node_ok(a, root, s, k));
    }
    assert forall|i: usize|
        s.has(i) && a[p as int].parent != Some(i) implies #[trigger] balanced_at(b, bh2, i) by {
        assert(node_ok(a, root, s, i));
        if i != p {
            assert(balanced_at(a, bh, i));
        }
    }
    assert forall|i: usize| s.has(i) && i != p implies #[trigger] red_but(b, i, Some(p)) by {
        assert(node_ok(a, root, s, i));
        if x != Some(i) {
            assert(red_but(a, i, x));
        }
        if let Some(k) = a[i as int].right {
            assert(node_ok(a, root, s, k));
        }
        if let Some(k) = a[i as int].left {
            assert(node_ok(a, root, s, k));
        }
    }
    if let Some(r) = root {
        assert(node_ok(a, root, s, r));
    }
}

/// A red inner nephew `m` is rotated above the black sibling `w`.
proof fn lemma_remove_inner_nephew_right(
    a: Seq<RbNode>,
    ra: Option<usize>,
    c: Seq<RbNode>,
    rc: Option<usize>,
    s: Shape,
    bh: Map<usize, int>,
    x: Option<usize>,
    p: usize,
    w: usize,
    m: usize,
)
    requires
        remove_inv(a, ra, s, bh, x, Some(p)),
        color_at(a, x) == Color::Black,
        a[p as int].right == x,
        a[p as int].left == Some(w),
        a[w as int].color == Color::Black,
        a[w as int].right == Some(m),
        a[m as int].color == Color::Red,
        color_at(a, a[w as int].left) == Color::Black,
        rotated_left(with_color(with_color(a, m, Color::Black), w, Color::Red), ra, c, rc, w, m),
    ensures
        remove_inv(c, rc, shape_left(s, w, m), bh.insert(m, bh[w]).insert(w, bh[m]), x, Some(p)),
        color_at(c, x) == Color::Black,
        c[p as int].right == x,
        c[p as int].left == Some(m),
        c[m as int].color == Color::Black,
        c[m as int].left == Some(w),
        c[w as int].color == Color::Red,
{
    let b = with_color(with_color(a, m, Color::Black), w, Color::Red);
    let t = shape_left(s, w, m);
    let bh2 = bh.insert(m, bh[w]).insert(w, bh[m]);
    assert(node_ok(a, ra, s, p));
    assert(node_ok(a, ra, s, w));
    assert(node_ok(a, ra, s, m));
    lemma_recolor(a, b, ra, s);
    lemma_rotate_left(b, ra, c, rc, s, w, m);
    assert(balanced_at(a, bh, w));
    assert(balanced_at(a, bh, m));
    assert(red_but(a, m, x));
    assert(c[p as int].color == b[p as int].color);
    if let Some(k) = a[w as int].left {
        assert(node_ok(a, ra, s, k));
    }
    if let Some(k) = a[m as int].right {
        assert(node_ok(a, ra, s, k));
    }
    if let Some(k) = a[m as int].left {
        assert(node_ok(a, ra, s, k));
    }
    if let Some(k) = x {
        assert(node_ok(a, ra, s, k));
        assert(c[k as int].color == b[k as int].color);
    }
    assert forall|i: usize| t.has(i) && i != p implies #[trigger] balanced_at(c, bh2, i) by {
        assert(node_ok(a, ra, s, i));
        assert(balanced_at(a, bh, i));
        assert(c[i as int].color == b[i as int].color);
        if let Some(k) = a[i as int].right {
            assert(node_ok(a, ra, s, k));
        }
        if let Some(k) = a[i as int].left {
            assert(node_ok(a, ra, s, k));
        }
    }
    assert forall|i: usize| t.has(i) && x != Some(i) implies #[trigger] red_but(c, i, x) by {
        assert(node_ok(a, ra, s, i));
        assert(red_but(a, i, x));
        assert(c[i as int].color == b[i as int].color);
        assert(node_ok(c, rc, t, i));
        if let Some(k) = c[i as int].right {
            assert(node_ok(c, rc, t, k));
            assert(c[k as int].color == b[k as int].color);
        }
        if let Some(k) = c[i as int].left {
            assert(node_ok(c, rc, t, k));
            assert(c[k as int].color == b[k as int].color);
        }
    }
    if let Some(r) = ra {
        assert(node_ok(a, ra, s, r));
        assert(c[r as int].color == b[r as int].color);
    }
}

/// A red outer nephew `n` pays for the missing black node.
proof fn lemma_remove_outer_nephew_right(
    a: Seq<RbNode>,
    ra: Option<usize>,
    c: Seq<RbNode>,
    rc: Option<usize>,
    s: Shape,
    bh: Map<usize, int>,
    x: Option<usize>,
    p: usize,
    w: usize,
    n: usize,
)
    requires
        remove_inv(a, ra, s, bh, x, Some(p)),
        color_at(a, x) == Color::Black,
        a[p as int].right == x,
        a[p as int].left == Some(w),
        a[w as int].color == Color::Black,
        a[w as int].left == Some(n),
        a[n as int].color == Color::Red,
        rotated_right(
            with_color(
                with_color(with_color(a, w, a[p as int].color), p, Color::Black),
                n,
                Color::Black,
            ),
            ra,
            c,
            rc,
            p,
            w,
        ),
    ensures
        remove_inv(
            c,
            rc,
            shape_right(s, p, w),
            bh.insert(w, bh[p]).insert(p, bh[w]).insert(n, bh[n] + 1),
            rc,
            None,
        ),
{
    let b = with_color(
        with_color(with_color(a, w, a[p as int].color), p, Color::Black),
        n,
        Color::Black,
    );
    let t = shape_right(s, p, w);
    let bh2 = bh.insert(w, bh[p]).insert(p, bh[w]).insert(n, bh[n] + 1);
    assert(node_ok(a, ra, s, p));
    assert(node_ok(a, ra, s, w));
    assert(node_ok(a, ra, s, n));
    lemma_recolor(a, b, ra, s);
    lemma_rotate_right(b, ra, c, rc, s, p, w);
    assert(balanced_at(a, bh, w));
    assert(balanced_at(a, bh, n));
    assert(red_but(a, p, x));
    assert(red_but(a, n, x));
    assert(c[p as int].color == b[p as int].color);
    if let Some(k) = a[w as int].right {
        assert(node_ok(a, ra, s, k));
    }
    if let Some(k) = x {
        assert(node_ok(a, ra, s, k));
        assert(c[k as int].color == b[k as int].color);
    }
    if let Some(g) = a[p as int].parent {
        assert(node_ok(a, ra, s, g));
        assert(red_but(a, g, x));
    }
    if let Some(r) = ra {
        assert(node_ok(a, ra, s, r));
        assert(c[r as int].color == b[r as int].color);
    }
    assert(node_ok(c, rc, t, w));
    assert forall|i: usize| t.has(i) implies #[trigger] balanced_at(c, bh2, i) by {
        assert(node_ok(a, ra, s, i));
        if i != p {
            assert(balanced_at(a, bh, i));
        }
        assert(c[i as int].color == b[i as int].color);
        if let Some(k) = a[i as int].right {
            assert(node_ok(a, ra, s, k));
        }
        if let Some(k) = a[i as int].left {
            assert(node_ok(a, ra, s, k));
        }
    }
    assert forall|i: usize| t.has(i) implies #[trigger] red_but(c, i, rc) by {
        assert(node_ok(a, ra, s, i));
        if x != Some(i) {
            assert(red_but(a, i, x));
        }
        assert(c[i as int].color == b[i as int].color);
        assert(node_ok(c, rc, t, i));
        if let Some(k) = c[i as int].right {
            assert(node_ok(c, rc, t, k));
            assert(c[k as int].color == b[k as int].color);
        }
        if let Some(k) = c[i as int].left {
            assert(node_ok(c, rc, t, k));
            assert(c[k as int].color == b[k as int].color);
        }
    }
}

/// Coloring `x` black ends the walk after a removal.
proof fn lemma_remove_done(
    a: Seq<RbNode>,
    root: Option<usize>,
    s: Shape,
    bh: Map<usize, int>,
    x: Option<usize>,
    parent: Option<usize>,
)
    requires
        remove_inv(a, root, s, bh, x, parent),
        x == root || color_at(a, x) == Color::Red,
    ensures
        match x {
            None => colored(a, root, s, bh),
            Some(k) => colored(
                with_color(a, k, Color::Black),
                root,
                s,
                if a[k as int].color == Color::Red {
                    bh.insert(k, bh[k] + 1)
                } else {
                    bh
                },
            ) && linked(with_color(a, k, Color::Black), root, s),
        },
{
    match x {
        None => {
            assert forall|i: usize| s.has(i) implies #[trigger] balanced_at(a, bh, i) by {
                assert(node_ok(a, root, s, i));
            }
            assert forall|i: usize| s.has(i) implies #[trigger] red_at(a, i) by {
                assert(node_ok(a, root, s, i));
            }
        },
        Some(k) => {
            let b = with_color(a, k, Color::Black);
            let bh2 = if a[k as int].color == Color::Red {
                bh.insert(k, bh[k] + 1)
            } else {
                bh
            };
            assert(node_ok(a, root, s, k));
            lemma_recolor(a, b, root, s);
            if let Some(p) = parent {
                assert(node_ok(a, root, s, p));
            } else {
                assert(balanced_at(a, bh, k));
            }
            assert forall|i: usize| s.has(i) implies #[trigger] balanced_at(b, bh2, i) by {
                assert(node_ok(a, root, s, i));
                if parent != Some(i) {
                    assert(balanced_at(a, bh, i));
                }
                if let Some(l) = a[i as int].left {
                    assert(node_ok(a, root, s, l));
                }
                if let Some(r) = a[i as int].right {
                    assert(node_ok(a, root, s, r));
                }
            }
            assert forall|i: usize| s.has(i) implies #[trigger] red_at(b, i) by {
                assert(node_ok(a, root, s, i));
                if i != k {
                    assert(red_but(a, i, x));
                }
                if let Some(l) = a[i as int].left {
                    assert(node_ok(a, root, s, l));
                }
                if let Some(r) = a[i as int].right {
                    assert(node_ok(a, root, s, r));
                }
            }
            if let Some(r) = root {
                assert(node_ok(a, root, s, r));
            }
        },
    }
}

impl<T: RBTreeNode> RBTree<T> {
    /// One step of the walk after a removal, with `x` the left child of `p`.
    fn remove_fixup_left(&mut self, arena: &mut Vec<T>, x: Option<usize>, p: usize) -> (next: (
        Option<usize>,
        Option<usize>,
    ))
        requires
            remove_inv(
                links(old(arena)@),
                old(self).root,
                old(self).shape@,
                old(self).heights@,
                x,
                Some(p),
            ),
            color_at(links(old(arena)@), x) == Color::Black,
            links(old(arena)@)[p as int].left == x,
        ensures
            remove_inv(
                links(final(arena)@),
                final(self).root,
                final(self).shape@,
                final(self).heights@,
                next.0,
                next.1,
            ),
            next.0 == final(self).root || color_at(links(final(arena)@), next.0) == Color::Red || (
            next.1 is Some && final(self).shape@.width(next.1->0) > old(self).shape@.width(p)),
            final(self).shape@.order == old(self).shape@.order,
            final(self).shape@.span.dom() == old(self).shape@.span.dom(),
            forall|i: usize|
                i < old(arena).len() && !old(self).shape@.has(i) ==> #[trigger] links(
                    final(arena)@,
                )[i as int] == links(old(arena)@)[i as int],
            payloads(final(arena)@) == payloads(old(arena)@),
            final(arena).len() == old(arena).len(),
            final(self).len == old(self).len,
    {
        let ghost a = links(arena@);
        let ghost ra = self.root;
        let ghost s = self.shape@;
        let ghost bh = self.heights@;
        proof {
            assert(node_ok(a, ra, s, p));
        }
        let mut w: usize = node_at(arena, p).right.unwrap();
        proof {
            assert(node_ok(a, self.root, s, w));
        }
        if node_at(arena, w).color == Color::Red {
            set_color(arena, w, Color::Black);
            set_color(arena, p, Color::Red);
            proof {
                lemma_recolor(a, links(arena@), ra, s);
            }
            self.left_rotate(arena, p);
            proof {
                lemma_remove_red_sibling_left(
                    a,
                    ra,
                    links(arena@),
                    self.root,
                    s,
                    bh,
                    x,
                    p,
                    w,
                );
                self.heights@ = bh.insert(w, bh[p]).insert(p, bh[w]);
                assert(node_ok(links(arena@), self.root, self.shape@, p));
            }
            w = node_at(arena, p).right.unwrap();
        }
        let ghost a1 = links(arena@);
        let ghost r1 = self.root;
        let ghost s1 = self.shape@;
        let ghost bh1 = self.heights@;
        proof {
            assert(node_ok(a1, r1, s1, p));
            assert(node_ok(a1, r1, s1, w));
            if let Some(k) = a1[w as int].left {
                assert(node_ok(a1, r1, s1, k));
            }
            if let Some(k) = a1[w as int].right {
                assert(node_ok(a1, r1, s1, k));
            }
            if let Some(k) = a1[p as int].parent {
                assert(node_ok(a1, r1, s1, k));
            }
        }
        let sibling = node_at(arena, w);
        if Self::color_of(arena, sibling.left) == Color::Black && Self::color_of(
            arena,
            sibling.right,
        ) == Color::Black {
            set_color(arena, w, Color::Red);
            proof {
                lemma_remove_push_up_left(a1, r1, s1, bh1, x, p, w);
                self.heights@ = bh1.insert(w, bh1[w] - 1).insert(p, bh1[p] - 1);
            }
            (Some(p), node_at(arena, p).parent)
        } else {
            if Self::color_of(arena, sibling.right) == Color::Black {
                let inner: usize = sibling.left.unwrap();
                set_color(arena, inner, Color::Black);
                set_color(arena, w, Color::Red);
                proof {
                    lemma_recolor(a1, links(arena@), r1, s1);
                }
                self.right_rotate(arena, w);
                proof {
                    lemma_remove_inner_nephew_left(
                        a1,
                        r1,
                        links(arena@),
                        self.root,
                        s1,
                        bh1,
                        x,
                        p,
                        w,
                        inner,
                    );
                    self.heights@ = bh1.insert(inner, bh1[w]).insert(w, bh1[inner]);
                    assert(node_ok(links(arena@), self.root, self.shape@, p));
                }
                w = node_at(arena, p).right.unwrap();
            }
            let ghost a2 = links(arena@);
            let ghost r2 = self.root;
            let ghost s2 = self.shape@;
            let ghost bh2 = self.heights@;
            proof {
                assert(node_ok(a2, r2, s2, p));
                assert(node_ok(a2, r2, s2, w));
                assert(node_ok(a2, r2, s2, a2[w as int].right->0));
            }
            let outer: usize = node_at(arena, w).right.unwrap();
            let color = node_at(arena, p).color;
            set_color(arena, w, color);
            set_color(arena, p, Color::Black);
            set_color(arena, outer, Color::Black);
            proof {
                lemma_recolor(a2, links(arena@), r2, s2);
            }
            self.left_rotate(arena, p);
            proof {
                lemma_remove_outer_nephew_left(
                    a2,
                    r2,
                    links(arena@),
                    self.root,
                    s2,
                    bh2,
                    x,
                    p,
                    w,
                    outer,
                );
                self.heights@ = bh2.insert(w, bh2[p]).insert(p, bh2[w]).insert(
                    outer,
                    bh2[outer] + 1,
                );
            }
            (self.root, None)
        }
    }

    /// One step of the walk after a removal, with `x` the right child of `p`.
    fn remove_fixup_right(&mut self, arena: &mut Vec<T>, x: Option<usize>, p: usize) -> (next: (
        Option<usize>,
        Option<usize>,
    ))
        requires
            remove_inv(
                links(old(arena)@),
                old(self).root,
                old(self).shape@,
                old(self).heights@,
                x,
                Some(p),
            ),
            color_at(links(old(arena)@), x) == Color::Black,
            links(old(arena)@)[p as int].right == x,
        ensures
            remove_inv(
                links(final(arena)@),
                final(self).root,
                final(self).shape@,
                final(self).heights@,
                next.0,
                next.1,
            ),
            next.0 == final(self).root || color_at(links(final(arena)@), next.0) == Color::Red || (
            next.1 is Some && final(self).shape@.width(next.1->0) > old(self).shape@.width(p)),
            final(self).shape@.order == old(self).shape@.order,
            final(self).shape@.span.dom() == old(self).shape@.span.dom(),
            forall|i: usize|
                i < old(arena).len() && !old(self).shape@.has(i) ==> #[trigger] links(
                    final(arena)@,
                )[i as int] == links(old(arena)@)[i as int],
            payloads(final(arena)@) == payloads(old(arena)@),
            final(arena).len() == old(arena).len(),
            final(self).len == old(self).len,
    {
        let ghost a = links(arena@);
        let ghost ra = self.root;
        let ghost s = self.shape@;
        let ghost bh = self.heights@;
        proof {
            assert(node_ok(a, ra, s, p));
        }
        let mut w: usize = node_at(arena, p).left.unwrap();
        proof {
            assert(node_ok(a, self.root, s, w));
        }
        if node_at(arena, w).color == Color::Red {
            set_color(arena, w, Color::Black);
            set_color(arena, p, Color::Red);
            proof {
                lemma_recolor(a, links(arena@), ra, s);
            }
            self.right_rotate(arena, p);
            proof {
                lemma_remove_red_sibling_right(
                    a,
                    ra,
                    links(arena@),
                    self.root,
                    s,
                    bh,
                    x,
                    p,
                    w,
                );
                self.heights@ = bh.insert(w, bh[p]).insert(p, bh[w]);
                assert(node_ok(links(arena@), self.root, self.shape@, p));
            }
            w = node_at(arena, p).left.unwrap();
        }
        let ghost a1 = links(arena@);
        let ghost r1 = self.root;
        let ghost s1 = self.shape@;
        let ghost bh1 = self.heights@;
        proof {
            assert(node_ok(a1, r1, s1, p));
            assert(node_ok(a1, r1, s1, w));
            if let Some(k) = a1[w as int].right {
                assert(node_ok(a1, r1, s1, k));
            }
            if let Some(k) = a1[w as int].left {
                assert(node_ok(a1, r1, s1, k));
            }
            if let Some(k) = a1[p as int].parent {
                assert(node_ok(a1, r1, s1, k));
            }
        }
        let sibling = node_at(arena, w);
        if Self::color_of(arena, sibling.right) == Color::Black && Self::color_of(
            arena,
            sibling.left,
        ) == Color::Black {
            set_color(arena, w, Color::Red);
            proof {
                lemma_remove_push_up_right(a1, r1, s1, bh1, x, p, w);
                self.heights@ = bh1.insert(w, bh1[w] - 1).insert(p, bh1[p] - 1);
            }
            (Some(p), node_at(arena, p).parent)
        } else {
            if Self::color_of(arena, sibling.left) == Color::Black {
                let inner: usize = sibling.right.unwrap();
                set_color(arena, inner, Color::Black);
                set_color(arena, w, Color::Red);
                proof {
                    lemma_recolor(a1, links(arena@), r1, s1);
                }
                self.left_rotate(arena, w);
                proof {
                    lemma_remove_inner_nephew_right(
                        a1,
                        r1,
                        links(arena@),
                        self.root,
                        s1,
                        bh1,
                        x,
                        p,
                        w,
                        inner,
                    );
                    self.heights@ = bh1.insert(inner, bh1[w]).insert(w, bh1[inner]);
                    assert(node_ok(links(arena@), self.root, self.shape@, p));
                }
                w = node_at(arena, p).left.unwrap();
            }
            let ghost a2 = links(arena@);
            let ghost r2 = self.root;
            let ghost s2 = self.shape@;
            let ghost bh2 = self.heights@;
            proof {
                assert(node_ok(a2, r2, s2, p));
                assert(node_ok(a2, r2, s2, w));
                assert(node_ok(a2, r2, s2, a2[w as int].left->0));
            }
            let outer: usize = node_at(arena, w).left.unwrap();
            let color = node_at(arena, p).color;
            set_color(arena, w, color);
            set_color(arena, p, Color::Black);
            set_color(arena, outer, Color::Black);
            proof {
                lemma_recolor(a2, links(arena@), r2, s2);
            }
            self.right_rotate(arena, p);
            proof {
                lemma_remove_outer_nephew_right(
                    a2,
                    r2,
                    links(arena@),
                    self.root,
                    s2,
                    bh2,
                    x,
                    p,
                    w,
                    outer,
                );
                self.heights@ = bh2.insert(w, bh2[p]).insert(p, bh2[w]).insert(
                    outer,
                    bh2[outer] + 1,
                );
            }
            (self.root, None)
        }
    }

    fn remove_fixup(
        &mut self,
        arena: &mut Vec<T>,
        start: Option<usize>,
        start_parent: Option<usize>,
    )
        requires
            remove_inv(
                links(old(arena)@),
                old(self).root,
                old(self).shape@,
                old(self).heights@,
                start,
                start_parent,
            ),
        ensures
            linked(links(final(arena)@), final(self).root, final(self).shape@),
            colored(
                links(final(arena)@),
                final(self).root,
                final(self).shape@,
                final(self).heights@,
            ),
            final(self).shape@.order == old(self).shape@.order,
            final(self).shape@.span.dom() == old(self).shape@.span.dom(),
            forall|i: usize|
                i < old(arena).len() && !old(self).shape@.has(i) ==> #[trigger] links(
                    final(arena)@,
                )[i as int] == links(old(arena)@)[i as int],
            payloads(final(arena)@) == payloads(old(arena)@),
            final(arena).len() == old(arena).len(),
            final(self).len == old(self).len,
    {
        let mut x: Option<usize> = start;
        let mut parent: Option<usize> = start_parent;
        proof {
            if let Some(k) = x {
                assert(node_ok(links(arena@), self.root, self.shape@, k));
            }
        }
        while x != self.root && Self::color_of(arena, x) == Color::Black
            invariant
                remove_inv(links(arena@), self.root, self.shape@, self.heights@, x, parent),
                x is Some ==> x->0 < arena.len(),
                self.shape@.order == old(self).shape@.order,
                self.shape@.span.dom() == old(self).shape@.span.dom(),
                forall|i: usize|
                    i < arena.len() && !old(self).shape@.has(i) ==> #[trigger] links(
                        arena@,
                    )[i as int] == links(old(arena)@)[i as int],
                payloads(arena@) == payloads(old(arena)@),
                arena.len() == old(arena).len(),
                self.len == old(self).len,
            decreases
                    (if x != self.root && color_at(links(arena@), x) == Color::Black {
                        1int
                    } else {
                        0int
                    }),
                    self.shape@.order.len() - self.shape@.width(parent->0),
        {
            let ghost a = links(arena@);
            let ghost ra = self.root;
            let ghost s = self.shape@;
            let p: usize = parent.unwrap();
            proof {
                assert(node_ok(a, ra, s, p));
            }
            if node_at(arena, p).left == x {
                let next = self.remove_fixup_left(arena, x, p);
                x = next.0;
                parent = next.1;
            } else {
                let next = self.remove_fixup_right(arena, x, p);
                x = next.0;
                parent = next.1;
            }
            proof {
                let n = links(arena@);
                if let Some(k) = x {
                    assert(node_ok(n, self.root, self.shape@, k));
                }
                if let Some(k) = parent {
                    assert(node_ok(n, self.root, self.shape@, k));
                }
            }
        }
        let ghost a = links(arena@);
        let ghost bh = self.heights@;
        proof {
            lemma_remove_done(a, self.root, self.shape@, bh, x, parent);
        }
        if let Some(k) = x {
            set_color(arena, k, Color::Black);
            proof {
                if a[k as int].color == Color::Red {
                    self.heights@ = bh.insert(k, bh[k] + 1);
                }
            }
        }
    }
}

impl<T: RBTreeNode> RBTree<T> {
    fn minimum(&self, arena: &Vec<T>, start: usize) -> (node: usize)
        requires
            linked(links(arena@), self.root, self.shape@),
            self.shape@.has(start),
        ensures
            self.shape@.has(node),
            node < arena.len(),
            node == self.shape@.order[self.shape@.span[start].lo],
            links(arena@)[node as int].left is None,
    {
        let ghost a = links(arena@);
        let ghost s = self.shape@;
        let mut node: usize = start;
        proof {
            assert(node_ok(a, self.root, s, node));
        }
        while node_at(arena, node).left.is_some()
            invariant
                a == links(arena@),
                s == self.shape@,
                linked(a, self.root, s),
                s.has(node),
                node < arena.len(),
                s.span[node].lo == s.span[start].lo,
            decreases s.width(node),
        {
            proof {
                assert(node_ok(a, self.root, s, node));
                assert(node_ok(a, self.root, s, a[node as int].left->0));
            }
            node = node_at(arena, node).left.unwrap();
        }
        proof {
            assert(node_ok(a, self.root, s, node));
        }
        node
    }

    fn maximum(&self, arena: &Vec<T>, start: usize) -> (node: usize)
        requires
            linked(links(arena@), self.root, self.shape@),
            self.shape@.has(start),
        ensures
            self.shape@.has(node),
            node < arena.len(),
            node == self.shape@.order[self.shape@.span[start].hi - 1],
            links(arena@)[node as int].right is None,
    {
        let ghost a = links(arena@);
        let ghost s = self.shape@;
        let mut node: usize = start;
        proof {
            assert(node_ok(a, self.root, s, node));
        }
        while node_at(arena, node).right.is_some()
            invariant
                a == links(arena@),
                s == self.shape@,
                linked(a, self.root, s),
                s.has(node),
                node < arena.len(),
                s.span[node].hi == s.span[start].hi,
            decreases s.width(node),
        {
            proof {
                assert(node_ok(a, self.root, s, node));
                assert(node_ok(a, self.root, s, a[node as int].right->0));
            }
            node = node_at(arena, node).right.unwrap();
        }
        proof {
            assert(node_ok(a, self.root, s, node));
        }
        node
    }

    /// Puts the subtree `v` in the place of the subtree `u`.
    fn transplant(&mut self, arena: &mut Vec<T>, u: usize, v: Option<usize>)
        requires
            u < old(arena).len(),
            links(old(arena)@)[u as int].parent is Some ==> links(old(arena)@)[u as int].parent->0
                < old(arena).len(),
            v is Some ==> v->0 < old(arena).len(),
        ensures
            ({
                let a = links(old(arena)@);
                let b = links(final(arena)@);
                let p = a[u as int].parent;
                &&& final(self).root == if p is None { v } else { old(self).root }
                &&& b.len() == a.len()
                &&& forall|i: usize|
                    #![trigger b[i as int]]
                    i < a.len() ==> b[i as int] == (RbNode {
                        parent: if v == Some(i) { p } else { a[i as int].parent },
                        left: if p == Some(i) && a[i as int].left == Some(u) {
                            v
                        } else {
                            a[i as int].left
                        },
                        right: if p == Some(i) && a[i as int].left != Some(u) {
                            v
                        } else {
                            a[i as int].right
                        },
                        color: a[i as int].color,
                    })
            }),
            payloads(final(arena)@) == payloads(old(arena)@),
            final(arena).len() == old(arena).len(),
            final(self).len == old(self).len,
            final(self).shape == old(self).shape,
            final(self).heights == old(self).heights,
    {
        let parent = node_at(arena, u).parent;
        match parent {
            None => {
                self.root = v;
            },
            Some(p) => {
                if node_at(arena, p).left == Some(u) {
                    set_left(arena, p, v);
                } else {
                    set_right(arena, p, v);
                }
            },
        }
        if let Some(k) = v {
            set_parent(arena, k, parent);
        }
    }

    /// Puts the successor `y` of `entity` in its place; `entity` has two children.
    fn replace_by_successor(&mut self, arena: &mut Vec<T>, entity: usize, y: usize)
        requires
            linked(links(old(arena)@), old(self).root, old(self).shape@),
            old(self).shape@.has(entity),
            links(old(arena)@)[entity as int].left is Some,
            links(old(arena)@)[entity as int].right is Some,
            old(self).shape@.has(y),
            links(old(arena)@)[y as int].left is None,
            old(self).shape@.span[y].pos == old(self).shape@.span[entity].pos + 1,
        ensures
            replaced(
                links(old(arena)@),
                old(self).root,
                links(final(arena)@),
                final(self).root,
                entity,
                y,
            ),
            payloads(final(arena)@) == payloads(old(arena)@),
            final(arena).len() == old(arena).len(),
            final(self).len == old(self).len,
            final(self).shape == old(self).shape,
            final(self).heights == old(self).heights,
    {
        let ghost a = links(arena@);
        let ghost ra = self.root;
        let ghost s = self.shape@;
        proof {
            assert(node_ok(a, ra, s, entity));
            if let Some(k) = a[entity as int].parent {
                assert(node_ok(a, ra, s, k));
            }
            assert(node_ok(a, ra, s, a[entity as int].left->0));
            assert(node_ok(a, ra, s, a[entity as int].right->0));
            assert(node_ok(a, ra, s, y));
            assert(node_ok(a, ra, s, a[y as int].parent->0));
            if let Some(k) = a[y as int].right {
                assert(node_ok(a, ra, s, k));
            }
        }
        let node = node_at(arena, entity);
        let left: usize = node.left.unwrap();
        let right: usize = node.right.unwrap();
        let heir = node_at(arena, y);
        if heir.parent != Some(entity) {
            self.transplant(arena, y, heir.right);
            set_right(arena, y, Some(right));
            set_parent(arena, right, Some(y));
        }
        self.transplant(arena, entity, Some(y));
        set_left(arena, y, Some(left));
        set_parent(arena, left, Some(y));
        set_color(arena, y, node.color);
    }

    /// Takes `entity` out of the tree. The result is the color that the tree lost,
    /// the subtree that moved up and its parent.
    fn unlink(&mut self, arena: &mut Vec<T>, entity: usize) -> (gap: (
        Color,
        Option<usize>,
        Option<usize>,
    ))
        requires
            linked(links(old(arena)@), old(self).root, old(self).shape@),
            colored(
                links(old(arena)@),
                old(self).root,
                old(self).shape@,
                old(self).heights@,
            ),
            old(self).shape@.has(entity),
        ensures
            linked(links(final(arena)@), final(self).root, final(self).shape@),
            gap.0 == Color::Red ==> colored(
                links(final(arena)@),
                final(self).root,
                final(self).shape@,
                final(self).heights@,
            ),
            gap.0 == Color::Black ==> remove_inv(
                links(final(arena)@),
                final(self).root,
                final(self).shape@,
                final(self).heights@,
                gap.1,
                gap.2,
            ),
            final(self).shape@.span.dom() == old(self).shape@.span.dom().remove(entity),
            final(self).shape@.order == order_remove(
                old(self).shape@.order,
                old(self).shape@.span[entity].pos,
            ),
            forall|i: usize|
                i < old(arena).len() && !old(self).shape@.has(i) ==> #[trigger] links(
                    final(arena)@,
                )[i as int] == links(old(arena)@)[i as int],
            payloads(final(arena)@) == payloads(old(arena)@),
            final(arena).len() == old(arena).len(),
            final(self).len == old(self).len,
    {
        let ghost a = links(arena@);
        let ghost ra = self.root;
        let ghost s = self.shape@;
        let ghost bh = self.heights@;
        proof {
            assert(node_ok(a, ra, s, entity));
            if let Some(k) = a[entity as int].parent {
                assert(node_ok(a, ra, s, k));
            }
            if let Some(k) = a[entity as int].left {
                assert(node_ok(a, ra, s, k));
            }
            if let Some(k) = a[entity as int].right {
                assert(node_ok(a, ra, s, k));
            }
        }
        let node = node_at(arena, entity);
        if node.left.is_none() {
            self.transplant(arena, entity, node.right);
            proof {
                lemma_splice(a, ra, links(arena@), self.root, s, bh, entity, node.right);
                self.shape@ = shape_remove(s, entity, None);
            }
            (node.color, node.right, node.parent)
        } else if node.right.is_none() {
            self.transplant(arena, entity, node.left);
            proof {
                lemma_splice(a, ra, links(arena@), self.root, s, bh, entity, node.left);
                self.shape@ = shape_remove(s, entity, None);
            }
            (node.color, node.left, node.parent)
        } else {
            let y: usize = self.minimum(arena, node.right.unwrap());
            let heir = node_at(arena, y);
            proof {
                assert(node_ok(a, ra, s, y));
                assert(node_ok(a, ra, s, a[y as int].parent->0));
                if let Some(k) = a[y as int].right {
                    assert(node_ok(a, ra, s, k));
                }
            }
            self.replace_by_successor(arena, entity, y);
            proof {
                lemma_replace(a, ra, links(arena@), self.root, s, bh, entity, y);
                self.shape@ = shape_remove(s, entity, Some(y));
                self.heights@ = bh.insert(y, bh[entity]);
            }
            (
                heir.color,
                heir.right,
                if heir.parent == Some(entity) {
                    Some(y)
                } else {
                    heir.parent
                },
            )
        }
    }

    /// Remove an entity from the tree.
    pub fn remove(&mut self, arena: &mut Vec<T>, entity: usize) -> (removed: usize)
        requires
            old(self).wf(old(arena)@),
            old(self).ids().contains(entity),
        ensures
            removed == entity,
            final(self).wf(final(arena)@),
            final(self).ids() == old(self).ids().remove(entity),
            final(self).len == old(self).len - 1,
            payloads(final(arena)@) == payloads(old(arena)@),
            final(arena).len() == old(arena).len(),
            links(final(arena)@)[entity as int] == RbNode::detached(),
            forall|i: usize|
                i < old(arena).len() && !old(self).ids().contains(i) ==> #[trigger] links(
                    final(arena)@,
                )[i as int] == links(old(arena)@)[i as int],
    {
        let ghost s = self.shape@;
        let ghost data = payloads(arena@);
        proof {
            assert(node_ok(links(arena@), self.root, s, entity));
        }
        let (lost, x, x_parent) = self.unlink(arena, entity);
        proof {
            assert(ascending::<T>(data, self.shape@.order));
        }
        if lost == Color::Black {
            self.remove_fixup(arena, x, x_parent);
        }
        let ghost b = links(arena@);
        set_node_at(arena, entity, RbNode::new());
        proof {
            lemma_links_frame(b, links(arena@), self.root, self.shape@, self.heights@);
        }
        self.len = self.len - 1;
        entity
    }
}

impl<T: RBTreeNode> RBTree<T> {
    pub fn new() -> (tree: Self)
        ensures
            tree.ids() == Set::<usize>::empty(),
            forall|arena: Seq<T>| #[trigger] tree.wf(arena),
    {
        let tree = Self {
            root: None,
            len: 0,
            shape: Ghost(Shape { order: Seq::empty(), span: Map::empty() }),
            heights: Ghost(Map::empty()),
            entity: PhantomData,
        };
        assert(tree.ids() =~= Set::<usize>::empty());
        tree
    }

    pub fn is_empty(&self, arena: &Vec<T>) -> (empty: bool)
        requires
            self.wf(arena@),
        ensures
            empty == (self.ids() == Set::<usize>::empty()),
            empty == (self.len == 0),
    {
        proof {
            self.lemma_members(arena@);
            if let Some(r) = self.root {
                assert(node_ok(links(arena@), self.root, self.shape@, r));
                assert(self.ids().contains(r));
            }
            if self.shape@.order.len() == 0 {
                assert forall|i: usize| !self.ids().contains(i) by {
                    if self.ids().contains(i) {
                        assert(node_ok(links(arena@), self.root, self.shape@, i));
                    }
                }
                assert(self.ids() =~= Set::<usize>::empty());
            }
        }
        self.root.is_none()
    }

    pub fn len(&self) -> (len: usize)
        ensures
            len == self.len,
    {
        self.len
    }

    pub fn root(&self) -> (root: Option<usize>)
        ensures
            root == self.root,
    {
        self.root
    }

    /// Left-most entity of the tree.
    pub fn first(&self, arena: &Vec<T>) -> (first: Option<usize>)
        requires
            self.wf(arena@),
        ensures
            first == first_of::<T>(payloads(arena@), self.ids()),
            match first {
                None => self.ids() == Set::<usize>::empty() && self.order().len() == 0,
                Some(i) => {
                    &&& i < arena.len()
                    &&& self.ids().contains(i)
                    &&& self.position(i) == 0
                    &&& is_first::<T>(payloads(arena@), self.ids(), i)
                    &&& self.order().len() > 0
                    &&& self.order()[0] == i
                },
            },
    {
        proof {
            self.lemma_members(arena@);
            if let Some(r) = self.root {
                assert(node_ok(links(arena@), self.root, self.shape@, r));
            } else {
                assert(self.ids() =~= Set::<usize>::empty());
            }
        }
        match self.root {
            None => None,
            Some(r) => {
                let first: usize = self.minimum(arena, r);
                proof {
                    lemma_first_of::<T>(payloads(arena@), self.ids(), first);
                }
                Some(first)
            },
        }
    }

    /// Right-most entity of the tree.
    pub fn last(&self, arena: &Vec<T>) -> (last: Option<usize>)
        requires
            self.wf(arena@),
        ensures
            match last {
                None => self.ids() == Set::<usize>::empty() && self.order().len() == 0,
                Some(i) => {
                    &&& i < arena.len()
                    &&& is_last::<T>(payloads(arena@), self.ids(), i)
                    &&& self.order().len() > 0
                    &&& self.order().last() == i
                },
            },
    {
        proof {
            self.lemma_members(arena@);
            if let Some(r) = self.root {
                assert(node_ok(links(arena@), self.root, self.shape@, r));
            } else {
                assert(self.ids() =~= Set::<usize>::empty());
            }
        }
        match self.root {
            None => None,
            Some(r) => Some(self.maximum(arena, r)),
        }
    }

    /// Position of a queued entity in ascending order.
    pub open spec fn position(&self, i: usize) -> int {
        self.shape@.span[i].pos
    }

    /// In-order successor of a queued entity.
    pub fn next(&self, arena: &Vec<T>, entity: usize) -> (next: Option<usize>)
        requires
            self.wf(arena@),
            self.ids().contains(entity),
        ensures
            self.order()[self.position(entity)] == entity,
            next == if self.position(entity) + 1 < self.order().len() {
                Some(self.order()[self.position(entity) + 1])
            } else {
                None
            },
            next is Some ==> self.ids().contains(next->0) && self.position(next->0)
                == self.position(entity) + 1,
    {
        let ghost a = links(arena@);
        let ghost s = self.shape@;
        proof {
            assert(node_ok(a, self.root, s, entity));
        }
        let start = node_at(arena, entity);
        if start.right.is_some() {
            proof {
                assert(node_ok(a, self.root, s, a[entity as int].right->0));
            }
            return Some(self.minimum(arena, start.right.unwrap()));
        }
        let mut node: usize = entity;
        let mut parent: Option<usize> = start.parent;
        proof {
            if let Some(p) = parent {
                assert(node_ok(a, self.root, s, p));
            }
        }
        while parent.is_some() && node_at(arena, parent.unwrap()).right == Some(node)
            invariant
                a == links(arena@),
                s == self.shape@,
                linked(a, self.root, s),
                s.has(node),
                parent == a[node as int].parent,
                parent is Some ==> s.has(parent->0) && parent->0 < arena.len(),
                s.span[node].hi == s.span[entity].pos + 1,
            decreases s.order.len() - s.width(node),
        {
            proof {
                assert(node_ok(a, self.root, s, node));
                assert(node_ok(a, self.root, s, parent->0));
                if let Some(g) = a[parent->0 as int].parent {
                    assert(node_ok(a, self.root, s, g));
                }
            }
            node = parent.unwrap();
            parent = node_at(arena, node).parent;
        }
        proof {
            assert(node_ok(a, self.root, s, node));
            if let Some(p) = parent {
                assert(node_ok(a, self.root, s, p));
            }
        }
        parent
    }

    /// Whether the entity is queued in this tree.
    pub fn contains(&self, arena: &Vec<T>, entity: usize) -> (found: bool)
        requires
            self.wf(arena@),
        ensures
            found == self.ids().contains(entity),
    {
        let mut current: Option<usize> = self.first(arena);
        let ghost mut k: int = 0;
        proof {
            self.lemma_members(arena@);
        }
        while current.is_some()
            invariant
                self.wf(arena@),
                0 <= k <= self.order().len(),
                current == if k < self.order().len() {
                    Some(self.order()[k])
                } else {
                    None
                },
                forall|j: int| 0 <= j < k ==> #[trigger] self.order()[j] != entity,
                forall|j: int|
                    0 <= j < self.order().len() ==> self.ids().contains(
                        #[trigger] self.order()[j],
                    ) && self.position(self.order()[j]) == j,
            decreases self.order().len() - k,
        {
            let c: usize = current.unwrap();
            if c == entity {
                return true;
            }
            current = self.next(arena, c);
            proof {
                k = k + 1;
            }
        }
        proof {
            if self.ids().contains(entity) {
                assert(node_ok(links(arena@), self.root, self.shape@, entity));
                assert(self.order()[self.position(entity)] == entity);
            }
        }
        false
    }

    /// The queued entities in ascending order.
    pub fn entities(&self, arena: &Vec<T>) -> (list: Vec<usize>)
        requires
            self.wf(arena@),
        ensures
            list@ == self.order(),
            list@ == in_order::<T>(payloads(arena@), self.ids()),
            forall|k: int| 0 <= k < list@.len() ==> (#[trigger] list@[k]) < arena.len(),
    {
        let mut list: Vec<usize> = Vec::new();
        let mut current: Option<usize> = self.first(arena);
        proof {
            self.lemma_members(arena@);
            self.lemma_in_order(arena@);
        }
        while current.is_some()
            invariant
                self.wf(arena@),
                list@.len() <= self.order().len(),
                list@ == self.order().take(list@.len() as int),
                current == if list@.len() < self.order().len() {
                    Some(self.order()[list@.len() as int])
                } else {
                    None
                },
                forall|j: int|
                    0 <= j < self.order().len() ==> self.ids().contains(
                        #[trigger] self.order()[j],
                    ) && self.position(self.order()[j]) == j && self.order()[j] < arena.len(),
            decreases self.order().len() - list@.len(),
        {
            let c: usize = current.unwrap();
            let ghost before = list@;
            list.push(c);
            assert(list@ =~= self.order().take(list@.len() as int));
            assert(self.ids().contains(self.order()[before.len() as int]));
            current = self.next(arena, c);
        }
        assert(list@ =~= self.order());
        list
    }

    /// Remove and return the left-most entity in the tree.
    pub fn pop_first(&mut self, arena: &mut Vec<T>) -> (popped: Option<usize>)
        requires
            old(self).wf(old(arena)@),
        ensures
            final(self).wf(final(arena)@),
            payloads(final(arena)@) == payloads(old(arena)@),
            final(arena).len() == old(arena).len(),
            match popped {
                None => {
                    &&& old(self).ids() == Set::<usize>::empty()
                    &&& *final(self) == *old(self)
                    &&& final(arena)@ == old(arena)@
                },
                Some(i) => {
                    &&& is_first::<T>(payloads(old(arena)@), old(self).ids(), i)
                    &&& final(self).ids() == old(self).ids().remove(i)
                    &&& final(self).len == old(self).len - 1
                    &&& i < final(arena).len()
                    &&& links(final(arena)@)[i as int] == RbNode::detached()
                },
            },
            forall|i: usize|
                i < old(arena).len() && !old(self).ids().contains(i) ==> #[trigger] links(
                    final(arena)@,
                )[i as int] == links(old(arena)@)[i as int],
    {
        match self.first(arena) {
            None => None,
            Some(i) => Some(self.remove(arena, i)),
        }
    }

    /// The ascending sequence lists each queued entity once, and nothing else.
    pub proof fn lemma_members(&self, arena: Seq<T>)
        requires
            self.wf(arena),
        ensures
            self.order().no_duplicates(),
            self.order().len() <= arena.len(),
            forall|i: usize|
                #[trigger] self.ids().contains(i) ==> {
                    &&& i < arena.len()
                    &&& 0 <= self.position(i) < self.order().len()
                    &&& self.order()[self.position(i)] == i
                },
            forall|k: int|
                0 <= k < self.order().len() ==> self.ids().contains(#[trigger] self.order()[k])
                    && self.position(self.order()[k]) == k,
    {
        assert forall|i: usize| #[trigger] self.ids().contains(i) implies {
            &&& i < arena.len()
            &&& 0 <= self.position(i) < self.order().len()
            &&& self.order()[self.position(i)] == i
        } by {
            assert(self.shape@.has(i));
            assert(node_ok(links(arena), self.root, self.shape@, i));
        }
        assert forall|k: int| 0 <= k < self.order().len() implies self.ids().contains(
            #[trigger] self.order()[k],
        ) && self.position(self.order()[k]) == k by {
            assert(self.shape@.has(self.shape@.order[k]));
        }
        lemma_order_bound(links(arena), self.root, self.shape@);
    }

    /// The tree lists its entities in ascending order.
    pub proof fn lemma_in_order(&self, arena: Seq<T>)
        requires
            self.wf(arena),
        ensures
            lists::<T>(payloads(arena), self.ids(), self.order()),
            self.order() == in_order::<T>(payloads(arena), self.ids()),
            self.ids().finite(),
            self.ids().len() == self.len,
    {
        self.lemma_members(arena);
        let data = payloads(arena);
        assert forall|i: usize| #[trigger] self.ids().contains(i) <==> self.order().contains(i) by {
            if self.ids().contains(i) {
                assert(self.order()[self.position(i)] == i);
            }
        }
        let listed = in_order::<T>(data, self.ids());
        assert(lists::<T>(data, self.ids(), self.order()));
        assert(lists::<T>(data, self.ids(), listed));
        lemma_listing_unique::<T>(data, self.ids(), self.order(), listed);
        assert(self.order().to_set() =~= self.ids());
        self.order().unique_seq_to_set();
    }

    /// A tree depends on the links and the keys of its own entities only.
    pub proof fn lemma_frame(&self, a: Seq<T>, b: Seq<T>)
        requires
            self.wf(a),
            a.len() <= b.len(),
            forall|i: usize|
                i < a.len() && #[trigger] self.ids().contains(i) ==> {
                    &&& b[i as int].links() == a[i as int].links()
                    &&& T::rank(b[i as int].payload()) == T::rank(a[i as int].payload())
                },
        ensures
            self.wf(b),
    {
        self.lemma_members(a);
        assert forall|i: usize| i < links(a).len() && self.shape@.has(i) implies links(a)[i as int]
            == #[trigger] links(b)[i as int] by {
            assert(self.ids().contains(i));
        }
        lemma_links_frame(links(a), links(b), self.root, self.shape@, self.heights@);
        assert forall|j: int, k: int| 0 <= j < k < self.order().len() implies before::<T>(
            payloads(b),
            #[trigger] self.order()[j],
            #[trigger] self.order()[k],
        ) by {
            assert(before::<T>(payloads(a), self.order()[j], self.order()[k]));
        }
    }
}

impl<T: RBTreeNode> Default for RBTree<T> {
    fn default() -> (tree: Self)
        ensures
            tree.ids() == Set::<usize>::empty(),
            forall|arena: Seq<T>| #[trigger] tree.wf(arena),
    {
        Self::new()
    }
}

/// The order of slots is total: of two different slots, one comes first.
pub proof fn lemma_before_total<T: RBTreeNode>(data: Seq<T::Payload>, a: usize, b: usize)
    requires
        a != b,
    ensures
        before::<T>(data, a, b) != before::<T>(data, b, a),
{
}

/// A set of slots has at most one first element.
pub proof fn lemma_first_unique<T: RBTreeNode>(
    data: Seq<T::Payload>,
    ids: Set<usize>,
    a: usize,
    b: usize,
)
    requires
        is_first::<T>(data, ids, a),
        is_first::<T>(data, ids, b),
    ensures
        a == b,
{
    if a != b {
        assert(before::<T>(data, a, b));
        assert(before::<T>(data, b, a));
    }
}

/// Whatever is first of a set is the first element of it.
pub proof fn lemma_first_of<T: RBTreeNode>(data: Seq<T::Payload>, ids: Set<usize>, slot: usize)
    requires
        is_first::<T>(data, ids, slot),
    ensures
        first_of::<T>(data, ids) == Some(slot),
{
    let i = choose|i: usize| is_first::<T>(data, ids, i);
    lemma_first_unique::<T>(data, ids, i, slot);
}

/// There are finitely many slots.
pub proof fn lemma_slots_finite(ids: Set<usize>)
    ensures
        ids.finite(),
{
    let numbers = vstd::set_lib::set_int_range(0, usize::MAX + 1);
    vstd::set_lib::lemma_int_range(0, usize::MAX + 1);
    numbers.lemma_map_finite(|n: int| n as usize);
    let slots = numbers.map(|n: int| n as usize);
    assert forall|i: usize| ids.contains(i) implies slots.contains(i) by {
        assert(numbers.contains(i as int));
        assert((i as int) as usize == i);
    }
    vstd::set_lib::lemma_set_subset_finite(slots, ids);
}

/// A set of slots that is not empty has a first element.
pub proof fn lemma_first_exists<T: RBTreeNode>(data: Seq<T::Payload>, ids: Set<usize>)
    requires
        ids != Set::<usize>::empty(),
    ensures
        first_of::<T>(data, ids) is Some,
        is_first::<T>(data, ids, first_of::<T>(data, ids)->0),
    decreases ids.len(),
{
    lemma_slots_finite(ids);
    assert(ids.len() > 0) by {
        if ids.len() == 0 {
            assert(ids =~= Set::<usize>::empty());
        }
    }
    let i = ids.choose();
    let rest = ids.remove(i);
    if rest == Set::<usize>::empty() {
        assert forall|j: usize| #[trigger] ids.contains(j) && j != i implies before::<T>(
            data,
            i,
            j,
        ) by {
            assert(rest.contains(j));
        }
        assert(is_first::<T>(data, ids, i));
        lemma_first_of::<T>(data, ids, i);
    } else {
        lemma_first_exists::<T>(data, rest);
        let f = first_of::<T>(data, rest)->0;
        lemma_before_total::<T>(data, i, f);
        if before::<T>(data, i, f) {
            assert forall|j: usize| #[trigger] ids.contains(j) && j != i implies before::<T>(
                data,
                i,
                j,
            ) by {
                assert(rest.contains(j));
            }
            assert(is_first::<T>(data, ids, i));
            lemma_first_of::<T>(data, ids, i);
        } else {
            assert forall|j: usize| #[trigger] ids.contains(j) && j != f implies before::<T>(
                data,
                f,
                j,
            ) by {
                if j != i {
                    assert(rest.contains(j));
                }
            }
            assert(is_first::<T>(data, ids, f));
            lemma_first_of::<T>(data, ids, f);
        }
    }
}

/// An empty set has no first element.
pub proof fn lemma_first_of_empty<T: RBTreeNode>(data: Seq<T::Payload>, ids: Set<usize>)
    requires
        ids == Set::<usize>::empty(),
    ensures
        first_of::<T>(data, ids) == None::<usize>,
{
}

/// A set of slots can be listed in ascending order in one way only.
pub proof fn lemma_listing_unique<T: RBTreeNode>(
    data: Seq<T::Payload>,
    ids: Set<usize>,
    s: Seq<usize>,
    t: Seq<usize>,
)
    requires
        lists::<T>(data, ids, s),
        lists::<T>(data, ids, t),
    ensures
        s == t,
{
    assert(s.to_set() =~= ids) by {
        assert forall|i: usize| s.to_set().contains(i) <==> ids.contains(i) by {
            assert(s.to_set().contains(i) <==> s.contains(i));
        }
    }
    assert(t.to_set() =~= ids) by {
        assert forall|i: usize| t.to_set().contains(i) <==> ids.contains(i) by {
            assert(t.to_set().contains(i) <==> t.contains(i));
        }
    }
    assert(s.no_duplicates() && t.no_duplicates()) by {
        assert forall|j: int, k: int| 0 <= j < k < s.len() implies s[j] != s[k] by {
            assert(before::<T>(data, s[j], s[k]));
        }
        assert forall|j: int, k: int| 0 <= j < k < t.len() implies t[j] != t[k] by {
            assert(before::<T>(data, t[j], t[k]));
        }
    }
    s.unique_seq_to_set();
    t.unique_seq_to_set();
    assert forall|k: int| 0 <= k < s.len() implies s[k] == t[k] by {
        lemma_listings_agree::<T>(data, ids, s, t, k);
    }
    assert(s =~= t);
}

proof fn lemma_listings_agree<T: RBTreeNode>(
    data: Seq<T::Payload>,
    ids: Set<usize>,
    s: Seq<usize>,
    t: Seq<usize>,
    k: int,
)
    requires
        lists::<T>(data, ids, s),
        lists::<T>(data, ids, t),
        s.len() == t.len(),
        0 <= k < s.len(),
    ensures
        s[k] == t[k],
    decreases k,
{
    assert forall|j: int| 0 <= j < k implies s[j] == t[j] by {
        lemma_listings_agree::<T>(data, ids, s, t, j);
    }
    let x = s[k];
    let y = t[k];
    if x != y {
        assert(s.contains(x) && t.contains(y));
        assert(ids.contains(x) && ids.contains(y));
        let jx = choose|j: int| 0 <= j < t.len() && t[j] == x;
        let jy = choose|j: int| 0 <= j < s.len() && s[j] == y;
        if jx < k {
            assert(s[jx] == x);
            assert(before::<T>(data, s[jx], s[k]));
        }
        if jy < k {
            assert(t[jy] == y);
            assert(before::<T>(data, t[jy], t[k]));
        }
        assert(before::<T>(data, t[k], t[jx]));
        assert(before::<T>(data, s[k], s[jy]));
    }
}

/// The ascending sequence is determined by the queued set and the keys: two
/// trees that hold the same entities list them in the same order, whatever the
/// history of insertions and removals.
pub proof fn lemma_order_unique<T: RBTreeNode>(s: RBTree<T>, a: Seq<T>, t: RBTree<T>, b: Seq<T>)
    requires
        s.wf(a),
        t.wf(b),
        s.ids() == t.ids(),
        payloads(a) == payloads(b),
    ensures
        s.order() == t.order(),
{
    s.lemma_in_order(a);
    t.lemma_in_order(b);
}

/// Nodes on the longest path down from a node, counting no further than `limit`.
pub open spec fn depth(nodes: Seq<RbNode>, i: Option<usize>, limit: nat) -> nat
    decreases limit,
{
    match i {
        Some(i) if limit > 0 => {
            let left = depth(nodes, nodes[i as int].left, (limit - 1) as nat);
            let right = depth(nodes, nodes[i as int].right, (limit - 1) as nat);
            1 + if left >= right {
                left
            } else {
                right
            }
        },
        _ => 0,
    }
}

/// At least every second node on a path is black.
proof fn lemma_depth_bounded(
    nodes: Seq<RbNode>,
    root: Option<usize>,
    s: Shape,
    bh: Map<usize, int>,
    i: Option<usize>,
    limit: nat,
)
    requires
        linked(nodes, root, s),
        colored(nodes, root, s, bh),
        i is Some ==> s.has(i->0),
    ensures
        height_at(bh, i) >= 0,
        depth(nodes, i, limit) <= 2 * height_at(bh, i) + 1 - blackness(color_at(nodes, i)),
    decreases limit,
{
    if let Some(n) = i {
        assert(node_ok(nodes, root, s, n));
        assert(balanced_at(nodes, bh, n));
        assert(red_at(nodes, n));
        if limit > 0 {
            lemma_depth_bounded(nodes, root, s, bh, nodes[n as int].left, (limit - 1) as nat);
            lemma_depth_bounded(nodes, root, s, bh, nodes[n as int].right, (limit - 1) as nat);
        }
    }
}

/// A subtree has enough nodes for its black nodes on each path.
proof fn lemma_width_bounded(
    nodes: Seq<RbNode>,
    root: Option<usize>,
    s: Shape,
    bh: Map<usize, int>,
    i: usize,
)
    requires
        linked(nodes, root, s),
        colored(nodes, root, s, bh),
        s.has(i),
    ensures
        bh[i] >= 0,
        vstd::arithmetic::power2::pow2(bh[i] as nat) <= s.width(i) + 1,
    decreases s.width(i),
{
    assert(node_ok(nodes, root, s, i));
    assert(balanced_at(nodes, bh, i));
    let n = nodes[i as int];
    let below = height_at(bh, n.left) as nat;
    vstd::arithmetic::power2::lemma2_to64();
    if let Some(l) = n.left {
        assert(node_ok(nodes, root, s, l));
        lemma_width_bounded(nodes, root, s, bh, l);
    }
    if let Some(r) = n.right {
        assert(node_ok(nodes, root, s, r));
        lemma_width_bounded(nodes, root, s, bh, r);
    }
    vstd::arithmetic::power2::lemma_pow2_pos(below);
    if n.color == Color::Black {
        vstd::arithmetic::power2::lemma_pow2_unfold((below + 1) as nat);
    }
}

impl<T: RBTreeNode> RBTree<T> {
    /// The tree is balanced: the number of nodes on a path grows no faster than
    /// twice the binary logarithm of the number of entities.
    pub proof fn lemma_paths_are_short(&self, arena: Seq<T>, limit: nat)
        requires
            self.wf(arena),
        ensures
            vstd::arithmetic::power2::pow2((depth(links(arena), self.root, limit) / 2) as nat)
                <= self.len + 1,
    {
        let nodes = links(arena);
        vstd::arithmetic::power2::lemma2_to64();
        if let Some(r) = self.root {
            assert(node_ok(nodes, self.root, self.shape@, r));
            lemma_depth_bounded(nodes, self.root, self.shape@, self.heights@, self.root, limit);
            lemma_width_bounded(nodes, self.root, self.shape@, self.heights@, r);
            let half = (depth(nodes, self.root, limit) / 2) as nat;
            let height = self.heights@[r] as nat;
            if half < height {
                vstd::arithmetic::power2::lemma_pow2_strictly_increases(half, height);
            }
        }
    }
}

/// Taking out what was just put in, or putting back what was just taken out, leaves
/// the same entities queued.
pub proof fn lemma_insert_remove_cancel(ids: Set<usize>, entity: usize)
    ensures
        !ids.contains(entity) ==> ids.insert(entity).remove(entity) == ids,
        ids.contains(entity) ==> ids.remove(entity).insert(entity) == ids,
{
    if ids.contains(entity) {
        assert(ids.remove(entity).insert(entity) =~= ids);
    } else {
        assert(ids.insert(entity).remove(entity) =~= ids);
    }
}

} // verus!
