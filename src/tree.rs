//! A binary tree with parent links, kept in an arena of nodes addressed by
//! index, and a cursor that walks it by borrowing the tree.
//!
//! In an arena the root is always the last node, and every child sits at a
//! smaller index than its parent. The model of a tree is a [`Shape`]; the
//! model of a cursor is the path from the root to the node it stands on, or
//! nothing once it has left the tree.
use vstd::prelude::*;

verus! {

/// Which child of a node.
pub enum Side {
    Left,
    Right,
}

/// One step of a cursor.
pub enum Move {
    Parent,
    Left,
    Right,
}

/// A binary tree as a mathematical value.
pub enum Shape<T> {
    Empty,
    Node { value: T, left: Box<Shape<T>>, right: Box<Shape<T>> },
}

/// The child of `t` on `side`; empty below an empty tree.
pub open spec fn child<T>(t: Shape<T>, side: Side) -> Shape<T> {
    match t {
        Shape::Empty => Shape::Empty,
        Shape::Node { left, right, .. } => match side {
            Side::Left => *left,
            Side::Right => *right,
        },
    }
}

/// The subtree of `t` reached from its root by following `path`.
pub open spec fn subtree<T>(t: Shape<T>, path: Seq<Side>) -> Shape<T>
    decreases path.len(),
{
    if path.len() == 0 {
        t
    } else {
        child(subtree(t, path.drop_last()), path.last())
    }
}

/// Where a cursor at `at` in `t` stands after `m`: moving off the tree, or
/// moving from nothing, gives nothing.
pub open spec fn navigate<T>(t: Shape<T>, at: Option<Seq<Side>>, m: Move) -> Option<Seq<Side>> {
    match at {
        None => None,
        Some(p) => match m {
            Move::Parent => if p.len() == 0 {
                None
            } else {
                Some(p.drop_last())
            },
            Move::Left => if subtree(t, p.push(Side::Left)) is Node {
                Some(p.push(Side::Left))
            } else {
                None
            },
            Move::Right => if subtree(t, p.push(Side::Right)) is Node {
                Some(p.push(Side::Right))
            } else {
                None
            },
        },
    }
}

/// Where a cursor at `at` in `t` stands after the moves in order.
pub open spec fn walk<T>(t: Shape<T>, at: Option<Seq<Side>>, moves: Seq<Move>) -> Option<Seq<Side>>
    decreases moves.len(),
{
    if moves.len() == 0 {
        at
    } else {
        navigate(t, walk(t, at, moves.drop_last()), moves.last())
    }
}

/// The value at the node a cursor stands on, if it stands on one.
pub open spec fn value_at<T>(t: Shape<T>, at: Option<Seq<Side>>) -> Option<T> {
    match at {
        None => None,
        Some(p) => match subtree(t, p) {
            Shape::Empty => None,
            Shape::Node { value, .. } => Some(value),
        },
    }
}

/// The path of a cursor on the root of `t`; nothing when `t` is empty.
pub open spec fn top<T>(t: Shape<T>) -> Option<Seq<Side>> {
    if t is Empty {
        None
    } else {
        Some(Seq::empty())
    }
}

/// Shape preservation: in the tree built by `branch` from `value`, `left` and
/// `right`, the left child of the root holds the root value of `left`, the
/// right child holds the root value of `right`, and going up from either
/// child reads `value` again. Below each child the subtree is the one that
/// was given.
pub proof fn lemma_branch_shape<T>(value: T, left: Shape<T>, right: Shape<T>, path: Seq<Side>)
    requires
        left is Node,
        right is Node,
    ensures
        ({
            let t = Shape::Node { value, left: Box::new(left), right: Box::new(right) };
            &&& value_at(t, navigate(t, top(t), Move::Left)) == value_at(left, top(left))
            &&& value_at(t, navigate(t, top(t), Move::Right)) == value_at(right, top(right))
            &&& value_at(t, navigate(t, navigate(t, top(t), Move::Left), Move::Parent)) == Some(
                value,
            )
            &&& value_at(t, navigate(t, navigate(t, top(t), Move::Right), Move::Parent)) == Some(
                value,
            )
            &&& subtree(t, seq![Side::Left] + path) == subtree(left, path)
            &&& subtree(t, seq![Side::Right] + path) == subtree(right, path)
        }),
    decreases path.len(),
{
    let t = Shape::Node { value, left: Box::new(left), right: Box::new(right) };
    let e = Seq::<Side>::empty();
    assert(subtree(t, e) == t);
    assert(e.push(Side::Left).drop_last() =~= e);
    assert(e.push(Side::Right).drop_last() =~= e);
    assert(subtree(t, e.push(Side::Left)) == left);
    assert(subtree(t, e.push(Side::Right)) == right);
    if path.len() == 0 {
        assert(seq![Side::Left] + path =~= e.push(Side::Left));
        assert(seq![Side::Right] + path =~= e.push(Side::Right));
    } else {
        let q = path.drop_last();
        lemma_branch_shape(value, left, right, q);
        assert((seq![Side::Left] + path).drop_last() =~= seq![Side::Left] + q);
        assert((seq![Side::Right] + path).drop_last() =~= seq![Side::Right] + q);
    }
}

/// Navigation is total: from nothing, any chain of moves stays at nothing,
/// and reading there gives no value.
pub proof fn lemma_nothing_stays<T>(t: Shape<T>, moves: Seq<Move>)
    ensures
        walk(t, None, moves) == None::<Seq<Side>>,
        value_at(t, walk(t, None, moves)) == None::<T>,
    decreases moves.len(),
{
    if moves.len() > 0 {
        lemma_nothing_stays(t, moves.drop_last());
    }
}

/// The links of one node in the arena.
#[derive(Clone, Copy)]
struct Links {
    parent: Option<usize>,
    left: Option<usize>,
    right: Option<usize>,
}

spec fn link_of(l: Links, side: Side) -> Option<usize> {
    match side {
        Side::Left => l.left,
        Side::Right => l.right,
    }
}

/// Node `i` is consistent with its neighbours: its children sit below it and
/// point back to it, its parent owns it, and only the last node is parentless.
spec fn node_ok(ls: Seq<Links>, i: int) -> bool {
    &&& (ls[i].left matches Some(c) ==> c < i && ls[c as int].parent == Some(i as usize))
    &&& (ls[i].right matches Some(c) ==> c < i && ls[c as int].parent == Some(i as usize))
    &&& (ls[i].left matches Some(a) ==> (ls[i].right matches Some(b) ==> a != b))
    &&& (ls[i].parent matches Some(p) ==> i < p < ls.len() && (ls[p as int].left == Some(
        i as usize,
    ) || ls[p as int].right == Some(i as usize)))
    &&& (ls[i].parent is None <==> i == ls.len() - 1)
}

spec fn arena_ok<T>(vs: Seq<T>, ls: Seq<Links>) -> bool {
    &&& vs.len() == ls.len()
    &&& ls.len() <= usize::MAX
    &&& forall|i: int| 0 <= i < ls.len() ==> #[trigger] node_ok(ls, i)
}

/// The subtree rooted at node `i` of the arena.
spec fn shape_of<T>(vs: Seq<T>, ls: Seq<Links>, i: nat) -> Shape<T>
    decreases i,
{
    if i >= ls.len() || i >= vs.len() {
        Shape::Empty
    } else {
        Shape::Node {
            value: vs[i as int],
            left: Box::new(
                match ls[i as int].left {
                    Some(c) => if (c as nat) < i {
                        shape_of(vs, ls, c as nat)
                    } else {
                        Shape::Empty
                    },
                    None => Shape::Empty,
                },
            ),
            right: Box::new(
                match ls[i as int].right {
                    Some(c) => if (c as nat) < i {
                        shape_of(vs, ls, c as nat)
                    } else {
                        Shape::Empty
                    },
                    None => Shape::Empty,
                },
            ),
        }
    }
}

spec fn arena_shape<T>(vs: Seq<T>, ls: Seq<Links>) -> Shape<T> {
    if ls.len() == 0 {
        Shape::Empty
    } else {
        shape_of(vs, ls, (ls.len() - 1) as nat)
    }
}

/// The node reached from the root by following `path`, if any.
spec fn node_at(ls: Seq<Links>, path: Seq<Side>) -> Option<usize>
    decreases path.len(),
{
    if path.len() == 0 {
        if ls.len() == 0 {
            None
        } else {
            Some((ls.len() - 1) as usize)
        }
    } else {
        match node_at(ls, path.drop_last()) {
            None => None,
            Some(i) => if i < ls.len() {
                link_of(ls[i as int], path.last())
            } else {
                None
            },
        }
    }
}

/// Following a path through the links reaches a node exactly where the shape
/// has one there, and the node's subtree is the shape's.
proof fn lemma_node_at<T>(vs: Seq<T>, ls: Seq<Links>, path: Seq<Side>)
    requires
        arena_ok(vs, ls),
    ensures
        match node_at(ls, path) {
            Some(i) => i < ls.len() && shape_of(vs, ls, i as nat) == subtree(
                arena_shape(vs, ls),
                path,
            ),
            None => subtree(arena_shape(vs, ls), path) == Shape::<T>::Empty,
        },
    decreases path.len(),
{
    if path.len() > 0 {
        let q = path.drop_last();
        lemma_node_at(vs, ls, q);
        match node_at(ls, q) {
            Some(i) => {
                assert(node_ok(ls, i as int));
                match link_of(ls[i as int], path.last()) {
                    Some(c) => {
                        assert(c < i);
                    },
                    None => {},
                }
            },
            None => {},
        }
    }
}

/// `o` with `off` added to the index it holds.
spec fn shift(o: Option<usize>, off: nat) -> Option<usize> {
    match o {
        Some(c) => Some((c + off) as usize),
        None => None,
    }
}

fn shifted(o: Option<usize>, off: usize) -> (r: Option<usize>)
    requires
        o matches Some(c) ==> c + off <= usize::MAX,
    ensures
        r == shift(o, off as nat),
{
    match o {
        Some(c) => Some(c + off),
        None => None,
    }
}

/// Node `j` of an arena moved `off` places up into a larger arena; when it is
/// that arena's root it gets `parent` as its parent.
spec fn moved(l: Links, off: nat, is_root: bool, parent: usize) -> Links {
    Links {
        parent: if is_root {
            Some(parent)
        } else {
            shift(l.parent, off)
        },
        left: shift(l.left, off),
        right: shift(l.right, off),
    }
}

/// A copy of an arena placed `off` places up in a larger one, with the same
/// values and children, has the same subtrees.
proof fn lemma_shape_shift<T>(v1: Seq<T>, l1: Seq<Links>, v2: Seq<T>, l2: Seq<Links>, off: nat, i: nat)
    requires
        arena_ok(v2, l2),
        i < l2.len(),
        l2.len() + off <= l1.len(),
        l1.len() <= usize::MAX,
        v1.len() == l1.len(),
        forall|j: int|
            0 <= j < l2.len() ==> v1[j + off] == v2[j] && l1[j + off].left == shift(
                #[trigger] l2[j].left,
                off,
            ) && l1[j + off].right == shift(l2[j].right, off),
    ensures
        shape_of(v1, l1, i + off) == shape_of(v2, l2, i),
    decreases i,
{
    assert(node_ok(l2, i as int));
    assert(l1[(i + off) as int].left == shift(l2[i as int].left, off));
    assert(l1[(i + off) as int].right == shift(l2[i as int].right, off));
    assert(v1[(i + off) as int] == v2[i as int]);
    match l2[i as int].left {
        Some(c) => lemma_shape_shift(v1, l1, v2, l2, off, c as nat),
        None => {},
    }
    match l2[i as int].right {
        Some(c) => lemma_shape_shift(v1, l1, v2, l2, off, c as nat),
        None => {},
    }
}

/// How `branch` lays out its arena: the left arena in place with its root
/// now pointing at the new root, the right arena moved up past it, and the
/// new root last.
spec fn joined<T>(
    lv: Seq<T>,
    ll: Seq<Links>,
    rv: Seq<T>,
    rl: Seq<Links>,
    value: T,
    nv: Seq<T>,
    nl: Seq<Links>,
) -> bool {
    let a = ll.len() as int;
    let b = rl.len() as int;
    let root = (a + b) as usize;
    &&& a >= 1
    &&& b >= 1
    &&& a + b < usize::MAX
    &&& nv == lv + rv + seq![value]
    &&& nl.len() == a + b + 1
    &&& nl[a + b] == Links {
        parent: None,
        left: Some((a - 1) as usize),
        right: Some((a + b - 1) as usize),
    }
    &&& forall|j: int|
        0 <= j < a ==> #[trigger] nl[j] == (if j == a - 1 {
            Links { parent: Some(root), ..ll[j] }
        } else {
            ll[j]
        })
    &&& forall|j: int|
        0 <= j < b ==> #[trigger] nl[a + j] == moved(rl[j], a as nat, j == b - 1, root)
}

proof fn lemma_joined_ok<T>(
    lv: Seq<T>,
    ll: Seq<Links>,
    rv: Seq<T>,
    rl: Seq<Links>,
    value: T,
    nv: Seq<T>,
    nl: Seq<Links>,
)
    requires
        arena_ok(lv, ll),
        arena_ok(rv, rl),
        joined(lv, ll, rv, rl, value, nv, nl),
    ensures
        arena_ok(nv, nl),
{
    let a = ll.len() as int;
    let b = rl.len() as int;
    let root = (a + b) as usize;
    let n = nl.len();
    assert forall|j: int| 0 <= j < n implies #[trigger] node_ok(nl, j) by {
        if j < a {
            assert(node_ok(ll, j));
            assert(nl[j] == (if j == a - 1 {
                Links { parent: Some(root), ..ll[j] }
            } else {
                ll[j]
            }));
            if let Some(c) = ll[j].left {
                assert(nl[c as int] == (if c == a - 1 {
                    Links { parent: Some(root), ..ll[c as int] }
                } else {
                    ll[c as int]
                }));
            }
            if let Some(c) = ll[j].right {
                assert(nl[c as int] == (if c == a - 1 {
                    Links { parent: Some(root), ..ll[c as int] }
                } else {
                    ll[c as int]
                }));
            }
            if let Some(p) = ll[j].parent {
                assert(nl[p as int] == (if p == a - 1 {
                    Links { parent: Some(root), ..ll[p as int] }
                } else {
                    ll[p as int]
                }));
            }
        } else if j < root {
            let jj = j - a;
            assert(node_ok(rl, jj));
            assert(nl[a + jj] == moved(rl[jj], a as nat, jj == b - 1, root));
            if let Some(c) = rl[jj].left {
                assert(nl[a + c] == moved(rl[c as int], a as nat, c == b - 1, root));
            }
            if let Some(c) = rl[jj].right {
                assert(nl[a + c] == moved(rl[c as int], a as nat, c == b - 1, root));
            }
            if let Some(p) = rl[jj].parent {
                assert(nl[a + p] == moved(rl[p as int], a as nat, p == b - 1, root));
            }
        } else {
            assert(nl[a - 1] == (Links { parent: Some(root), ..ll[a - 1] }));
            assert(nl[a + (b - 1)] == moved(rl[b - 1], a as nat, true, root));
        }
    }
}

proof fn lemma_joined_shape<T>(
    lv: Seq<T>,
    ll: Seq<Links>,
    rv: Seq<T>,
    rl: Seq<Links>,
    value: T,
    nv: Seq<T>,
    nl: Seq<Links>,
)
    requires
        arena_ok(lv, ll),
        arena_ok(rv, rl),
        joined(lv, ll, rv, rl, value, nv, nl),
    ensures
        arena_shape(nv, nl) == (Shape::Node {
            value,
            left: Box::new(arena_shape(lv, ll)),
            right: Box::new(arena_shape(rv, rl)),
        }),
{
    let a = ll.len() as int;
    let b = rl.len() as int;
    let root = (a + b) as usize;
    assert forall|j: int| 0 <= j < ll.len() implies nv[j + 0] == lv[j] && nl[j + 0].left == shift(
        #[trigger] ll[j].left,
        0,
    ) && nl[j + 0].right == shift(ll[j].right, 0) by {
        assert(nl[j] == (if j == a - 1 {
            Links { parent: Some(root), ..ll[j] }
        } else {
            ll[j]
        }));
    }
    assert forall|j: int| 0 <= j < rl.len() implies nv[j + a] == rv[j] && nl[j + a].left == shift(
        #[trigger] rl[j].left,
        a as nat,
    ) && nl[j + a].right == shift(rl[j].right, a as nat) by {
        assert(nl[a + j] == moved(rl[j], a as nat, j == b - 1, root));
    }
    lemma_shape_shift(nv, nl, lv, ll, 0, (a - 1) as nat);
    lemma_shape_shift(nv, nl, rv, rl, a as nat, (b - 1) as nat);
}

/// A tree that owns all its nodes.
pub struct Tree<T> {
    values: Vec<T>,
    links: Vec<Links>,
}

impl<T> View for Tree<T> {
    type V = Shape<T>;

    closed spec fn view(&self) -> Shape<T> {
        arena_shape(self.values@, self.links@)
    }
}

impl<T> Tree<T> {
    pub closed spec fn wf(&self) -> bool {
        arena_ok(self.values@, self.links@)
    }

    /// Number of nodes.
    pub closed spec fn size(&self) -> nat {
        self.links@.len()
    }

    /// A tree with no nodes.
    pub fn empty() -> (r: Self)
        ensures
            r.wf(),
            r@ == Shape::<T>::Empty,
            r.size() == 0,
    {
        Tree { values: Vec::new(), links: Vec::new() }
    }

    /// A tree of one node holding `value`.
    pub fn leaf(value: T) -> (r: Self)
        ensures
            r.wf(),
            r@ == (Shape::Node { value, left: Box::new(Shape::Empty), right: Box::new(Shape::Empty) }),
            r.size() == 1,
    {
        let mut values = Vec::new();
        values.push(value);
        let mut links = Vec::new();
        links.push(Links { parent: None, left: None, right: None });
        let r = Tree { values, links };
        assert(node_ok(r.links@, 0));
        r
    }

    /// A tree whose root holds `value` and has `left` and `right` as its two
    /// subtrees, which it takes over. Both must be non-empty.
    pub fn branch(value: T, left: Self, right: Self) -> (r: Self)
        requires
            left.wf(),
            right.wf(),
            left@ is Node,
            right@ is Node,
            left.size() + right.size() < usize::MAX,
        ensures
            r.wf(),
            r@ == (Shape::Node { value, left: Box::new(left@), right: Box::new(right@) }),
            r.size() == left.size() + right.size() + 1,
    {
        let ghost lv = left.values@;
        let ghost ll = left.links@;
        let ghost rv = right.values@;
        let ghost rl = right.links@;
        let mut values = left.values;
        let mut links = left.links;
        let mut rvalues = right.values;
        let rlinks = right.links;
        let a = links.len();
        let b = rlinks.len();
        let root = a + b;
        let lroot = links[a - 1];
        links[a - 1] = Links { parent: Some(root), left: lroot.left, right: lroot.right };
        let mut k: usize = 0;
        while k < b
            invariant
                arena_ok(rv, rl),
                a == ll.len(),
                b == rl.len(),
                a >= 1,
                b >= 1,
                root == a + b,
                root < usize::MAX,
                0 <= k <= b,
                rlinks@ == rl,
                links@.len() == a + k,
                forall|j: int|
                    0 <= j < a ==> #[trigger] links@[j] == (if j == a - 1 {
                        Links { parent: Some(root), ..ll[j] }
                    } else {
                        ll[j]
                    }),
                forall|j: int|
                    0 <= j < k ==> #[trigger] links@[a + j] == moved(
                        rl[j],
                        a as nat,
                        j == b - 1,
                        root,
                    ),
            decreases b - k,
        {
            let l = rlinks[k];
            proof {
                assert(node_ok(rl, k as int));
            }
            let parent = if k == b - 1 {
                Some(root)
            } else {
                shifted(l.parent, a)
            };
            links.push(Links { parent, left: shifted(l.left, a), right: shifted(l.right, a) });
            k = k + 1;
        }
        values.append(&mut rvalues);
        values.push(value);
        let ghost mid = links@;
        links.push(Links { parent: None, left: Some(a - 1), right: Some(root - 1) });
        let r = Tree { values, links };
        proof {
            let nl = r.links@;
            assert(r.values@ =~= lv + rv + seq![value]);
            assert forall|j: int| 0 <= j < root implies #[trigger] nl[j] == mid[j] by {}
            assert forall|j: int| 0 <= j < a implies #[trigger] nl[j] == (if j == a - 1 {
                Links { parent: Some(root), ..ll[j] }
            } else {
                ll[j]
            }) by {
                assert(nl[j] == mid[j]);
            }
            assert forall|j: int| 0 <= j < b implies #[trigger] nl[a + j] == moved(
                rl[j],
                a as nat,
                j == b - 1,
                root,
            ) by {
                assert(nl[a + j] == mid[a + j]);
            }
            lemma_joined_ok(lv, ll, rv, rl, value, r.values@, r.links@);
            lemma_joined_shape(lv, ll, rv, rl, value, r.values@, r.links@);
        }
        r
    }

    /// A cursor on the root, or at nothing when the tree is empty.
    pub fn root(&self) -> (r: Cursor<'_, T>)
        requires
            self.wf(),
        ensures
            r.wf(),
            r.shape() == self@,
            r.path() == top(self@),
    {
        let n = self.links.len();
        if n == 0 {
            Cursor { tree: self, at: None, path: Ghost(None) }
        } else {
            Cursor { tree: self, at: Some(n - 1), path: Ghost(Some(Seq::empty())) }
        }
    }
}

/// A read-only position in a tree: a node of it, or nothing.
#[derive(Clone, Copy)]
pub struct Cursor<'a, T> {
    tree: &'a Tree<T>,
    at: Option<usize>,
    path: Ghost<Option<Seq<Side>>>,
}

impl<'a, T> Cursor<'a, T> {
    /// The tree this cursor walks.
    pub closed spec fn shape(&self) -> Shape<T> {
        self.tree@
    }

    /// The path from the root to the node this cursor stands on; `None` at
    /// nothing.
    pub closed spec fn path(&self) -> Option<Seq<Side>> {
        self.path@
    }

    pub closed spec fn wf(&self) -> bool {
        &&& self.tree.wf()
        &&& match self.path@ {
            None => self.at is None,
            Some(p) => self.at is Some && node_at(self.tree.links@, p) == self.at,
        }
    }

    fn down(self, side: Side) -> (r: Self)
        requires
            self.wf(),
        ensures
            r.wf(),
            r.shape() == self.shape(),
            r.path() == navigate(
                self.shape(),
                self.path(),
                match side {
                    Side::Left => Move::Left,
                    Side::Right => Move::Right,
                },
            ),
    {
        match self.at {
            None => self,
            Some(i) => {
                let ghost p = self.path@->Some_0;
                let ghost p2 = p.push(side);
                proof {
                    lemma_node_at(self.tree.values@, self.tree.links@, p);
                }
                let l = self.tree.links[i];
                let c = match side {
                    Side::Left => l.left,
                    Side::Right => l.right,
                };
                proof {
                    assert(p2.drop_last() =~= p);
                    assert(node_at(self.tree.links@, p2) == c);
                    lemma_node_at(self.tree.values@, self.tree.links@, p2);
                }
                match c {
                    None => Cursor { tree: self.tree, at: None, path: Ghost(None) },
                    Some(_) => Cursor { tree: self.tree, at: c, path: Ghost(Some(p2)) },
                }
            },
        }
    }

    /// The cursor on the left child; nothing where there is none.
    pub fn left(self) -> (r: Self)
        requires
            self.wf(),
        ensures
            r.wf(),
            r.shape() == self.shape(),
            r.path() == navigate(self.shape(), self.path(), Move::Left),
    {
        self.down(Side::Left)
    }

    /// The cursor on the right child; nothing where there is none.
    pub fn right(self) -> (r: Self)
        requires
            self.wf(),
        ensures
            r.wf(),
            r.shape() == self.shape(),
            r.path() == navigate(self.shape(), self.path(), Move::Right),
    {
        self.down(Side::Right)
    }

    /// The cursor on the parent; nothing from the root or from nothing.
    pub fn parent(self) -> (r: Self)
        requires
            self.wf(),
        ensures
            r.wf(),
            r.shape() == self.shape(),
            r.path() == navigate(self.shape(), self.path(), Move::Parent),
    {
        match self.at {
            None => self,
            Some(i) => {
                let ghost p = self.path@->Some_0;
                let ghost ls = self.tree.links@;
                proof {
                    lemma_node_at(self.tree.values@, ls, p);
                }
                let up = self.tree.links[i].parent;
                proof {
                    assert(node_ok(ls, i as int));
                    if p.len() > 0 {
                        let q = p.drop_last();
                        lemma_node_at(self.tree.values@, ls, q);
                        let j = node_at(ls, q)->Some_0;
                        assert(node_ok(ls, j as int));
                    }
                }
                match up {
                    None => Cursor { tree: self.tree, at: None, path: Ghost(None) },
                    Some(_) => Cursor {
                        tree: self.tree,
                        at: up,
                        path: Ghost(Some(p.drop_last())),
                    },
                }
            },
        }
    }

    /// The value at this cursor's node; `None` at nothing.
    pub fn get(self) -> (r: Option<&'a T>)
        requires
            self.wf(),
        ensures
            r.is_some() == value_at(self.shape(), self.path()).is_some(),
            r.is_some() ==> value_at(self.shape(), self.path()) == Some(*r.unwrap()),
    {
        match self.at {
            None => None,
            Some(i) => {
                proof {
                    lemma_node_at(self.tree.values@, self.tree.links@, self.path@->Some_0);
                }
                Some(&self.tree.values[i])
            },
        }
    }
}

} // verus!
