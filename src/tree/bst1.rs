use vstd::multiset::Multiset;
use vstd::prelude::*;
use vstd::std_specs::cmp::{PartialOrdIs, PartialOrdSpec};

verus! {

/// One cell of a binary search tree; each cell is owned by its parent, the
/// root by the tree.
pub struct Node<T> {
    pub val: T,
    pub left: Link<T>,
    pub right: Link<T>,
}

/// An owned subtree, empty or not.
pub type Link<T> = Option<Box<Node<T>>>;

/// A binary search tree. Equal values go left, so a value `v` of a cell's
/// left subtree has `v <= cell.val`, and one of its right subtree has not.
pub struct BSTree<T> {
    root: Link<T>,
}

/// The values of a subtree, each cell before its left and then its right
/// subtree.
pub open spec fn preorder_of<T>(link: Link<T>) -> Seq<T>
    decreases link,
{
    match link {
        None => Seq::empty(),
        Some(node) => seq![node.val] + preorder_of(node.left) + preorder_of(node.right),
    }
}

/// The values of a subtree, each cell after its left and before its right
/// subtree.
pub open spec fn inorder_of<T>(link: Link<T>) -> Seq<T>
    decreases link,
{
    match link {
        None => Seq::empty(),
        Some(node) => inorder_of(node.left) + seq![node.val] + inorder_of(node.right),
    }
}

/// The number of cells on the longest path from the root of a subtree down.
pub open spec fn height_of<T>(link: Link<T>) -> nat
    decreases link,
{
    match link {
        None => 0,
        Some(node) => {
            let l = height_of(node.left);
            let r = height_of(node.right);
            1 + if l >= r {
                l
            } else {
                r
            }
        },
    }
}

/// A lone cell holding `v`.
pub open spec fn leaf<T>(v: T) -> Link<T> {
    Some(Box::new(Node { val: v, left: None, right: None }))
}

/// The subtree that `insert` makes of `link`: `v` goes down to the left of
/// every cell whose value it is `<=` to, and to the right of the others,
/// and becomes a leaf in the empty place it reaches.
pub open spec fn inserted<T: PartialOrd>(link: Link<T>, v: T) -> Link<T>
    decreases link,
{
    match link {
        None => leaf(v),
        Some(node) => if v.is_le(&node.val) {
            Some(Box::new(Node { val: node.val, left: inserted(node.left, v), right: node.right }))
        } else {
            Some(Box::new(Node { val: node.val, left: node.left, right: inserted(node.right, v) }))
        },
    }
}

/// The values of a subtree, counted with their repetitions.
pub open spec fn values_of<T>(link: Link<T>) -> Multiset<T>
    decreases link,
{
    match link {
        None => Multiset::empty(),
        Some(node) => values_of(node.left).insert(node.val).add(values_of(node.right)),
    }
}

/// The order of a binary search tree with equal values to the left: every
/// value of a cell's left subtree is `<=` to the cell's value, and no value
/// of its right subtree is.
pub open spec fn ordered<T: PartialOrd>(link: Link<T>) -> bool
    decreases link,
{
    match link {
        None => true,
        Some(node) => {
            &&& forall|x: T| #[trigger] values_of(node.left).contains(x) ==> x.is_le(&node.val)
            &&& forall|x: T| #[trigger] values_of(node.right).contains(x) ==> !x.is_le(&node.val)
            &&& ordered(node.left)
            &&& ordered(node.right)
        },
    }
}

/// Inserting a value adds it once to the values of the subtree.
pub proof fn lemma_inserted_values<T: PartialOrd>(link: Link<T>, v: T)
    ensures
        values_of(inserted(link, v)) == values_of(link).insert(v),
    decreases link,
{
    match link {
        None => {
            assert(values_of(inserted(link, v)) =~= values_of(link).insert(v));
        },
        Some(node) => {
            if v.is_le(&node.val) {
                lemma_inserted_values(node.left, v);
            } else {
                lemma_inserted_values(node.right, v);
            }
            assert(values_of(inserted(link, v)) =~= values_of(link).insert(v));
        },
    }
}

/// Inserting a value into an ordered subtree leaves it ordered.
pub proof fn lemma_inserted_ordered<T: PartialOrd>(link: Link<T>, v: T)
    requires
        ordered(link),
    ensures
        ordered(inserted(link, v)),
    decreases link,
{
    match link {
        None => {
            assert(values_of::<T>(None) =~= Multiset::empty());
            assert forall|x: T| !(#[trigger] values_of::<T>(None).contains(x)) by {}
            assert(ordered::<T>(None));
        },
        Some(node) => {
            let t = inserted(link, v)->0;
            if v.is_le(&node.val) {
                lemma_inserted_ordered(node.left, v);
                lemma_inserted_values(node.left, v);
                assert forall|x: T| #[trigger] values_of(t.left).contains(x) implies x.is_le(
                    &node.val,
                ) by {
                    if x != v {
                        assert(values_of(node.left).contains(x));
                    }
                }
            } else {
                lemma_inserted_ordered(node.right, v);
                lemma_inserted_values(node.right, v);
                assert forall|x: T| #[trigger] values_of(t.right).contains(x) implies !x.is_le(
                    &node.val,
                ) by {
                    if x != v {
                        assert(values_of(node.right).contains(x));
                    }
                }
            }
        },
    }
}

/// `T`'s `<=` relates every two values and is transitive.
pub open spec fn total_preorder<T: PartialOrd>() -> bool {
    &&& forall|x: T, y: T| #![trigger x.partial_cmp_spec(&y)] x.is_le(&y) || y.is_le(&x)
    &&& forall|x: T, y: T, z: T|
        #![trigger x.partial_cmp_spec(&y), y.partial_cmp_spec(&z)]
        x.is_le(&y) && y.is_le(&z) ==> x.is_le(&z)
}

/// Every value met by the inorder walk is a value of the subtree.
proof fn lemma_inorder_in_values<T>(link: Link<T>)
    ensures
        forall|k: int|
            0 <= k < inorder_of(link).len() ==> values_of(link).contains(
                #[trigger] inorder_of(link)[k],
            ),
    decreases link,
{
    match link {
        None => {},
        Some(node) => {
            lemma_inorder_in_values(node.left);
            lemma_inorder_in_values(node.right);
            let l = inorder_of(node.left);
            let r = inorder_of(node.right);
            assert forall|k: int| 0 <= k < inorder_of(link).len() implies values_of(
                link,
            ).contains(#[trigger] inorder_of(link)[k]) by {
                if k < l.len() {
                    assert(inorder_of(link)[k] == l[k]);
                } else if k == l.len() {
                } else {
                    assert(inorder_of(link)[k] == r[k - l.len() - 1]);
                }
            }
        },
    }
}

/// Where `<=` is a total preorder, the inorder walk of an ordered subtree
/// meets its values in `<=` order.
pub proof fn lemma_ordered_inorder_sorted<T: PartialOrd>(link: Link<T>)
    requires
        total_preorder::<T>(),
        ordered(link),
    ensures
        forall|i: int, j: int|
            #![trigger inorder_of(link)[i], inorder_of(link)[j]]
            0 <= i < j < inorder_of(link).len() ==> inorder_of(link)[i].is_le(&inorder_of(link)[j]),
    decreases link,
{
    match link {
        None => {},
        Some(node) => {
            lemma_ordered_inorder_sorted(node.left);
            lemma_ordered_inorder_sorted(node.right);
            lemma_inorder_in_values(node.left);
            lemma_inorder_in_values(node.right);
            let l = inorder_of(node.left);
            let r = inorder_of(node.right);
            let s = inorder_of(link);
            let v = node.val;
            assert(s == l + seq![v] + r);
            assert forall|i: int, j: int|
                #![trigger s[i], s[j]]
                0 <= i < j < s.len() implies s[i].is_le(&s[j]) by {
                if j < l.len() {
                    assert(s[i] == l[i] && s[j] == l[j]);
                } else if i > l.len() {
                    assert(s[i] == r[i - l.len() - 1] && s[j] == r[j - l.len() - 1]);
                } else if i < l.len() {
                    assert(s[i] == l[i]);
                    assert(values_of(node.left).contains(l[i]));
                    assert(l[i].is_le(&v));
                    if j > l.len() {
                        let y = r[j - l.len() - 1];
                        assert(s[j] == y);
                        assert(values_of(node.right).contains(y));
                        assert(!y.is_le(&v));
                        assert(v.is_le(&y));
                    }
                } else {
                    let y = r[j - l.len() - 1];
                    assert(s[j] == y);
                    assert(values_of(node.right).contains(y));
                    assert(!y.is_le(&v));
                }
            }
        },
    }
}

/// One step on the way down: whether it went left, the value of the cell
/// it left, and that cell's other subtree.
type Step<T> = (bool, T, Link<T>);

/// The cell of a step, with `hole` in the place the step went down to.
spec fn fill<T>(step: Step<T>, hole: Link<T>) -> Link<T> {
    if step.0 {
        Some(Box::new(Node { val: step.1, left: hole, right: step.2 }))
    } else {
        Some(Box::new(Node { val: step.1, left: step.2, right: hole }))
    }
}

/// The whole tree around a path taken down from its root, with `hole` at
/// the end of the path.
spec fn plug<T>(path: Seq<Step<T>>, hole: Link<T>) -> Link<T>
    decreases path.len(),
{
    if path.len() == 0 {
        hole
    } else {
        plug(path.drop_last(), fill(path.last(), hole))
    }
}

proof fn lemma_plug_push<T>(path: Seq<Step<T>>, step: Step<T>, hole: Link<T>)
    ensures
        plug(path.push(step), hole) == plug(path, fill(step, hole)),
{
    assert(path.push(step).drop_last() =~= path);
}

proof fn lemma_plug_values<T>(path: Seq<Step<T>>, small: Link<T>, big: Link<T>, v: T)
    requires
        values_of(big) == values_of(small).insert(v),
    ensures
        values_of(plug(path, big)) == values_of(plug(path, small)).insert(v),
    decreases path.len(),
{
    if path.len() > 0 {
        let step = path.last();
        assert(values_of(fill(step, big)) =~= values_of(fill(step, small)).insert(v));
        lemma_plug_values(path.drop_last(), fill(step, small), fill(step, big), v);
    }
}

/// Puts `val` in the empty place that the descent rule of `inserted` reaches
/// from `link`, walking down without recursion.
fn insert_at<T: Ord>(link: &mut Link<T>, val: T)
    ensures
        values_of(*final(link)) == values_of(*old(link)).insert(val),
        T::obeys_partial_cmp_spec() ==> *final(link) == inserted(*old(link), val),
{
    let ghost start = *link;
    let ghost mut path: Seq<Step<T>> = Seq::empty();
    let mut cur = link;
    while cur.is_some()
        invariant
            start == plug(path, *cur),
            *final(link) == plug(path, *final(cur)),
            T::obeys_partial_cmp_spec() ==> inserted(start, val) == plug(path, inserted(*cur, val)),
        decreases preorder_of(*cur).len(),
    {
        match cur {
            Some(node) => {
                if val <= node.val {
                    let ghost step = (true, node.val, node.right);
                    proof {
                        lemma_plug_push(path, step, node.left);
                        lemma_plug_push(path, step, inserted(node.left, val));
                    }
                    cur = &mut node.left;
                    proof {
                        lemma_plug_push(path, step, *final(cur));
                        path = path.push(step);
                    }
                } else {
                    let ghost step = (false, node.val, node.left);
                    proof {
                        lemma_plug_push(path, step, node.right);
                        lemma_plug_push(path, step, inserted(node.right, val));
                    }
                    cur = &mut node.right;
                    proof {
                        lemma_plug_push(path, step, *final(cur));
                        path = path.push(step);
                    }
                }
            },
            None => {},
        }
    }
    proof {
        assert(values_of(leaf(val)) =~= values_of::<T>(None).insert(val));
        lemma_plug_values(path, None, leaf(val), val);
    }
    *cur = Some(Box::new(Node { val, left: None, right: None }));
}

/// The values that a preorder walk still owes when its stack holds `stack`,
/// top last: the preorder of each subtree, from the top of the stack down.
spec fn preorder_pending<T>(stack: Seq<&Node<T>>) -> Seq<T>
    decreases stack.len(),
{
    if stack.len() == 0 {
        Seq::empty()
    } else {
        preorder_of(Some(Box::new(*stack.last()))) + preorder_pending(stack.drop_last())
    }
}

/// The values that an inorder walk still owes when its stack holds `stack`,
/// top last: each cell's value and then its right subtree, from the top of
/// the stack down.
spec fn inorder_pending<T>(stack: Seq<&Node<T>>) -> Seq<T>
    decreases stack.len(),
{
    if stack.len() == 0 {
        Seq::empty()
    } else {
        seq![stack.last().val] + inorder_of(stack.last().right) + inorder_pending(
            stack.drop_last(),
        )
    }
}

proof fn lemma_preorder_pending_push<T>(stack: Seq<&Node<T>>, node: &Node<T>)
    ensures
        preorder_pending(stack.push(node)) == preorder_of(Some(Box::new(*node)))
            + preorder_pending(stack),
{
    assert(stack.push(node).drop_last() =~= stack);
}

proof fn lemma_inorder_pending_push<T>(stack: Seq<&Node<T>>, node: &Node<T>)
    ensures
        inorder_pending(stack.push(node)) == seq![node.val] + inorder_of(node.right)
            + inorder_pending(stack),
{
    assert(stack.push(node).drop_last() =~= stack);
}

/// `stack` with the root cell of `link` pushed on top, if there is one.
pub open spec fn push_link<'a, T>(stack: Seq<&'a Node<T>>, link: &'a Link<T>) -> Seq<&'a Node<T>> {
    match link {
        None => stack,
        Some(node) => stack.push(&**node),
    }
}

/// What the explicit-stack preorder walk hands out in at most `steps` steps
/// from `stack`: each step pops a cell, hands out its value, and pushes its
/// right and then its left subtree.
pub open spec fn preorder_steps<T>(stack: Seq<&Node<T>>, steps: nat) -> Seq<T>
    decreases steps,
{
    if steps == 0 || stack.len() == 0 {
        Seq::empty()
    } else {
        let top = stack.last();
        seq![top.val] + preorder_steps(
            push_link(push_link(stack.drop_last(), &top.right), &top.left),
            (steps - 1) as nat,
        )
    }
}

/// `stack` with the cells down the left edge of `link` pushed on top, the
/// leftmost last.
pub open spec fn push_left_edge<'a, T>(stack: Seq<&'a Node<T>>, link: &'a Link<T>) -> Seq<&'a Node<T>>
    decreases *link,
{
    match link {
        None => stack,
        Some(node) => push_left_edge(stack.push(&**node), &node.left),
    }
}

/// What the explicit-stack inorder walk hands out in at most `steps` steps
/// from `stack`: each step pops a cell, hands out its value, and pushes the
/// left edge of its right subtree.
pub open spec fn inorder_steps<T>(stack: Seq<&Node<T>>, steps: nat) -> Seq<T>
    decreases steps,
{
    if steps == 0 || stack.len() == 0 {
        Seq::empty()
    } else {
        let top = stack.last();
        seq![top.val] + inorder_steps(push_left_edge(stack.drop_last(), &top.right), (steps - 1) as nat)
    }
}

proof fn lemma_push_link_preorder<T>(stack: Seq<&Node<T>>, link: &Link<T>)
    ensures
        preorder_pending(push_link(stack, link)) == preorder_of(*link) + preorder_pending(stack),
{
    match link {
        None => {
            assert(preorder_of(*link) + preorder_pending(stack) =~= preorder_pending(stack));
        },
        Some(node) => {
            lemma_preorder_pending_push(stack, &**node);
        },
    }
}

proof fn lemma_push_left_edge_inorder<T>(stack: Seq<&Node<T>>, link: &Link<T>)
    ensures
        inorder_pending(push_left_edge(stack, link)) == inorder_of(*link) + inorder_pending(stack),
    decreases *link,
{
    match link {
        None => {
            assert(inorder_of(*link) + inorder_pending(stack) =~= inorder_pending(stack));
        },
        Some(node) => {
            lemma_inorder_pending_push(stack, &**node);
            lemma_push_left_edge_inorder(stack.push(&**node), &node.left);
            assert(inorder_of(*link) + inorder_pending(stack) =~= inorder_of(node.left)
                + inorder_pending(stack.push(&**node)));
        },
    }
}

proof fn lemma_preorder_steps<T>(stack: Seq<&Node<T>>, steps: nat)
    requires
        steps >= preorder_pending(stack).len(),
    ensures
        preorder_steps(stack, steps) == preorder_pending(stack),
    decreases steps,
{
    if steps == 0 || stack.len() == 0 {
        if stack.len() > 0 {
            assert(preorder_pending(stack).len() > 0);
        }
    } else {
        let top = stack.last();
        let rest = stack.drop_last();
        let next = push_link(push_link(rest, &top.right), &top.left);
        lemma_push_link_preorder(rest, &top.right);
        lemma_push_link_preorder(push_link(rest, &top.right), &top.left);
        assert(preorder_pending(stack) =~= seq![top.val] + preorder_pending(next));
        lemma_preorder_steps(next, (steps - 1) as nat);
    }
}

proof fn lemma_inorder_steps<T>(stack: Seq<&Node<T>>, steps: nat)
    requires
        steps >= inorder_pending(stack).len(),
    ensures
        inorder_steps(stack, steps) == inorder_pending(stack),
    decreases steps,
{
    if steps == 0 || stack.len() == 0 {
        if stack.len() > 0 {
            assert(inorder_pending(stack).len() > 0);
        }
    } else {
        let top = stack.last();
        let next = push_left_edge(stack.drop_last(), &top.right);
        lemma_push_left_edge_inorder(stack.drop_last(), &top.right);
        assert(inorder_pending(stack) =~= seq![top.val] + inorder_pending(next));
        lemma_inorder_steps(next, (steps - 1) as nat);
    }
}

/// The explicit-stack walks hand out what the recursive definitions give,
/// for every tree: the preorder walk started with the root on its stack
/// hands out `preorder_of`, and the inorder walk started with the left edge
/// from the root on its stack hands out `inorder_of`, one value per cell.
pub proof fn lemma_walks_match_recursion<T>(link: &Link<T>)
    ensures
        preorder_steps(push_link(Seq::empty(), link), preorder_of(*link).len()) == preorder_of(
            *link,
        ),
        inorder_steps(push_left_edge(Seq::empty(), link), inorder_of(*link).len()) == inorder_of(
            *link,
        ),
{
    lemma_push_link_preorder(Seq::empty(), link);
    assert(preorder_of(*link) + preorder_pending(Seq::<&Node<T>>::empty()) =~= preorder_of(*link));
    lemma_preorder_steps(push_link(Seq::empty(), link), preorder_of(*link).len());
    lemma_push_left_edge_inorder(Seq::empty(), link);
    assert(inorder_of(*link) + inorder_pending(Seq::<&Node<T>>::empty()) =~= inorder_of(*link));
    lemma_inorder_steps(push_left_edge(Seq::empty(), link), inorder_of(*link).len());
}

/// Calls `f` on each value of the subtree, recursing once per level: the
/// depth of the call stack is the height of the subtree.
pub fn preorder_recursive<T, F>(link: &Link<T>, f: F)
    where
        F: Fn(&T) + Copy,
    requires
        forall|i: int|
            0 <= i < preorder_of(*link).len() ==> f.requires((&#[trigger] preorder_of(*link)[i],)),
    ensures
        forall|i: int|
            0 <= i < preorder_of(*link).len() ==> f.ensures(
                (&#[trigger] preorder_of(*link)[i],),
                (),
            ),
    decreases *link,
{
    match link {
        None => {},
        Some(node) => {
            let ghost l = preorder_of(node.left);
            let ghost r = preorder_of(node.right);
            assert(preorder_of(*link) == seq![node.val] + l + r);
            assert(f.requires((&preorder_of(*link)[0],)));
            f(&node.val);
            assert forall|i: int| 0 <= i < l.len() implies f.requires((&#[trigger] l[i],)) by {
                assert(l[i] == preorder_of(*link)[1 + i]);
            }
            preorder_recursive(&node.left, f);
            assert forall|i: int| 0 <= i < r.len() implies f.requires((&#[trigger] r[i],)) by {
                assert(r[i] == preorder_of(*link)[1 + l.len() + i]);
            }
            preorder_recursive(&node.right, f);
            assert forall|i: int| 0 <= i < preorder_of(*link).len() implies f.ensures(
                (&#[trigger] preorder_of(*link)[i],),
                (),
            ) by {
                if i == 0 {
                } else if i < 1 + l.len() {
                    assert(preorder_of(*link)[i] == l[i - 1]);
                } else {
                    assert(preorder_of(*link)[i] == r[i - 1 - l.len()]);
                }
            }
        },
    }
}

/// Calls `f` on each value of the subtree in preorder, with an explicit
/// stack instead of recursion: pop a cell, visit it, push its right and then
/// its left subtree.
pub fn preorder<T, F>(link: &Link<T>, f: F)
    where
        F: Fn(&T) + Copy,
    requires
        forall|i: int|
            0 <= i < preorder_of(*link).len() ==> f.requires((&#[trigger] preorder_of(*link)[i],)),
    ensures
        forall|i: int|
            0 <= i < preorder_of(*link).len() ==> f.ensures(
                (&#[trigger] preorder_of(*link)[i],),
                (),
            ),
{
    let ghost all = preorder_of(*link);
    let mut stack: Vec<&Node<T>> = Vec::new();
    match link {
        Some(node) => {
            proof {
                lemma_preorder_pending_push(stack@, &**node);
                assert(preorder_pending(stack@) =~= Seq::<T>::empty());
            }
            stack.push(&**node);
        },
        None => {},
    }
    let ghost mut visited: Seq<T> = Seq::empty();
    assert(visited + preorder_pending(stack@) =~= all);
    while stack.len() > 0
        invariant
            visited + preorder_pending(stack@) == all,
            all == preorder_of(*link),
            forall|i: int| 0 <= i < all.len() ==> f.requires((&#[trigger] all[i],)),
            forall|i: int| 0 <= i < visited.len() ==> f.ensures((&#[trigger] visited[i],), ()),
        decreases preorder_pending(stack@).len(),
    {
        let ghost before = stack@;
        let node = stack.pop().unwrap();
        proof {
            assert(before.drop_last() =~= stack@);
            assert(all[visited.len() as int] == node.val);
        }
        f(&node.val);
        let ghost rest = stack@;
        match &node.right {
            Some(right) => {
                proof {
                    lemma_preorder_pending_push(stack@, &**right);
                }
                stack.push(&**right);
            },
            None => {},
        }
        match &node.left {
            Some(left) => {
                proof {
                    lemma_preorder_pending_push(stack@, &**left);
                }
                stack.push(&**left);
            },
            None => {},
        }
        proof {
            assert(preorder_pending(stack@) =~= preorder_of(node.left) + preorder_of(node.right)
                + preorder_pending(rest));
            assert(visited.push(node.val) + preorder_pending(stack@) =~= visited
                + preorder_pending(before));
            visited = visited.push(node.val);
        }
    }
    assert(visited =~= all);
}

/// Calls `f` on each value of the subtree in inorder, recursing once per
/// level: the depth of the call stack is the height of the subtree.
pub fn inorder_recursive<T, F>(link: &Link<T>, f: F)
    where
        F: Fn(&T) + Copy,
    requires
        forall|i: int|
            0 <= i < inorder_of(*link).len() ==> f.requires((&#[trigger] inorder_of(*link)[i],)),
    ensures
        forall|i: int|
            0 <= i < inorder_of(*link).len() ==> f.ensures(
                (&#[trigger] inorder_of(*link)[i],),
                (),
            ),
    decreases *link,
{
    match link {
        None => {},
        Some(node) => {
            let ghost l = inorder_of(node.left);
            let ghost r = inorder_of(node.right);
            assert(inorder_of(*link) == l + seq![node.val] + r);
            assert forall|i: int| 0 <= i < l.len() implies f.requires((&#[trigger] l[i],)) by {
                assert(l[i] == inorder_of(*link)[i]);
            }
            inorder_recursive(&node.left, f);
            assert(f.requires((&inorder_of(*link)[l.len() as int],)));
            f(&node.val);
            assert forall|i: int| 0 <= i < r.len() implies f.requires((&#[trigger] r[i],)) by {
                assert(r[i] == inorder_of(*link)[l.len() + 1 + i]);
            }
            inorder_recursive(&node.right, f);
            assert forall|i: int| 0 <= i < inorder_of(*link).len() implies f.ensures(
                (&#[trigger] inorder_of(*link)[i],),
                (),
            ) by {
                if i < l.len() {
                    assert(inorder_of(*link)[i] == l[i]);
                } else if i == l.len() {
                } else {
                    assert(inorder_of(*link)[i] == r[i - 1 - l.len()]);
                }
            }
        },
    }
}

/// Calls `f` on each value of the subtree in inorder, with an explicit stack
/// instead of recursion: push the cells down the left edge, pop one, visit
/// it, and go on from its right subtree.
pub fn inorder<T, F>(link: &Link<T>, f: F)
    where
        F: Fn(&T) + Copy,
    requires
        forall|i: int|
            0 <= i < inorder_of(*link).len() ==> f.requires((&#[trigger] inorder_of(*link)[i],)),
    ensures
        forall|i: int|
            0 <= i < inorder_of(*link).len() ==> f.ensures(
                (&#[trigger] inorder_of(*link)[i],),
                (),
            ),
{
    let ghost all = inorder_of(*link);
    let mut stack: Vec<&Node<T>> = Vec::new();
    let mut cur: &Link<T> = link;
    let ghost mut visited: Seq<T> = Seq::empty();
    assert(visited + inorder_of(*cur) + inorder_pending(stack@) =~= all);
    loop
        invariant
            visited + inorder_of(*cur) + inorder_pending(stack@) == all,
            all == inorder_of(*link),
            forall|i: int| 0 <= i < all.len() ==> f.requires((&#[trigger] all[i],)),
            forall|i: int| 0 <= i < visited.len() ==> f.ensures((&#[trigger] visited[i],), ()),
        ensures
            visited == all,
        decreases inorder_of(*cur).len() + inorder_pending(stack@).len(),
    {
        while cur.is_some()
            invariant
                visited + inorder_of(*cur) + inorder_pending(stack@) == all,
            decreases inorder_of(*cur).len(),
        {
            match cur {
                Some(node) => {
                    proof {
                        lemma_inorder_pending_push(stack@, &**node);
                        assert(inorder_of(*cur) + inorder_pending(stack@) =~= inorder_of(node.left)
                            + inorder_pending(stack@.push(&**node)));
                    }
                    stack.push(&**node);
                    cur = &node.left;
                },
                None => {},
            }
        }
        if stack.len() == 0 {
            assert(visited =~= all);
            break;
        }
        let ghost before = stack@;
        let node = stack.pop().unwrap();
        proof {
            assert(before.drop_last() =~= stack@);
            assert(all[visited.len() as int] == node.val);
        }
        f(&node.val);
        cur = &node.right;
        proof {
            assert(visited.push(node.val) + inorder_of(*cur) + inorder_pending(stack@) =~= visited
                + inorder_pending(before));
            visited = visited.push(node.val);
        }
    }
}

/// A lazy preorder walk over a subtree: each `next` pops a cell, pushes its
/// right and then its left subtree, and hands out the cell's value. It
/// borrows the tree for as long as it lives, so the tree cannot change
/// under it.
pub struct PreorderItr<'a, T> {
    stack: Vec<&'a Node<T>>,
}

impl<'a, T> View for PreorderItr<'a, T> {
    type V = Seq<T>;

    /// The values that are still to come.
    closed spec fn view(&self) -> Seq<T> {
        preorder_pending(self.stack@)
    }
}

impl<'a, T> PreorderItr<'a, T> {
    pub fn new(link: &'a Link<T>) -> (r: Self)
        ensures
            r@ == preorder_of(*link),
    {
        let mut stack: Vec<&'a Node<T>> = Vec::new();
        match link {
            Some(node) => {
                proof {
                    lemma_preorder_pending_push(stack@, &**node);
                    assert(preorder_pending(stack@) =~= Seq::<T>::empty());
                }
                stack.push(&**node);
            },
            None => {},
        }
        assert(preorder_pending(stack@) =~= preorder_of(*link));
        PreorderItr { stack }
    }

    pub fn next(&mut self) -> (r: Option<&'a T>)
        ensures
            old(self)@.len() == 0 ==> r is None && final(self)@ == old(self)@,
            old(self)@.len() > 0 ==> r == Some(&old(self)@[0]) && final(self)@ == old(self)@.drop_first(),
    {
        if self.stack.len() == 0 {
            return None;
        }
        let ghost before = self.stack@;
        let node = self.stack.pop().unwrap();
        let ghost rest = self.stack@;
        proof {
            assert(before.drop_last() =~= rest);
        }
        match &node.right {
            Some(right) => {
                proof {
                    lemma_preorder_pending_push(self.stack@, &**right);
                }
                self.stack.push(&**right);
            },
            None => {},
        }
        match &node.left {
            Some(left) => {
                proof {
                    lemma_preorder_pending_push(self.stack@, &**left);
                }
                self.stack.push(&**left);
            },
            None => {},
        }
        proof {
            assert(preorder_pending(self.stack@) =~= preorder_of(node.left) + preorder_of(
                node.right,
            ) + preorder_pending(rest));
            assert(preorder_pending(before).drop_first() =~= preorder_pending(self.stack@));
        }
        Some(&node.val)
    }

    /// Takes all the values that are still to come, in order.
    pub fn collect(self) -> (r: Vec<&'a T>)
        ensures
            r@.len() == self@.len(),
            forall|i: int| 0 <= i < r@.len() ==> *r@[i] == self@[i],
    {
        let mut itr = self;
        let mut out: Vec<&'a T> = Vec::new();
        loop
            invariant
                out@.len() + itr@.len() == self@.len(),
                forall|i: int| 0 <= i < out@.len() ==> *out@[i] == self@[i],
                forall|i: int| 0 <= i < itr@.len() ==> itr@[i] == self@[out@.len() + i],
            ensures
                out@.len() == self@.len(),
            decreases itr@.len(),
        {
            match itr.next() {
                None => break,
                Some(v) => {
                    out.push(v);
                },
            }
        }
        out
    }
}

/// A lazy inorder walk over a subtree: its stack holds the cells down the
/// left edge of what is still to come; each `next` pops a cell, pushes the
/// left edge of the cell's right subtree, and hands out the cell's value. It
/// borrows the tree for as long as it lives, so the tree cannot change under
/// it.
pub struct InorderItr<'a, T> {
    stack: Vec<&'a Node<T>>,
}

impl<'a, T> View for InorderItr<'a, T> {
    type V = Seq<T>;

    /// The values that are still to come.
    closed spec fn view(&self) -> Seq<T> {
        inorder_pending(self.stack@)
    }
}

impl<'a, T> InorderItr<'a, T> {
    pub fn new(link: &'a Link<T>) -> (r: Self)
        ensures
            r@ == inorder_of(*link),
    {
        let mut itr = InorderItr { stack: Vec::new() };
        itr.push_till_next(link);
        assert(inorder_of(*link) + Seq::<T>::empty() =~= inorder_of(*link));
        itr
    }

    /// Pushes the cells down the left edge of the subtree.
    fn push_till_next(&mut self, link: &'a Link<T>)
        ensures
            final(self)@ == inorder_of(*link) + old(self)@,
    {
        let mut cur: &'a Link<T> = link;
        while cur.is_some()
            invariant
                inorder_of(*cur) + self@ == inorder_of(*link) + old(self)@,
            decreases inorder_of(*cur).len(),
        {
            match cur {
                Some(node) => {
                    proof {
                        lemma_inorder_pending_push(self.stack@, &**node);
                        assert(inorder_of(*cur) + self@ =~= inorder_of(node.left)
                            + inorder_pending(self.stack@.push(&**node)));
                    }
                    self.stack.push(&**node);
                    cur = &node.left;
                },
                None => {},
            }
        }
        assert(inorder_of(*cur) + self@ =~= self@);
    }

    pub fn next(&mut self) -> (r: Option<&'a T>)
        ensures
            old(self)@.len() == 0 ==> r is None && final(self)@ == old(self)@,
            old(self)@.len() > 0 ==> r == Some(&old(self)@[0]) && final(self)@ == old(self)@.drop_first(),
    {
        if self.stack.len() == 0 {
            return None;
        }
        let ghost before = self.stack@;
        let node = self.stack.pop().unwrap();
        proof {
            assert(before.drop_last() =~= self.stack@);
        }
        self.push_till_next(&node.right);
        proof {
            assert(inorder_pending(before).drop_first() =~= inorder_of(node.right)
                + inorder_pending(before.drop_last()));
        }
        Some(&node.val)
    }

    /// Takes all the values that are still to come, in order.
    pub fn collect(self) -> (r: Vec<&'a T>)
        ensures
            r@.len() == self@.len(),
            forall|i: int| 0 <= i < r@.len() ==> *r@[i] == self@[i],
    {
        let mut itr = self;
        let mut out: Vec<&'a T> = Vec::new();
        loop
            invariant
                out@.len() + itr@.len() == self@.len(),
                forall|i: int| 0 <= i < out@.len() ==> *out@[i] == self@[i],
                forall|i: int| 0 <= i < itr@.len() ==> itr@[i] == self@[out@.len() + i],
            ensures
                out@.len() == self@.len(),
            decreases itr@.len(),
        {
            match itr.next() {
                None => break,
                Some(v) => {
                    out.push(v);
                },
            }
        }
        out
    }
}

impl<T> View for BSTree<T> {
    type V = Link<T>;

    closed spec fn view(&self) -> Link<T> {
        self.root
    }
}

impl<T: Ord> BSTree<T> {
    pub fn new() -> (r: Self)
        ensures
            r@ is None,
            ordered(r@),
    {
        BSTree { root: None }
    }

    /// Walks down from the root, left where `val <=` the cell's value and
    /// right elsewhere, and puts `val` in a new leaf in the empty place it
    /// reaches. The values of the tree gain `val` whatever `T`'s comparison
    /// does; where it follows its specification, the tree becomes
    /// `inserted`, and an ordered tree stays ordered.
    pub fn insert(&mut self, val: T)
        ensures
            T::obeys_partial_cmp_spec() ==> final(self)@ == inserted(old(self)@, val),
            values_of(final(self)@) == values_of(old(self)@).insert(val),
            T::obeys_partial_cmp_spec() && ordered(old(self)@) ==> ordered(final(self)@),
    {
        insert_at(&mut self.root, val);
        proof {
            if ordered(old(self)@) {
                lemma_inserted_ordered(old(self)@, val);
            }
        }
    }

    pub fn preorder<F>(&self, f: F)
        where
            F: Fn(&T) + Copy,
        requires
            forall|i: int|
                0 <= i < preorder_of(self@).len() ==> f.requires((&#[trigger] preorder_of(self@)[i],)),
        ensures
            forall|i: int|
                0 <= i < preorder_of(self@).len() ==> f.ensures(
                    (&#[trigger] preorder_of(self@)[i],),
                    (),
                ),
    {
        preorder(&self.root, f);
    }

    pub fn preorder_recursive<F>(&self, f: F)
        where
            F: Fn(&T) + Copy,
        requires
            forall|i: int|
                0 <= i < preorder_of(self@).len() ==> f.requires((&#[trigger] preorder_of(self@)[i],)),
        ensures
            forall|i: int|
                0 <= i < preorder_of(self@).len() ==> f.ensures(
                    (&#[trigger] preorder_of(self@)[i],),
                    (),
                ),
    {
        preorder_recursive(&self.root, f);
    }

    pub fn get_preorder_itr(&self) -> (r: PreorderItr<'_, T>)
        ensures
            r@ == preorder_of(self@),
    {
        PreorderItr::new(&self.root)
    }

    pub fn inorder<F>(&self, f: F)
        where
            F: Fn(&T) + Copy,
        requires
            forall|i: int|
                0 <= i < inorder_of(self@).len() ==> f.requires((&#[trigger] inorder_of(self@)[i],)),
        ensures
            forall|i: int|
                0 <= i < inorder_of(self@).len() ==> f.ensures(
                    (&#[trigger] inorder_of(self@)[i],),
                    (),
                ),
    {
        inorder(&self.root, f);
    }

    pub fn inorder_recursive<F>(&self, f: F)
        where
            F: Fn(&T) + Copy,
        requires
            forall|i: int|
                0 <= i < inorder_of(self@).len() ==> f.requires((&#[trigger] inorder_of(self@)[i],)),
        ensures
            forall|i: int|
                0 <= i < inorder_of(self@).len() ==> f.ensures(
                    (&#[trigger] inorder_of(self@)[i],),
                    (),
                ),
    {
        inorder_recursive(&self.root, f);
    }

    pub fn get_inorder_itr(&self) -> (r: InorderItr<'_, T>)
        ensures
            r@ == inorder_of(self@),
    {
        InorderItr::new(&self.root)
    }
}

/// The larger of two numbers.
spec fn larger(a: nat, b: nat) -> nat {
    if a >= b {
        a
    } else {
        b
    }
}

/// The depth of the deepest cell under `node`, where `node` itself stands
/// at depth `depth`.
spec fn reach<T>(node: &Node<T>, depth: usize) -> nat {
    depth as nat + larger(height_of(node.left), height_of(node.right))
}

/// The depth of the deepest cell under any cell on a stack of cells and
/// their depths.
spec fn deepest<T>(stack: Seq<(&Node<T>, usize)>) -> nat
    decreases stack.len(),
{
    if stack.len() == 0 {
        0
    } else {
        larger(reach(stack.last().0, stack.last().1), deepest(stack.drop_last()))
    }
}

/// The number of cells under the cells on a stack of cells and their
/// depths.
spec fn cells_under<T>(stack: Seq<(&Node<T>, usize)>) -> nat
    decreases stack.len(),
{
    if stack.len() == 0 {
        0
    } else {
        preorder_of(Some(Box::new(*stack.last().0))).len() + cells_under(stack.drop_last())
    }
}

proof fn lemma_depth_stack_push<T>(stack: Seq<(&Node<T>, usize)>, item: (&Node<T>, usize))
    ensures
        deepest(stack.push(item)) == larger(reach(item.0, item.1), deepest(stack)),
        cells_under(stack.push(item)) == preorder_of(Some(Box::new(*item.0))).len() + cells_under(
            stack,
        ),
{
    assert(stack.push(item).drop_last() =~= stack);
}

impl<T> BSTree<T> {
    /// The number of cells on the longest path down from the root, found
    /// with an explicit stack instead of recursion.
    pub fn height(&self) -> (r: usize)
        requires
            height_of(self@) <= usize::MAX,
        ensures
            r == height_of(self@),
    {
        let ghost h = height_of(self@);
        let mut best: usize = 0;
        let mut stack: Vec<(&Node<T>, usize)> = Vec::new();
        match &self.root {
            Some(node) => {
                proof {
                    lemma_depth_stack_push(stack@, (&**node, 1usize));
                }
                stack.push((&**node, 1));
            },
            None => {},
        }
        while stack.len() > 0
            invariant
                larger(best as nat, deepest(stack@)) == h,
                forall|i: int|
                    0 <= i < stack@.len() ==> 1 <= (#[trigger] stack@[i]).1 && reach(stack@[i].0, stack@[i].1) <= h,
                h <= usize::MAX,
            decreases cells_under(stack@),
        {
            let ghost before = stack@;
            let (node, depth) = stack.pop().unwrap();
            proof {
                assert(before.drop_last() =~= stack@);
                assert(before[before.len() - 1] == (node, depth));
            }
            if depth > best {
                best = depth;
            }
            let ghost rest = stack@;
            match &node.left {
                Some(left) => {
                    proof {
                        lemma_depth_stack_push(stack@, (&**left, (depth + 1) as usize));
                    }
                    stack.push((&**left, depth + 1));
                },
                None => {},
            }
            let ghost mid = stack@;
            match &node.right {
                Some(right) => {
                    proof {
                        lemma_depth_stack_push(stack@, (&**right, (depth + 1) as usize));
                    }
                    stack.push((&**right, depth + 1));
                },
                None => {},
            }
            assert(larger(best as nat, deepest(stack@)) == h);
            assert(cells_under(stack@) < cells_under(before));
        }
        best
    }
}

/// The number of cells in the left subtree of a subtree's root.
spec fn left_size<T>(link: Link<T>) -> nat {
    match link {
        None => 0,
        Some(node) => preorder_of(node.left).len(),
    }
}

impl<T> Drop for BSTree<T> {
    /// Frees the cells one at a time with no stack: a root without a left
    /// child is freed and its right subtree goes on; otherwise its left child
    /// is rotated up to become the root. So no destructor recursion
    /// proportional to the height takes place.
    fn drop(&mut self)
        opens_invariants none
        no_unwind
    {
        let mut cur: Link<T> = None;
        core::mem::swap(&mut cur, &mut self.root);
        loop
            decreases preorder_of(cur).len(), left_size(cur),
        {
            match cur {
                None => break,
                Some(node) => {
                    let mut node = node;
                    let ghost size = preorder_of(Some(node)).len();
                    let mut left: Link<T> = None;
                    core::mem::swap(&mut left, &mut node.left);
                    match left {
                        None => {
                            let mut right: Link<T> = None;
                            core::mem::swap(&mut right, &mut node.right);
                            cur = right;
                        },
                        Some(top) => {
                            let mut top = top;
                            let ghost left_cells = preorder_of(Some(top)).len();
                            let mut inner: Link<T> = None;
                            core::mem::swap(&mut inner, &mut top.right);
                            node.left = inner;
                            proof {
                                assert(preorder_of(Some(node)).len() + preorder_of(top.left).len()
                                    + 1 == size);
                            }
                            top.right = Some(node);
                            cur = Some(top);
                            proof {
                                assert(preorder_of(cur).len() == size);
                                assert(left_size(cur) < left_cells);
                            }
                        },
                    }
                },
            }
        }
    }
}

} // verus!
