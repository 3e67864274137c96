//! Depth-first walks over a binary tree: the nodes in pre-order, recursively
//! and with an explicit stack, and the root-to-leaf paths one at a time.
use vstd::prelude::*;

verus! {

/// A binary tree with a byte at each leaf.
#[derive(Debug)]
pub enum Tree {
    Node(Box<Tree>, Box<Tree>),
    Leaf(u8),
}

/// What a walk sees at a node: either it ends there, or it goes on to the
/// node's children, in order.
pub enum Echo<'a, T> {
    Terminal(&'a T),
    Node(&'a T, Vec<&'a T>),
}

/// The nodes of `t` in pre-order: each node before its left subtree, and the
/// left subtree before the right one.
pub open spec fn preorder<'a>(t: &'a Tree) -> Seq<&'a Tree>
    decreases t,
{
    match t {
        Tree::Leaf(_) => seq![t],
        Tree::Node(l, r) => seq![t] + preorder(&**l) + preorder(&**r),
    }
}

/// The root-to-leaf paths of `t`, left to right.
pub open spec fn paths<'a>(t: &'a Tree) -> Seq<Seq<&'a Tree>>
    decreases t,
{
    match t {
        Tree::Leaf(_) => seq![seq![t]],
        Tree::Node(l, r) => (paths(&**l) + paths(&**r)).map_values(|p: Seq<&'a Tree>| seq![t] + p),
    }
}

/// The number of nodes of `t`.
pub open spec fn size(t: &Tree) -> nat
    decreases t,
{
    match t {
        Tree::Leaf(_) => 1,
        Tree::Node(l, r) => 1 + size(&**l) + size(&**r),
    }
}

/// The nodes still to be visited for a stack of subtrees, top of the stack first.
pub open spec fn pending<'a>(q: Seq<&'a Tree>) -> Seq<&'a Tree>
    decreases q.len(),
{
    if q.len() == 0 {
        Seq::empty()
    } else {
        preorder(q.last()) + pending(q.drop_last())
    }
}

impl Tree {
    /// How a walk goes on from this node.
    pub fn echo(&self) -> (r: Echo<'_, Tree>)
        ensures
            match *self {
                Tree::Leaf(_) => r is Terminal && r->Terminal_0 == self,
                Tree::Node(y, z) => r is Node && r->Node_0 == self && r->Node_1@ == seq![&*y, &*z],
            },
    {
        match self {
            Tree::Leaf(_) => Echo::Terminal(self),
            Tree::Node(y, z) => {
                let mut children: Vec<&Tree> = Vec::new();
                children.push(&**y);
                children.push(&**z);
                Echo::Node(self, children)
            },
        }
    }
}

fn visit_into<'a>(input: &'a Tree, acc: &mut Vec<&'a Tree>)
    ensures
        final(acc)@ == old(acc)@ + preorder(input),
    decreases input,
{
    match input {
        Tree::Leaf(_) => {
            acc.push(input);
            assert(preorder(input) == seq![input]);
        },
        Tree::Node(y, z) => {
            acc.push(input);
            visit_into(y, acc);
            visit_into(z, acc);
            assert(preorder(input) == seq![input] + preorder(&**y) + preorder(&**z));
            assert(final(acc)@ =~= old(acc)@ + preorder(input));
        },
    }
}

/// The nodes of `input` in pre-order, found recursively.
pub fn visit<'a>(input: &'a Tree) -> (r: Vec<&'a Tree>)
    ensures
        r@ == preorder(input),
{
    let mut ret: Vec<&'a Tree> = Vec::new();
    visit_into(input, &mut ret);
    assert(ret@ =~= preorder(input));
    ret
}

/// The nodes of `input` in pre-order, found with an explicit stack.
pub fn iter_visit<'a>(input: &'a Tree) -> (r: Vec<&'a Tree>)
    ensures
        r@ == preorder(input),
{
    let mut q: Vec<&'a Tree> = Vec::new();
    let mut ret: Vec<&'a Tree> = Vec::new();
    q.push(input);
    assert(pending(q@) =~= preorder(input)) by {
        assert(q@.drop_last() =~= Seq::<&Tree>::empty());
        assert(pending(q@.drop_last()) == Seq::<&Tree>::empty());
        assert(q@.last() == input);
        assert(preorder(input) + Seq::<&Tree>::empty() =~= preorder(input));
    }
    assert(ret@ + pending(q@) =~= preorder(input));
    while q.len() != 0
        invariant
            ret@ + pending(q@) == preorder(input),
        decreases pending(q@).len(),
    {
        let ghost before = q@;
        let t = q.pop().unwrap();
        assert(q@ == before.drop_last());
        match t {
            Tree::Leaf(_) => {
                ret.push(t);
                assert(preorder(t) == seq![t]);
                assert(ret@ + pending(q@) =~= preorder(input));
            },
            Tree::Node(y, z) => {
                ret.push(t);
                let ghost rest = q@;
                q.push(&**z);
                q.push(&**y);
                assert(q@.drop_last() == rest.push(&**z));
                assert(rest.push(&**z).drop_last() == rest);
                assert(q@.last() == &**y);
                assert(pending(q@) == preorder(&**y) + pending(rest.push(&**z)));
                assert(pending(rest.push(&**z)) == preorder(&**z) + pending(rest));
                assert(preorder(t) == seq![t] + preorder(&**y) + preorder(&**z));
                assert(ret@ + pending(q@) =~= preorder(input));
            },
        }
    }
    assert(pending(q@) =~= Seq::<&Tree>::empty());
    assert(ret@ =~= preorder(input));
    ret
}

enum PathAction<'a> {
    Emit(&'a Tree),
    Pop,
}

/// The root-to-leaf paths of a tree, handed out one at a time, left to right.
pub struct Paths<'a> {
    q: Vec<PathAction<'a>>,
    result: Vec<&'a Tree>,
}

/// The paths still to come from a stack of actions (top last) and the path
/// walked so far: an emitted subtree gives its paths after the walked prefix,
/// and a pop shortens the prefix.
spec fn rest_paths<'a>(q: Seq<PathAction<'a>>, prefix: Seq<&'a Tree>) -> Seq<Seq<&'a Tree>>
    decreases q.len(),
{
    if q.len() == 0 {
        Seq::empty()
    } else {
        match q.last() {
            PathAction::Pop => rest_paths(
                q.drop_last(),
                if prefix.len() > 0 {
                    prefix.drop_last()
                } else {
                    prefix
                },
            ),
            PathAction::Emit(t) => paths(t).map_values(|p: Seq<&'a Tree>| prefix + p) + rest_paths(
                q.drop_last(),
                prefix,
            ),
        }
    }
}

/// Work left on a stack of actions: a pop counts one, a subtree twice its size.
spec fn work(q: Seq<PathAction>) -> nat
    decreases q.len(),
{
    if q.len() == 0 {
        0
    } else {
        work(q.drop_last()) + match q.last() {
            PathAction::Pop => 1,
            PathAction::Emit(t) => 2 * size(t),
        }
    }
}

proof fn lemma_size_positive(t: &Tree)
    ensures
        size(t) >= 1,
{
}

fn copy_path<'a>(v: &Vec<&'a Tree>) -> (r: Vec<&'a Tree>)
    ensures
        r@ == v@,
{
    let mut r: Vec<&'a Tree> = Vec::new();
    let mut i: usize = 0;
    while i < v.len()
        invariant
            i <= v.len(),
            r@ == v@.subrange(0, i as int),
        decreases v.len() - i,
    {
        r.push(v[i]);
        i += 1;
        assert(r@ =~= v@.subrange(0, i as int));
    }
    assert(v@.subrange(0, v.len() as int) =~= v@);
    r
}

impl<'a> Paths<'a> {
    /// The paths not handed out yet.
    pub closed spec fn remaining(&self) -> Seq<Seq<&'a Tree>> {
        rest_paths(self.q@, self.result@)
    }

    /// All the root-to-leaf paths of `input`, none handed out yet.
    pub fn new(input: &'a Tree) -> (r: Paths<'a>)
        ensures
            r.remaining() == paths(input),
    {
        let mut q: Vec<PathAction<'a>> = Vec::new();
        q.push(PathAction::Emit(input));
        let r = Paths { q, result: Vec::new() };
        proof {
            let e = Seq::<&'a Tree>::empty();
            let f = |p: Seq<&'a Tree>| e + p;
            assert(r.q@.drop_last() =~= Seq::<PathAction>::empty());
            assert(rest_paths(r.q@.drop_last(), e) == Seq::<Seq<&'a Tree>>::empty());
            assert(r.q@.last() == PathAction::Emit(input));
            assert(r.remaining() == paths(input).map_values(f) + Seq::<Seq<&'a Tree>>::empty());
            assert forall|i: int| 0 <= i < paths(input).len() implies #[trigger] paths(input).map_values(f)[i]
                == paths(input)[i] by {
                assert(e + paths(input)[i] =~= paths(input)[i]);
            }
            assert(r.remaining() =~= paths(input));
        }
        r
    }

    /// The next path, root first, or `None` once all have been handed out.
    pub fn next(&mut self) -> (r: Option<Vec<&'a Tree>>)
        ensures
            old(self).remaining().len() == 0 ==> r is None && final(self).remaining().len() == 0,
            old(self).remaining().len() > 0 ==> r is Some && r->Some_0@ == old(self).remaining()[0]
                && final(self).remaining() == old(self).remaining().drop_first(),
    {
        let ghost all = self.remaining();
        loop
            invariant
                self.remaining() == all,
                all == old(self).remaining(),
            decreases work(self.q@),
        {
            let ghost q0 = self.q@;
            let ghost prefix0 = self.result@;
            match self.q.pop() {
                None => {
                    assert(q0.len() == 0);
                    assert(all == Seq::<Seq<&'a Tree>>::empty());
                    return None;
                },
                Some(PathAction::Pop) => {
                    assert(self.q@ == q0.drop_last());
                    if self.result.len() > 0 {
                        self.result.pop();
                        assert(self.result@ == prefix0.drop_last());
                    }
                },
                Some(PathAction::Emit(x)) => {
                    assert(self.q@ == q0.drop_last());
                    proof {
                        lemma_size_positive(x);
                    }
                    match x.echo() {
                        Echo::Terminal(y) => {
                            let mut ret = copy_path(&self.result);
                            ret.push(x);
                            proof {
                                let tail = rest_paths(self.q@, self.result@);
                                let f0 = |p: Seq<&'a Tree>| prefix0 + p;
                                assert(paths(x) == seq![seq![x]]);
                                assert(q0.last() == PathAction::Emit(x));
                                assert(all == paths(x).map_values(f0) + tail);
                                assert(paths(x).map_values(f0) =~= seq![prefix0 + seq![x]]);
                                assert(all[0] =~= prefix0 + seq![x]);
                                assert(ret@ =~= all[0]);
                                assert(all.drop_first() =~= tail);
                            }
                            return Some(ret);
                        },
                        Echo::Node(y, ys) => {
                            let left = ys[0];
                            let right = ys[1];
                            self.result.push(y);
                            self.q.push(PathAction::Pop);
                            self.q.push(PathAction::Emit(right));
                            self.q.push(PathAction::Emit(left));
                            proof {
                                let base = q0.drop_last();
                                let q1 = base.push(PathAction::Pop);
                                let q2 = q1.push(PathAction::Emit(right));
                                assert(self.q@ == q2.push(PathAction::Emit(left)));
                                assert(self.q@.drop_last() == q2);
                                assert(q2.drop_last() == q1);
                                assert(q1.drop_last() == base);
                                let ext = prefix0.push(x);
                                assert(self.result@ == ext);
                                assert(ext.drop_last() =~= prefix0);
                                let fl = |p: Seq<&'a Tree>| ext + p;
                                let f0 = |p: Seq<&'a Tree>| prefix0 + p;
                                let fx = |p: Seq<&'a Tree>| seq![x] + p;
                                assert(rest_paths(q1, ext) == rest_paths(base, prefix0));
                                assert(rest_paths(q2, ext) == paths(right).map_values(fl) + rest_paths(q1, ext));
                                assert(rest_paths(self.q@, ext) == paths(left).map_values(fl)
                                    + rest_paths(q2, ext));
                                assert(paths(x) == (paths(left) + paths(right)).map_values(fx));
                                let both = paths(left) + paths(right);
                                assert forall|i: int| 0 <= i < both.len() implies
                                    #[trigger] both.map_values(fx).map_values(f0)[i] == both.map_values(fl)[i] by {
                                    assert(prefix0 + (seq![x] + both[i]) =~= ext + both[i]);
                                }
                                assert(both.map_values(fx).map_values(f0) =~= both.map_values(fl));
                                assert(both.map_values(fl) =~= paths(left).map_values(fl)
                                    + paths(right).map_values(fl));
                                assert(q0.last() == PathAction::Emit(x));
                                assert(all == paths(x).map_values(f0) + rest_paths(base, prefix0));
                                assert(self.remaining() =~= all);
                                assert(work(q1) == work(base) + 1);
                                assert(work(q2) == work(q1) + 2 * size(right));
                                assert(work(self.q@) == work(q2) + 2 * size(left));
                                assert(work(q0) == work(base) + 2 * size(x));
                                assert(size(x) == 1 + size(left) + size(right));
                            }
                        },
                    }
                },
            }
        }
    }
}

} // verus!
