//! Search nodes: a state together with the chain of nodes that led to it.
use vstd::prelude::*;

verus! {

/// A state reached by a search, with the path that reached it.
///
/// A node owns a full copy of its parent, so the chain from a node back to
/// the root is a value of its own and can be walked without any other data.
#[derive(Debug)]
pub struct Node<S> {
    pub state: S,
    pub parent: Option<Box<Node<S>>>,
    pub action: Option<usize>,
    pub path_cost: usize,
    pub depth: usize,
}

impl<S> Node<S> {
    /// The number of nodes above this one.
    pub open spec fn height(self) -> nat
        decreases self,
    {
        match self.parent {
            None => 0,
            Some(p) => p.height() + 1,
        }
    }

    /// The actions recorded along the chain, from the root down to this node.
    /// A node without an action contributes nothing.
    pub open spec fn actions(self) -> Seq<usize>
        decreases self,
    {
        let above = match self.parent {
            None => Seq::<usize>::empty(),
            Some(p) => p.actions(),
        };
        match self.action {
            None => above,
            Some(a) => above.push(a),
        }
    }

    /// The bookkeeping of the chain is consistent: the root has no action,
    /// depth 0 and cost 0; below it each node records an action, lies one
    /// deeper than its parent and costs no less.
    pub open spec fn wf(self) -> bool
        decreases self,
    {
        match self.parent {
            None => self.action is None && self.depth == 0 && self.path_cost == 0,
            Some(p) => {
                &&& self.action is Some
                &&& self.depth == p.depth + 1
                &&& self.path_cost >= p.path_cost
                &&& p.wf()
            },
        }
    }

    /// A well-formed node at depth `d` records exactly `d` actions.
    pub proof fn lemma_depth_counts_actions(self)
        requires
            self.wf(),
        ensures
            self.actions().len() == self.depth,
            self.height() == self.depth,
        decreases self,
    {
        match self.parent {
            None => {},
            Some(p) => {
                p.lemma_depth_counts_actions();
            },
        }
    }
}

/// `b` is a copy of `a`: the same chain of actions, costs and depths, and at
/// each level a state that is a clone of the state of `a` there.
pub open spec fn copies<S: Clone>(a: Node<S>, b: Node<S>) -> bool
    decreases a,
{
    &&& cloned::<S>(a.state, b.state)
    &&& a.action == b.action
    &&& a.path_cost == b.path_cost
    &&& a.depth == b.depth
    &&& match a.parent {
        None => b.parent is None,
        Some(p) => b.parent is Some && copies(*p, *b.parent.unwrap()),
    }
}

/// A copy records the same actions as the node copied and is well-formed
/// when that node is.
pub proof fn lemma_copy_keeps_chain<S: Clone>(a: Node<S>, b: Node<S>)
    requires
        copies(a, b),
    ensures
        b.actions() == a.actions(),
        b.height() == a.height(),
        a.wf() ==> b.wf(),
    decreases a,
{
    match a.parent {
        None => {},
        Some(p) => {
            lemma_copy_keeps_chain(*p, *b.parent.unwrap());
        },
    }
}

impl<S: Clone> Clone for Node<S> {
    fn clone(&self) -> (r: Self)
        ensures
            copies(*self, r),
        decreases self,
    {
        let parent = match &self.parent {
            None => None,
            Some(p) => Some(Box::new((**p).clone())),
        };
        Node {
            state: self.state.clone(),
            parent,
            action: self.action,
            path_cost: self.path_cost,
            depth: self.depth,
        }
    }
}

impl<S: Clone> Node<S> {
    /// A root: no parent, no action, cost 0 and depth 0.
    pub fn new(state: S) -> (r: Self)
        ensures
            r.state == state,
            r.parent is None,
            r.action is None,
            r.path_cost == 0,
            r.depth == 0,
            r.wf(),
            r.actions() == Seq::<usize>::empty(),
    {
        Node { state, parent: None, action: None, path_cost: 0, depth: 0 }
    }

    /// The node reached from this one by `action`, at `step_cost`. Its parent
    /// is a full copy of this node.
    pub fn child(&self, state: S, action: usize, step_cost: usize) -> (r: Self)
        requires
            self.path_cost + step_cost <= usize::MAX,
            self.depth < usize::MAX,
        ensures
            r.state == state,
            r.action == Some(action),
            r.path_cost == self.path_cost + step_cost,
            r.depth == self.depth + 1,
            r.parent is Some,
            copies(*self, *r.parent.unwrap()),
            r.actions() == self.actions().push(action),
            r.height() == self.height() + 1,
            self.wf() ==> r.wf(),
    {
        let copy = self.clone();
        proof {
            lemma_copy_keeps_chain(*self, copy);
        }
        Node {
            state,
            parent: Some(Box::new(copy)),
            action: Some(action),
            path_cost: self.path_cost + step_cost,
            depth: self.depth + 1,
        }
    }

    /// The recorded actions in the order in which they were taken, from the
    /// root to this node. On a well-formed node at depth `d` these are `d`
    /// actions; on a root, none.
    pub fn extract_solution(&self) -> (r: Vec<usize>)
        ensures
            r@ == self.actions(),
            self.wf() ==> r.len() == self.depth,
    {
        let mut collected: Vec<usize> = Vec::new();
        let mut node: &Node<S> = self;
        loop
            invariant_except_break
                self.actions() == node.actions() + collected@.reverse(),
            ensures
                self.actions() == collected@.reverse(),
            decreases node.height(),
        {
            match node.action {
                Some(a) => {
                    collected.push(a);
                },
                None => {},
            }
            match &node.parent {
                None => {
                    assert(self.actions() =~= collected@.reverse());
                    break ;
                },
                Some(p) => {
                    assert(self.actions() =~= p.actions() + collected@.reverse());
                    node = &**p;
                },
            }
        }
        let n: usize = collected.len();
        let mut result: Vec<usize> = Vec::new();
        let mut i: usize = n;
        while i > 0
            invariant
                n == collected.len(),
                i <= n,
                result@ == collected@.reverse().subrange(0, n - i),
            decreases i,
        {
            i = i - 1;
            result.push(collected[i]);
            assert(result@ =~= collected@.reverse().subrange(0, n - i));
        }
        proof {
            assert(result@ =~= collected@.reverse());
            if self.wf() {
                self.lemma_depth_counts_actions();
            }
        }
        result
    }
}

} // verus!
