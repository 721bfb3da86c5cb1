//! A stack of closures, innermost last, addressed by depth: depth 1 is the
//! innermost closure.
use vstd::prelude::*;

verus! {

#[derive(Debug)]
pub struct ClosurePath(pub Vec<usize>);

impl View for ClosurePath {
    type V = Seq<usize>;

    open spec fn view(&self) -> Seq<usize> {
        self.0@
    }
}

/// The last position at which `path` holds `closure_id`.
pub open spec fn last_position(path: Seq<usize>, closure_id: usize) -> int
    decreases path.len(),
{
    if path.len() == 0 {
        -1
    } else if path.last() == closure_id {
        path.len() - 1
    } else {
        last_position(path.drop_last(), closure_id)
    }
}

/// The last position of an element that a path holds is a position of
/// the path.
pub proof fn lemma_last_position(path: Seq<usize>, closure_id: usize)
    ensures
        -1 <= last_position(path, closure_id) < path.len(),
        path.contains(closure_id) ==> 0 <= last_position(path, closure_id)
            && path[last_position(path, closure_id)] == closure_id,
        !path.contains(closure_id) ==> last_position(path, closure_id) == -1,
    decreases path.len(),
{
    if path.len() > 0 {
        lemma_last_position(path.drop_last(), closure_id);
        if path.last() != closure_id {
            if path.contains(closure_id) {
                let i = choose|i: int| 0 <= i < path.len() && path[i] == closure_id;
                assert(path.drop_last()[i] == closure_id);
            }
            if path.drop_last().contains(closure_id) {
                let i = choose|i: int|
                    0 <= i < path.drop_last().len() && path.drop_last()[i] == closure_id;
                assert(path[i] == closure_id);
            }
        }
    }
}

impl ClosurePath {
    pub fn new() -> (r: Self)
        ensures
            r@ == Seq::<usize>::empty(),
    {
        ClosurePath(Vec::new())
    }

    /// The closure at `depth`, counted from the innermost one.
    pub fn get_at_depth(&self, depth: usize) -> (r: usize)
        requires
            1 <= depth <= self@.len(),
        ensures
            r == self@[self@.len() - depth],
    {
        self.0[self.0.len() - depth]
    }

    /// Enters a closure: it becomes the innermost one.
    pub fn register(&mut self, closure_id: usize)
        ensures
            final(self)@ == old(self)@.push(closure_id),
    {
        self.0.push(closure_id);
    }

    /// Puts a closure right inside the one at `depth`.
    pub fn register_after_depth(&mut self, closure_id: usize, depth: usize)
        requires
            1 <= depth <= old(self)@.len() + 1,
        ensures
            final(self)@ == old(self)@.insert(old(self)@.len() + 1 - depth, closure_id),
    {
        let at: usize = self.0.len() - (depth - 1);
        self.0.insert(at, closure_id);
    }

    /// Leaves every closure from the last occurrence of `closure_id` on,
    /// and returns what was left, outermost first.
    pub fn backtrack_before_closure(&mut self, closure_id: usize) -> (r: Vec<usize>)
        requires
            old(self)@.contains(closure_id),
        ensures
            final(self)@ == old(self)@.take(last_position(old(self)@, closure_id)),
            r@ == old(self)@.skip(last_position(old(self)@, closure_id)),
    {
        let mut index: usize = self.0.len();
        proof {
            lemma_last_position(self@, closure_id);
            assert(self@.take(index as int) =~= self@);
        }
        loop
            invariant
                0 < index <= self.0.len(),
                *self == *old(self),
                self@.contains(closure_id),
                last_position(self@.take(index as int), closure_id) == last_position(
                    self@,
                    closure_id,
                ),
                0 <= last_position(self@, closure_id),
            decreases index,
        {
            index = index - 1;
            proof {
                let prefix = self@.take(index + 1);
                assert(prefix.last() == self@[index as int]);
                assert(prefix.drop_last() =~= self@.take(index as int));
            }
            if self.0[index] == closure_id {
                let rest = self.0.split_off(index);
                return rest;
            }
            proof {
                let prefix = self@.take(index + 1);
                assert(prefix.len() > 0 && prefix.last() != closure_id);
                assert(last_position(prefix, closure_id) == last_position(
                    prefix.drop_last(),
                    closure_id,
                ));
                if index == 0 {
                    assert(self@.take(0).len() == 0);
                    assert(last_position(self@.take(0), closure_id) == -1);
                }
            }
        }
    }

    /// Enters again what a backtrack left.
    pub fn restore_backtrack(&mut self, rest: Vec<usize>)
        ensures
            final(self)@ == old(self)@ + rest@,
    {
        let mut rest = rest;
        self.0.append(&mut rest);
    }
}

} // verus!
