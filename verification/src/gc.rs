//! The pre-pass garbage collector: bindings that nothing refers to are
//! dissolved before the reducer runs.
use vstd::prelude::*;
use crate::ast::ASTError;
use crate::ast::GraphView;
use crate::ast::NodeId;
use crate::ast::AST;
use crate::integrity::lemma_bound_from_except;
use crate::integrity::lemma_bound_stripped;
use crate::node::Edge;
use crate::reduce::Kind;
use crate::rules::passes;

verus! {

impl GraphView {
    /// A closure that no variable and no data node refers to.
    pub open spec fn is_unused_closure(self, node: NodeId) -> bool {
        self.is_closure(node) && !self.referenced(node)
    }

    /// The graph after the unused closure `closure` has been collected:
    /// it is stripped, and the subtree of its parameter is deleted.
    pub open spec fn without_binding(self, closure: NodeId) -> GraphView {
        self.stripped(closure).without_subtree(self.children[(closure, Edge::Parameter)])
    }

    /// `to` is what is left after `count` unused closures have been
    /// collected, one after the other.
    pub open spec fn collects(self, to: GraphView, count: nat) -> bool
        decreases count,
    {
        if count == 0 {
            to == self
        } else {
            exists|before: GraphView, closure: NodeId|
                #![trigger passes(before, closure, count)]
                passes(before, closure, count) && self.collects(before, (count - 1) as nat)
                    && before.is_unused_closure(closure) && before.strippable(closure) && to
                    == before.without_binding(closure)
        }
    }

    /// Collecting fails with `e` and leaves `to`: after some closures
    /// have been collected, an unused closure lacks its body or its
    /// parameter, and the graph stays as it then is; or what is left once
    /// its parameter is deleted is not well bound, because something
    /// outside referred into the parameter.
    pub open spec fn collect_fails(self, to: GraphView, e: ASTError) -> bool {
        exists|before: GraphView, closure: NodeId, count: nat|
            #![trigger passes(before, closure, count)]
            passes(before, closure, count) && self.collects(before, count)
                && before.is_unused_closure(closure) && (if !before.strippable(closure) {
                e == before.strip_error(closure) && to == before
            } else {
                e == ASTError::InvalidClosureChain && to == before.without_binding(closure)
                    && !to.well_bound()
            })
    }

    /// No closure is unused.
    pub open spec fn collected(self) -> bool {
        forall|node: NodeId| !#[trigger] self.is_unused_closure(node)
    }
}

impl AST {
    /// Strips every closure that nothing refers to and deletes the
    /// subtree of its parameter, again and again until no such closure is
    /// left, and returns how many closures it collected. Nodes are only
    /// ever deleted, never added or changed.
    ///
    /// Fails only where an unused closure lacks its body or its parameter
    /// edge, and where a reference led from outside into the parameter of
    /// an unused closure, see [`GraphView::collect_fails`]; what was
    /// collected until then stays collected.
    pub fn garbage_collect(&mut self) -> (r: Result<usize, ASTError>)
        requires
            old(self).wf(),
        ensures
            final(self).wf(),
            final(self)@.next_uid == old(self)@.next_uid,
            old(self)@.keeps(final(self)@.nodes),
            r is Ok ==> final(self)@.collected() && old(self)@.collects(
                final(self)@,
                r->Ok_0 as nat,
            ),
            r is Err ==> r->Err_0 is EdgeNotFound || r->Err_0 is InvalidClosureChain,
            r is Err ==> old(self)@.collect_fails(final(self)@, r->Err_0),
            r is Ok && old(self)@.well_bound() ==> final(self)@.well_bound(),
    {
        let mut count: usize = 0;
        let total: usize = self.node_count();
        proof {
            self.lemma_linked();
        }
        loop
            invariant
                self.wf(),
                self@.next_uid == old(self)@.next_uid,
                old(self)@.keeps(self@.nodes),
                old(self)@.well_bound() ==> self@.well_bound(),
                old(self)@.collects(self@, count as nat),
                old(self)@.nodes.dom().finite(),
                total == old(self)@.nodes.dom().len(),
                count + self@.nodes.dom().len() <= old(self)@.nodes.dom().len(),
            decreases self@.nodes.dom().len(),
        {
            let ghost start = self@;
            proof {
                self.lemma_linked();
            }
            let ids = self.node_ids();
            let mut stripped = false;
            let mut i: usize = 0;
            while i < ids.len()
                invariant
                    0 <= i <= ids.len(),
                    self.wf(),
                    start.linked(),
                    self@.next_uid == old(self)@.next_uid,
                    old(self)@.keeps(self@.nodes),
                    old(self)@.well_bound() ==> self@.well_bound(),
                    old(self)@.collects(self@, count as nat),
                    old(self)@.nodes.dom().finite(),
                    total == old(self)@.nodes.dom().len(),
                    count + self@.nodes.dom().len() <= old(self)@.nodes.dom().len(),
                    start.keeps(self@.nodes),
                    forall|n: NodeId| #[trigger]
                        start.nodes.contains_key(n) ==> exists|j: int|
                            0 <= j < ids@.len() && ids@[j] == n,
                    !stripped ==> self@ == start && forall|j: int|
                        0 <= j < i ==> !start.is_unused_closure(#[trigger] ids@[j]),
                    stripped ==> self@.nodes.dom().len() < start.nodes.dom().len(),
                decreases ids.len() - i,
            {
                let id = ids[i];
                if self.classify(id) == Kind::Closure && !self.is_referenced(id) {
                    let ghost prior = self@;
                    proof {
                        self.lemma_linked();
                    }
                    proof {
                        assert(passes(prior, id, count as nat));
                    }
                    let parameter = match self.remove_closure(id) {
                        Ok(parameter) => parameter,
                        Err(e) => {
                            return Err(e);
                        },
                    };
                    let ghost middle = self@;
                    proof {
                        if prior.well_bound() {
                            lemma_bound_stripped(prior, id, id);
                            lemma_bound_from_except(middle, id);
                        }
                    }
                    match self.remove_subtree_checked(parameter) {
                        Ok(_) => {},
                        Err(e) => {
                            return Err(e);
                        },
                    }
                    proof {
                        assert(middle.nodes =~= prior.nodes.remove(id));
                        assert(self@.nodes.dom().subset_of(middle.nodes.dom()));
                        assert(prior.nodes.dom().finite());
                        vstd::set_lib::lemma_len_subset(self@.nodes.dom(), middle.nodes.dom());
                        assert(prior.nodes.dom().subset_of(start.nodes.dom()));
                        vstd::set_lib::lemma_len_subset(prior.nodes.dom(), start.nodes.dom());
                        assert(prior.nodes.dom().contains(id));
                        assert(prior.nodes.dom().len() > 0);
                        assert(self@ == prior.without_binding(id));
                        assert(passes(prior, id, (count + 1) as nat));
                        assert(self@.nodes.dom().len() < prior.nodes.dom().len());
                        vstd::set_lib::lemma_len_subset(
                            old(self)@.nodes.dom(),
                            old(self)@.nodes.dom(),
                        );
                        assert(old(self)@.collects(self@, (count + 1) as nat));
                    }
                    count = count + 1;
                    stripped = true;
                }
                i += 1;
            }
            if !stripped {
                proof {
                    assert forall|node: NodeId| !#[trigger] self@.is_unused_closure(node) by {
                        if self@.is_unused_closure(node) {
                            let j = choose|j: int| 0 <= j < ids@.len() && ids@[j] == node;
                            assert(!start.is_unused_closure(ids@[j]));
                        }
                    }
                }
                return Ok(count);
            }
        }
    }
}

} // verus!
