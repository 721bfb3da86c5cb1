//! Effects: what a driver has to do for a reduced program that asks for
//! input or output, and what becomes of the graph when it is done.
//!
//! The reducer performs no effect. Where the reduced root is a data node
//! with an I/O tag, [`AST::begin_effect`] tells the driver what to do, and
//! [`AST::complete_read`] or [`AST::complete_print`] takes the outcome
//! back. The driver goes on until no effect is left.
use vstd::prelude::*;
use crate::ast::ASTError;
use crate::ast::GraphView;
use crate::ast::NodeId;
use crate::ast::AST;
use crate::node::Edge;
use crate::node::Node;
use crate::node::NodeView;
use crate::node::Primitive;
use crate::node::PrimitiveView;
use crate::node::VariableKind;
use crate::node::VariableKindView;
use crate::rules::carries;
use crate::rules::hands;
use crate::rules::passes;
use crate::rules::passes_two;
use crate::tags::ConstructorTag;
use crate::tags::IOTag;

verus! {

/// An effect that the driver is carrying out.
#[derive(Debug, Clone, Copy)]
pub struct Pending {
    /// The data node of the effect.
    pub at: NodeId,
    /// Whether that node has no owner and goes when the effect is done.
    pub dangling: bool,
    /// The flatmap node that asked for the effect, with the binder of its
    /// transform; `None` for an effect at the root.
    pub flatmap: Option<(NodeId, NodeId)>,
}

/// What the driver has to do next.
#[derive(Debug)]
pub enum Effect {
    /// Nothing: the root is no effect.
    Done,
    /// Read a line, then call `complete_read`.
    ReadLine(Pending),
    /// Write these bytes, then call `complete_print`.
    Print(Pending, Vec<u8>),
}

pub enum EffectView {
    Done,
    ReadLine(Pending),
    Print(Pending, Seq<u8>),
}

impl View for Effect {
    type V = EffectView;

    open spec fn view(&self) -> EffectView {
        match self {
            Effect::Done => EffectView::Done,
            Effect::ReadLine(pending) => EffectView::ReadLine(*pending),
            Effect::Print(pending, bytes) => EffectView::Print(*pending, bytes@),
        }
    }
}

impl GraphView {
    /// The I/O tag of `node`, if it is a data node with one.
    pub open spec fn io_tag_at(self, node: NodeId) -> Option<IOTag> {
        if self.nodes.contains_key(node) && self.nodes[node] is Data
            && self.nodes[node]->Data_tag is IO {
            Some(self.nodes[node]->Data_tag->IO_0)
        } else {
            None
        }
    }

    /// What the driver has to do for the effect `tag` at `pending.at`:
    /// read a line; or write the bytes that the argument of `Print` is,
    /// once it is forced and read.
    pub open spec fn requests(
        self,
        tag: IOTag,
        pending: Pending,
        fuel: nat,
        to: GraphView,
        effect: EffectView,
    ) -> bool {
        match tag {
            IOTag::ReadLine => to == self && effect == EffectView::ReadLine(pending),
            IOTag::Print => exists|binders: Seq<NodeId>, bytes: Seq<u8>|
                #![trigger self.lists_binders(pending.at, binders), carries(bytes)]
                self.lists_binders(pending.at, binders) && carries(bytes) && binders.len() == 1
                    && self.extracts(binders[0], fuel, to, PrimitiveView::Bytes(bytes)) && effect
                    == EffectView::Print(pending, bytes),
            IOTag::Flatmap => false,
        }
    }

    /// What the reduced root asks of the driver. Where the head under the
    /// root is no effect, nothing. Where it is a flatmap, its second
    /// argument is forced and released, and the effect that it is is asked
    /// for. Else the head is the effect that is asked for.
    pub open spec fn asks(self, fuel: nat, to: GraphView, effect: EffectView) -> bool {
        let head = self.chain_end(self.root, fuel);
        match self.io_tag_at(head) {
            None => to == self && effect == EffectView::Done,
            Some(IOTag::Flatmap) => exists|
                binders: Seq<NodeId>,
                released: GraphView,
                io: NodeId,
                dangling: bool,
            |
                #![trigger self.lists_binders(head, binders), hands(released, io, dangling)]
                self.lists_binders(head, binders) && hands(released, io, dangling)
                    && binders.len() == 2 && self.releases(
                    binders[1],
                    fuel,
                    released,
                    io,
                    dangling,
                ) && released.io_tag_at(io) is Some && released.requests(
                    released.io_tag_at(io)->Some_0,
                    Pending { at: io, dangling, flatmap: Some((head, binders[0])) },
                    fuel,
                    to,
                    effect,
                ),
            Some(tag) => self.requests(
                tag,
                Pending { at: head, dangling: false, flatmap: None },
                fuel,
                to,
                effect,
            ),
        }
    }

    /// What becomes of the graph when an effect is done and has yielded
    /// `result`: a new node holds the result. For an effect at the root,
    /// that node takes its place. For an effect under a flatmap, the effect
    /// goes if it had no owner; the transform of the flatmap is forced and
    /// released and applied to the result; the application takes the place
    /// of the flatmap and is reduced.
    pub open spec fn completes(
        self,
        pending: Pending,
        result: NodeView,
        fuel: nat,
        to: GraphView,
        end: NodeId,
    ) -> bool {
        exists|io_result: NodeId, released: GraphView, applied: GraphView, transform: NodeId,
            dangling: bool, application: NodeId|
            #![trigger hands(released, transform, dangling), passes_two(released, applied, application), passes(applied, io_result, fuel)]
            hands(released, transform, dangling) && passes_two(released, applied, application)
                && passes(applied, io_result, fuel) && !self.nodes.contains_key(io_result)
                && match pending.flatmap {
                None => end == io_result && self.nodes.contains_key(pending.at) && to
                    == self.with_node(io_result, result).replaced(pending.at, io_result),
                Some((flatmap, transform_binder)) => (if pending.dangling {
                    self.with_node(io_result, result).without_node(pending.at)
                } else {
                    self.with_node(io_result, result)
                }).releases(transform_binder, fuel, released, transform, dangling)
                    && applied.has_application(released, transform, io_result, application)
                    && application != flatmap && applied.replaced(flatmap, application).evaluates(
                    application,
                    fuel,
                    to,
                    end,
                ),
            }
    }
}

impl GraphView {
    /// What becomes of an effect at the root, at the node `at`, when it is
    /// done and has yielded `result`: a new node with the result takes the
    /// place of `at`. That succeeds exactly when `at` is live and there is
    /// room for one node; else nothing changes.
    pub open spec fn settles(
        self,
        at: NodeId,
        result: NodeView,
        to: GraphView,
        r: Result<NodeId, ASTError>,
    ) -> bool {
        match r {
            Ok(end) => self.nodes.contains_key(at) && self.room(1, 0) && !self.nodes.contains_key(
                end,
            ) && to == self.with_node(end, result).replaced(at, end),
            Err(e) => to == self && !(self.nodes.contains_key(at) && self.room(1, 0)) && e == (
            if self.nodes.contains_key(at) {
                ASTError::Full
            } else {
                ASTError::Custom(at, "no such node")
            }),
        }
    }

    /// Asking for the effect `tag` fails: a flatmap is no effect to carry
    /// out; `Print` has another number of arguments than one; or reading
    /// the bytes to print fails.
    pub open spec fn request_fails(self, tag: IOTag, pending: Pending, fuel: nat, e: ASTError) -> bool {
        match tag {
            IOTag::ReadLine => false,
            IOTag::Print => if self.argument_total(pending.at) != 1 {
                e == ASTError::Custom(pending.at, "Incorrect argument count")
            } else {
                self.expect_bytes_fails(self.binding(pending.at, 0), pending.at, fuel, e)
            },
            IOTag::Flatmap => e == ASTError::Custom(
                pending.at,
                "#io_flatmap is not an effectful IO",
            ),
        }
    }

    /// Asking what the reduced root wants fails: a flatmap has another
    /// number of arguments than two; or forcing and releasing its effect
    /// fails; or what is released is no effect; or asking for the effect
    /// fails, see [`Self::request_fails`]. A root that is no effect never
    /// fails.
    pub open spec fn ask_fails(self, fuel: nat, e: ASTError) -> bool {
        let head = self.chain_end(self.root, fuel);
        match self.io_tag_at(head) {
            None => false,
            Some(IOTag::Flatmap) => if self.argument_total(head) != 2 {
                e == ASTError::Custom(head, "Incorrect argument count")
            } else {
                self.release_fails(self.binding(head, 1), fuel, e) || exists|
                    released: GraphView,
                    io: NodeId,
                    dangling: bool,
                |
                    #![trigger hands(released, io, dangling)]
                    hands(released, io, dangling) && self.releases(
                        self.binding(head, 1),
                        fuel,
                        released,
                        io,
                        dangling,
                    ) && (match released.io_tag_at(io) {
                        None => e == ASTError::Custom(head, "Expected IO"),
                        Some(tag) => released.request_fails(
                            tag,
                            Pending { at: io, dangling, flatmap: Some((head, self.binding(head, 0))) },
                            fuel,
                            e,
                        ),
                    })
            },
            Some(tag) => self.request_fails(
                tag,
                Pending { at: head, dangling: false, flatmap: None },
                fuel,
                e,
            ),
        }
    }

    /// The graph that holds the result of an effect in the new node
    /// `io_result`, and no longer the effect if that had no owner.
    pub open spec fn yielded(self, pending: Pending, result: NodeView, io_result: NodeId) -> GraphView {
        if pending.dangling {
            self.with_node(io_result, result).without_node(pending.at)
        } else {
            self.with_node(io_result, result)
        }
    }

    /// Taking the result of an effect fails. At the root: the effect's
    /// node is gone, or there is no room for the result. Under a flatmap:
    /// there is no room for the result or for the application; or forcing
    /// and releasing the transform fails; or the application cannot take
    /// the place of the flatmap; or its reduction fails.
    pub open spec fn complete_fails(
        self,
        pending: Pending,
        result: NodeView,
        fuel: nat,
        e: ASTError,
    ) -> bool {
        match pending.flatmap {
            None => self.primitive_fails(pending.at, e),
            Some((flatmap, transform_binder)) => (e == ASTError::Full && !self.room(1, 0))
                || exists|io_result: NodeId, released: GraphView, transform: NodeId, dangling: bool|
                #![trigger hands(released, transform, dangling), passes(released, io_result, fuel)]
                hands(released, transform, dangling) && passes(released, io_result, fuel)
                    && !self.nodes.contains_key(io_result) && (self.yielded(
                    pending,
                    result,
                    io_result,
                ).release_fails(transform_binder, fuel, e) || (self.yielded(
                    pending,
                    result,
                    io_result,
                ).releases(transform_binder, fuel, released, transform, dangling) && (
                released.application_fails(transform, io_result, e) || exists|
                    applied: GraphView,
                    application: NodeId,
                |
                    #![trigger passes_two(released, applied, application)]
                    passes_two(released, applied, application) && applied.has_application(
                        released,
                        transform,
                        io_result,
                        application,
                    ) && (if application == flatmap {
                        e == ASTError::InvalidClosureChain
                    } else {
                        applied.replaced(flatmap, application).evaluate_fails(
                            application,
                            fuel,
                            e,
                        )
                    })))),
        }
    }

    /// What the driver is asked to write for `Print` at `pending.at`
    /// where the argument already is a value: the bytes that it holds, if
    /// the node has one argument, its binding can be let go and the value
    /// is a byte sequence.
    pub open spec fn print_outcome(self, pending: Pending) -> Result<EffectView, ASTError> {
        if self.argument_total(pending.at) != 1 {
            Err(ASTError::Custom(pending.at, "Incorrect argument count"))
        } else {
            match self.bytes_outcome(self.binding(pending.at, 0), pending.at) {
                Ok(bytes) => Ok(EffectView::Print(pending, bytes)),
                Err(e) => Err(e),
            }
        }
    }

    /// What the driver is asked to do for the effect `tag`, see
    /// [`Self::print_outcome`]. A flatmap is no effect to carry out.
    pub open spec fn request_outcome(self, tag: IOTag, pending: Pending) -> Result<
        EffectView,
        ASTError,
    > {
        match tag {
            IOTag::ReadLine => Ok(EffectView::ReadLine(pending)),
            IOTag::Print => self.print_outcome(pending),
            IOTag::Flatmap => Err(
                ASTError::Custom(pending.at, "#io_flatmap is not an effectful IO"),
            ),
        }
    }

    /// The request needs no reduction: it is none for `Print`, or the
    /// argument of `Print` already is a value and `fuel` is enough to see
    /// that.
    pub open spec fn request_ready(self, tag: IOTag, pending: Pending, fuel: nat) -> bool {
        tag == IOTag::Print && self.argument_total(pending.at) == 1 ==> fuel > 1
            && self.holds_value(self.binding(pending.at, 0), (fuel - 2) as nat)
    }

    /// The graph after such a request: the argument of `Print` is read.
    pub open spec fn requested(self, tag: IOTag, pending: Pending) -> GraphView {
        if tag == IOTag::Print && self.argument_total(pending.at) == 1 {
            self.read_or_kept(self.binding(pending.at, 0))
        } else {
            self
        }
    }
}

/// The view of a result.
pub open spec fn effect_view(r: Result<Effect, ASTError>) -> Result<EffectView, ASTError> {
    match r {
        Ok(effect) => Ok(effect@),
        Err(e) => Err(e),
    }
}

impl AST {
    /// The I/O tag of `node`, if it is a data node with one.
    pub fn io_tag(&self, node: NodeId) -> (r: Option<IOTag>)
        ensures
            r == self@.io_tag_at(node),
    {
        match self.node(node) {
            Some(Node::Data { tag: ConstructorTag::IO(tag) }) => Some(*tag),
            _ => None,
        }
    }

    /// Tells what the reduced root asks the driver to do. A flatmap has
    /// the effect in its second argument reduced first; that effect is
    /// what the driver carries out. A root that is no effect, or that
    /// reads a line, always succeeds; it fails only as
    /// [`GraphView::ask_fails`] says.
    pub fn begin_effect(&mut self, fuel: u64) -> (r: Result<Effect, ASTError>)
        requires
            old(self).wf(),
        ensures
            final(self).wf(),
            final(self)@.next_uid >= old(self)@.next_uid,
            old(self)@.io_tag_at(old(self)@.chain_end(old(self)@.root, fuel as nat)) is None
                ==> r is Ok,
            r is Ok ==> old(self)@.asks(fuel as nat, final(self)@, r->Ok_0@),
            old(self)@.io_tag_at(old(self)@.chain_end(old(self)@.root, fuel as nat)) == Some(
                IOTag::ReadLine,
            ) ==> r is Ok && final(self)@ == old(self)@,
            r is Err ==> old(self)@.ask_fails(fuel as nat, r->Err_0),
    {
        let root = self.root();
        let head = self.chain_head(root, fuel);
        match self.io_tag(head) {
            None => Ok(Effect::Done),
            Some(IOTag::Flatmap) => {
                let binders = ConstructorTag::get_binders(self, head);
                proof {
                    let v = self@;
                    if binders@.len() > 0 {
                        assert(v.child(head, Edge::Binder(0)) == Some(binders@[0]));
                    }
                    if binders@.len() > 1 {
                        assert(v.child(head, Edge::Binder(1)) == Some(binders@[1]));
                    }
                    if binders@.len() > 2 {
                        assert(v.child(head, Edge::Binder(2)) == Some(binders@[2]));
                    }
                    assert(binders@.len() == 2 <==> v.argument_total(head) == 2);
                }
                if binders.len() != 2 {
                    return Err(ASTError::Custom(head, "Incorrect argument count"));
                }
                let (io, dangling) = self.evaluate_closure_parameter(binders[1], fuel)?;
                let ghost released = self@;
                proof {
                    assert(hands(released, io, dangling));
                }
                match self.io_tag(io) {
                    Some(tag) => {
                        let r = self.request(
                            tag,
                            Pending { at: io, dangling, flatmap: Some((head, binders[0])) },
                            fuel,
                        );
                        proof {
                            if r is Ok {
                                assert(hands(released, io, dangling));
                            }
                        }
                        r
                    },
                    None => Err(ASTError::Custom(head, "Expected IO")),
                }
            },
            Some(tag) => self.request(tag, Pending { at: head, dangling: false, flatmap: None },
                fuel),
        }
    }

    /// What the driver has to do for one effect: read a line, or write
    /// the bytes that the argument of `Print` is. Reading a line is always
    /// asked for; a flatmap never is. Where the argument of `Print`
    /// already is a value, the bytes are asked for exactly when the
    /// binding can be let go and the value is a byte sequence.
    /// It fails only as [`GraphView::request_fails`] says.
    fn request(&mut self, tag: IOTag, pending: Pending, fuel: u64) -> (r: Result<Effect, ASTError>)
        requires
            old(self).wf(),
        ensures
            final(self).wf(),
            final(self)@.next_uid >= old(self)@.next_uid,
            r is Ok ==> !(r->Ok_0 is Done),
            r is Ok ==> old(self)@.requests(tag, pending, fuel as nat, final(self)@, r->Ok_0@),
            old(self)@.request_ready(tag, pending, fuel as nat) ==> effect_view(r) == old(
                self,
            )@.request_outcome(tag, pending) && final(self)@ == old(self)@.requested(
                tag,
                pending,
            ),            r is Err ==> old(self)@.request_fails(tag, pending, fuel as nat, r->Err_0),
    {
        match tag {
            IOTag::ReadLine => Ok(Effect::ReadLine(pending)),
            IOTag::Print => {
                let binders = ConstructorTag::get_binders(self, pending.at);
                proof {
                    let v = self@;
                    if binders@.len() > 0 {
                        assert(v.child(pending.at, Edge::Binder(0)) == Some(binders@[0]));
                    }
                    if binders@.len() > 1 {
                        assert(v.child(pending.at, Edge::Binder(1)) == Some(binders@[1]));
                    }
                    assert(binders@.len() == 1 <==> v.argument_total(pending.at) == 1);
                }
                if binders.len() != 1 {
                    return Err(ASTError::Custom(pending.at, "Incorrect argument count"));
                }
                match self.extract_primitive_from_environment(binders[0], fuel) {
                    Ok(Primitive::Bytes(bytes)) => {
                        proof {
                            assert(carries(bytes@));
                        }
                        Ok(Effect::Print(pending, bytes))
                    },
                    Ok(Primitive::Number(number)) => {
                        proof {
                            assert(old(self)@.extracts(
                                binders@[0],
                                fuel as nat,
                                self@,
                                PrimitiveView::Number(number),
                            ));
                        }
                        Err(ASTError::Custom(pending.at, "Expected Bytes"))
                    },
                    Err(e) => Err(e),
                }
            },
            IOTag::Flatmap => Err(
                ASTError::Custom(pending.at, "#io_flatmap is not an effectful IO"),
            ),
        }
    }

    /// Takes the line that the driver read: the bytes become the result
    /// of the effect. For an effect at the root it succeeds exactly when
    /// the effect's node is live and there is room for one node.
    /// It fails only as [`GraphView::complete_fails`] says.
    pub fn complete_read(&mut self, pending: Pending, line: Vec<u8>, fuel: u64) -> (r: Result<
        NodeId,
        ASTError,
    >)
        requires
            old(self).wf(),
        ensures
            final(self).wf(),
            final(self)@.next_uid >= old(self)@.next_uid,
            r is Ok ==> old(self)@.completes(
                pending,
                NodeView::Primitive(PrimitiveView::Bytes(line@)),
                fuel as nat,
                final(self)@,
                r->Ok_0,
            ),
            pending.flatmap is None ==> old(self)@.settles(
                pending.at,
                NodeView::Primitive(PrimitiveView::Bytes(line@)),
                final(self)@,
                r,
            ),
            r is Err ==> old(self)@.complete_fails(
                pending,
                NodeView::Primitive(PrimitiveView::Bytes(line@)),
                fuel as nat,
                r->Err_0,
            ),
            pending.flatmap is Some && !old(self)@.room(1, 0) ==> r == Err::<NodeId, ASTError>(
                ASTError::Full,
            ) && final(self)@ == old(self)@,
    {
        self.complete_effect(pending, Node::Primitive(Primitive::Bytes(line)), fuel)
    }

    /// Takes note that the driver wrote the bytes: a free variable that
    /// says so becomes the result of the effect. For an effect at the root
    /// it succeeds exactly when the effect's node is live and there is
    /// room for one node.
    /// It fails only as [`GraphView::complete_fails`] says.
    pub fn complete_print(&mut self, pending: Pending, fuel: u64) -> (r: Result<NodeId, ASTError>)
        requires
            old(self).wf(),
        ensures
            final(self).wf(),
            final(self)@.next_uid >= old(self)@.next_uid,
            r is Ok ==> old(self)@.completes(
                pending,
                NodeView::Variable(VariableKindView::Free("#io_print finished"@)),
                fuel as nat,
                final(self)@,
                r->Ok_0,
            ),
            pending.flatmap is None ==> old(self)@.settles(
                pending.at,
                NodeView::Variable(VariableKindView::Free("#io_print finished"@)),
                final(self)@,
                r,
            ),
            r is Err ==> old(self)@.complete_fails(
                pending,
                NodeView::Variable(VariableKindView::Free("#io_print finished"@)),
                fuel as nat,
                r->Err_0,
            ),
            pending.flatmap is Some && !old(self)@.room(1, 0) ==> r == Err::<NodeId, ASTError>(
                ASTError::Full,
            ) && final(self)@ == old(self)@,
    {
        self.complete_effect(
            pending,
            Node::Variable(VariableKind::Free("#io_print finished".to_owned())),
            fuel,
        )
    }

    /// Puts the result of an effect into the graph. An effect at the root
    /// is replaced by its result. For an effect under a flatmap, the
    /// transform of the flatmap is applied to the result, the application
    /// takes the place of the flatmap and is reduced.
    ///
    /// For an effect at the root it succeeds exactly when the effect's
    /// node is live and there is room for one node, and changes nothing
    /// where it fails. Under a flatmap it fails and changes nothing where
    /// there is no room for the result.
    /// It fails only as [`GraphView::complete_fails`] says.
    fn complete_effect(&mut self, pending: Pending, result: Node, fuel: u64) -> (r: Result<
        NodeId,
        ASTError,
    >)
        requires
            old(self).wf(),
        ensures
            final(self).wf(),
            final(self)@.next_uid >= old(self)@.next_uid,
            r is Ok ==> old(self)@.completes(pending, result@, fuel as nat, final(self)@, r->Ok_0),
            pending.flatmap is None ==> old(self)@.settles(pending.at, result@, final(self)@, r),
            r is Err ==> old(self)@.complete_fails(pending, result@, fuel as nat, r->Err_0),
            pending.flatmap is Some && !old(self)@.room(1, 0) ==> r == Err::<NodeId, ASTError>(
                ASTError::Full,
            ) && final(self)@ == old(self)@,
    {
        proof {
            self.lemma_room(1, 0);
            self.lemma_linked();
        }
        if pending.flatmap.is_none() && !self.contains_node(pending.at) {
            return Err(ASTError::Custom(pending.at, "no such node"));
        }
        let ghost weight = result@;
        let io_result = self.add_node(result)?;
        let ghost added = self@;
        match pending.flatmap {
            None => {
                self.replace_by(pending.at, io_result)?;
                proof {
                    assert(hands(added, io_result, false));
                    assert(passes_two(added, added, io_result));
                    assert(passes(added, io_result, fuel as nat));
                }
                Ok(io_result)
            },
            Some((flatmap, transform_binder)) => {
                if pending.dangling {
                    let _ = self.remove_node(pending.at);
                }
                let ghost taken = self@;
                proof {
                    assert(taken == old(self)@.yielded(pending, weight, io_result));
                    assert(hands(taken, io_result, true));
                    assert(passes(taken, io_result, fuel as nat));
                }
                let (transform, dangling) = self.evaluate_closure_parameter(
                    transform_binder,
                    fuel,
                )?;
                let ghost released = self@;
                proof {
                    assert(hands(released, transform, dangling));
                    assert(passes(released, io_result, fuel as nat));
                }
                let application = self.add_application(transform, io_result)?;
                let ghost applied = self@;
                proof {
                    assert(passes_two(released, applied, application));
                }
                self.replace_by(flatmap, application)?;
                let r = self.evaluate_bounded(application, fuel);
                proof {
                    if r is Ok {
                        assert(hands(released, transform, dangling));
                        assert(passes_two(released, applied, application));
                        assert(passes(applied, io_result, fuel as nat));
                    }
                }
                r
            },
        }
    }
}

} // verus!
